use vstd::prelude::*;
use crate::regex::{Delta, EPSILON_CHR, expand_trans, fan_out, lemma_push_to_set};

verus! {

/// A nondeterministic automaton: its transition table, its start state and
/// its accepting states.
pub struct NFA {
    pub delta: Delta,
    pub initial_state: i32,
    pub final_states: Vec<i32>,
}

impl NFA {
    pub open spec fn finals(&self) -> Set<i32> {
        self.final_states@.to_set()
    }
}

/// True when every epsilon edge of `d` that leaves `x` lands in `x`.
pub open spec fn eps_closed(d: Set<(i32, char, i32)>, x: Set<i32>) -> bool {
    forall|s: i32, t: i32| x.contains(s) && #[trigger] d.contains((s, EPSILON_CHR, t)) ==> x.contains(t)
}

/// The states reachable from `s` by zero or more epsilon edges: the
/// smallest epsilon-closed set that includes `s`.
pub open spec fn closure(d: Set<(i32, char, i32)>, s: Set<i32>) -> Set<i32> {
    Set::new(|t: i32| forall|x: Set<i32>| s.subset_of(x) && eps_closed(d, x) ==> #[trigger] x.contains(t))
}

/// The states reached from `s` by one edge on `c`.
pub open spec fn step(d: Set<(i32, char, i32)>, s: Set<i32>, c: char) -> Set<i32> {
    Set::new(|t: i32| exists|q: i32| s.contains(q) && #[trigger] d.contains((q, c, t)))
}

/// Number of edges whose target is not yet in `r`.
pub open spec fn missing(e: Seq<(i32, char, i32)>, r: Seq<i32>) -> nat
    decreases e.len(),
{
    if e.len() == 0 {
        0
    } else {
        missing(e.drop_last(), r) + if r.contains(e.last().2) { 0nat } else { 1nat }
    }
}

proof fn lemma_missing_push(e: Seq<(i32, char, i32)>, r: Seq<i32>, b: i32)
    requires
        !r.contains(b),
    ensures
        missing(e, r.push(b)) <= missing(e, r),
        (exists|k: int| 0 <= k < e.len() && #[trigger] e[k].2 == b) ==> missing(e, r.push(b)) < missing(e, r),
    decreases e.len(),
{
    if e.len() > 0 {
        lemma_missing_push(e.drop_last(), r, b);
        let t = e.last().2;
        assert(r.push(b).contains(t) <==> (r.contains(t) || t == b)) by {
            if r.push(b).contains(t) && t != b {
                let k = choose|k: int| 0 <= k < r.len() + 1 && r.push(b)[k] == t;
                assert(r[k] == t);
            }
            if r.contains(t) {
                let k = choose|k: int| 0 <= k < r.len() && r[k] == t;
                assert(r.push(b)[k] == t);
            }
            if t == b {
                assert(r.push(b)[r.len() as int] == t);
            }
        };
        if exists|k: int| 0 <= k < e.len() && #[trigger] e[k].2 == b {
            let k = choose|k: int| 0 <= k < e.len() && #[trigger] e[k].2 == b;
            if k < e.len() - 1 {
                assert(e.drop_last()[k].2 == b);
            }
        }
    }
}

proof fn lemma_push_contains(r: Seq<i32>, b: i32, x: i32)
    ensures
        r.push(b).contains(x) <==> (r.contains(x) || x == b),
{
    if r.push(b).contains(x) && x != b {
        let k = choose|k: int| 0 <= k < r.len() + 1 && r.push(b)[k] == x;
        assert(r[k] == x);
    }
    if r.contains(x) {
        let k = choose|k: int| 0 <= k < r.len() && r[k] == x;
        assert(r.push(b)[k] == x);
    }
    if x == b {
        assert(r.push(b)[r.len() as int] == x);
    }
}

fn contains_state(v: &Vec<i32>, x: i32) -> (r: bool)
    ensures
        r == v@.contains(x),
{
    let mut i: usize = 0;
    while i < v.len()
        invariant
            i <= v.len(),
            forall|j: int| 0 <= j < i ==> v@[j] != x,
        decreases v.len() - i,
    {
        if v[i] == x {
            return true;
        }
        i = i + 1;
    }
    false
}

/// Adds every item of `w` to `v`.
fn append_all<T: Copy>(v: &mut Vec<T>, w: &Vec<T>)
    ensures
        final(v)@.to_set() == old(v)@.to_set().union(w@.to_set()),
{
    let mut i: usize = 0;
    while i < w.len()
        invariant
            i <= w.len(),
            v@.to_set() == old(v)@.to_set().union(w@.subrange(0, i as int).to_set()),
        decreases w.len() - i,
    {
        let ghost before = v@;
        v.push(w[i]);
        proof {
            lemma_push_to_set(before, w@[i as int]);
            let pre = w@.subrange(0, i as int);
            assert(w@.subrange(0, i + 1) == pre.push(w@[i as int]));
            lemma_push_to_set(pre, w@[i as int]);
            assert(v@.to_set() =~= old(v)@.to_set().union(w@.subrange(0, i + 1).to_set()));
        }
        i = i + 1;
    }
    assert(w@.subrange(0, w.len() as int) =~= w@);
}

/// Epsilon-closure is idempotent: closing a closed set adds nothing.
pub proof fn lemma_closure_idempotent(d: Set<(i32, char, i32)>, s: Set<i32>)
    ensures
        closure(d, closure(d, s)) == closure(d, s),
{
    let c = closure(d, s);
    assert(s.subset_of(c)) by {
        assert forall|t: i32| s.contains(t) implies c.contains(t) by {
            assert forall|x: Set<i32>| s.subset_of(x) && eps_closed(d, x) implies #[trigger] x.contains(t) by {};
        };
    };
    assert(eps_closed(d, c)) by {
        assert forall|p: i32, q: i32| c.contains(p) && #[trigger] d.contains((p, EPSILON_CHR, q)) implies c.contains(q) by {
            assert forall|x: Set<i32>| s.subset_of(x) && eps_closed(d, x) implies #[trigger] x.contains(q) by {
                assert(x.contains(p));
            };
        };
    };
    assert forall|t: i32| closure(d, c).contains(t) <==> c.contains(t) by {
        if closure(d, c).contains(t) {
            assert(c.subset_of(c));
        }
        if c.contains(t) {
            assert forall|x: Set<i32>| c.subset_of(x) && eps_closed(d, x) implies #[trigger] x.contains(t) by {
                assert(s.subset_of(x));
            };
        }
    };
    assert(closure(d, c) =~= c);
}

impl NFA {
    /// The states reachable from `states` by epsilon edges, `states` included.
    pub fn epsilon_closure(&self, states: Vec<i32>) -> (r: Vec<i32>)
        ensures
            r@.to_set() == closure(self.delta@, states@.to_set()),
    {
        let ghost d = self.delta@;
        let ghost s0 = states@.to_set();
        let edges = &self.delta.edges;
        let mut result = states;
        let mut i: usize = 0;
        proof {
            assert forall|k: int| 0 <= k < result.len() implies closure(d, s0).contains(#[trigger] result@[k]) by {
                assert forall|x: Set<i32>| s0.subset_of(x) && eps_closed(d, x) implies #[trigger] x.contains(result@[k]) by {
                    assert(s0.contains(result@[k]));
                };
            };
        }
        while i < result.len()
            invariant
                d == self.delta@,
                d == edges@.to_set(),
                i <= result.len(),
                forall|t: i32| s0.contains(t) ==> result@.contains(t),
                forall|k: int| 0 <= k < result.len() ==> closure(d, s0).contains(#[trigger] result@[k]),
                forall|j: int, k: int| #![trigger edges@[k], result@[j]] 0 <= j < i && 0 <= k < edges.len() && edges@[k].0 == result@[j]
                    && edges@[k].1 == EPSILON_CHR ==> result@.contains(edges@[k].2),
            decreases missing(edges@, result@) + result.len() - i,
        {
            let src = result[i];
            let ghost m0 = missing(edges@, result@) + result.len();
            let mut k: usize = 0;
            while k < edges.len()
                invariant
                    d == self.delta@,
                    d == edges@.to_set(),
                    i < result.len(),
                    src == result@[i as int],
                    k <= edges.len(),
                    missing(edges@, result@) + result.len() <= m0,
                    forall|t: i32| s0.contains(t) ==> result@.contains(t),
                    forall|k2: int| 0 <= k2 < result.len() ==> closure(d, s0).contains(#[trigger] result@[k2]),
                    forall|j: int, k2: int| #![trigger edges@[k2], result@[j]] 0 <= j < i && 0 <= k2 < edges.len() && edges@[k2].0 == result@[j]
                        && edges@[k2].1 == EPSILON_CHR ==> result@.contains(edges@[k2].2),
                    forall|k2: int| #![trigger edges@[k2]] 0 <= k2 < k && edges@[k2].0 == src && edges@[k2].1 == EPSILON_CHR
                        ==> result@.contains(edges@[k2].2),
                decreases edges.len() - k,
            {
                let (a, c, b) = edges[k];
                if a == src && c == EPSILON_CHR && !contains_state(&result, b) {
                    let ghost before = result@;
                    result.push(b);
                    proof {
                        lemma_missing_push(edges@, before, b);
                        assert(edges@[k as int].2 == b);
                        assert forall|x: i32| before.contains(x) implies result@.contains(x) by {
                            lemma_push_contains(before, b, x);
                        };
                        assert(d.contains((src, EPSILON_CHR, b))) by {
                            assert(edges@[k as int] == (src, EPSILON_CHR, b));
                        };
                        assert(closure(d, s0).contains(b)) by {
                            assert forall|x: Set<i32>| s0.subset_of(x) && eps_closed(d, x) implies #[trigger] x.contains(b) by {
                                assert(x.contains(src));
                            };
                        };
                        assert forall|k2: int| 0 <= k2 < result.len() implies closure(d, s0).contains(#[trigger] result@[k2]) by {
                            if k2 < before.len() {
                                assert(result@[k2] == before[k2]);
                            }
                        };
                        lemma_push_contains(before, b, b);
                    }
                }
                assert(edges@[k as int] == (a, c, b));
                k = k + 1;
            }
            i = i + 1;
        }
        proof {
            let rs = result@.to_set();
            assert(s0.subset_of(rs));
            assert(eps_closed(d, rs)) by {
                assert forall|p: i32, q: i32| rs.contains(p) && #[trigger] d.contains((p, EPSILON_CHR, q)) implies rs.contains(q) by {
                    let j = choose|j: int| 0 <= j < result.len() && result@[j] == p;
                    let k = choose|k: int| 0 <= k < edges.len() && edges@[k] == (p, EPSILON_CHR, q);
                    assert(edges@[k].0 == result@[j]);
                };
            };
            assert forall|t: i32| rs.contains(t) <==> closure(d, s0).contains(t) by {
                if rs.contains(t) {
                    let j = choose|j: int| 0 <= j < result.len() && result@[j] == t;
                }
            };
            assert(rs =~= closure(d, s0));
        }
        result
    }

    /// The states reached from `current_states` by one edge on `c`.
    pub fn make_transition(&self, current_states: Vec<i32>, c: char) -> (r: Vec<i32>)
        ensures
            r@.to_set() == step(self.delta@, current_states@.to_set(), c),
    {
        let ghost d = self.delta@;
        let edges = &self.delta.edges;
        let mut result: Vec<i32> = Vec::new();
        let mut k: usize = 0;
        while k < edges.len()
            invariant
                d == edges@.to_set(),
                k <= edges.len(),
                forall|t: i32| result@.contains(t) ==> step(d, current_states@.to_set(), c).contains(t),
                forall|k2: int| #![trigger edges@[k2]] 0 <= k2 < k && edges@[k2].1 == c && current_states@.contains(edges@[k2].0)
                    ==> result@.contains(edges@[k2].2),
            decreases edges.len() - k,
        {
            let (a, sym, b) = edges[k];
            assert(edges@[k as int] == (a, sym, b));
            if sym == c && contains_state(&current_states, a) {
                let ghost before = result@;
                result.push(b);
                proof {
                    assert(d.contains(edges@[k as int]));
                    assert(current_states@.contains(a));
                    assert(current_states@.to_set().contains(a));
                    assert forall|t: i32| result@.contains(t) implies step(d, current_states@.to_set(), c).contains(t) by {
                        lemma_push_contains(before, b, t);
                        if t == b {
                            assert(current_states@.to_set().contains(a) && d.contains((a, c, t)));
                        }
                    };
                    assert forall|x: i32| before.contains(x) implies result@.contains(x) by {
                        lemma_push_contains(before, b, x);
                    };
                    assert(result@.contains(b)) by { lemma_push_contains(before, b, b); };
                }
            }
            k = k + 1;
        }
        proof {
            assert forall|t: i32| result@.to_set().contains(t) <==> step(d, current_states@.to_set(), c).contains(t) by {
                if step(d, current_states@.to_set(), c).contains(t) {
                    let q = choose|q: i32| current_states@.to_set().contains(q) && #[trigger] d.contains((q, c, t));
                    let k2 = choose|k2: int| 0 <= k2 < edges.len() && edges@[k2] == (q, c, t);
                    assert(edges@[k2].1 == c);
                    assert(current_states@.contains(q));
                }
            };
            assert(result@.to_set() =~= step(d, current_states@.to_set(), c));
        }
        result
    }
}

/// The union of the transition tables of `v`.
pub open spec fn deltas_of(v: Seq<NFA>) -> Set<(i32, char, i32)>
    decreases v.len(),
{
    if v.len() == 0 {
        Set::empty()
    } else {
        deltas_of(v.drop_last()).union(v.last().delta@)
    }
}

/// The union of the accepting states of `v`.
pub open spec fn finals_of(v: Seq<NFA>) -> Set<i32>
    decreases v.len(),
{
    if v.len() == 0 {
        Set::empty()
    } else {
        finals_of(v.drop_last()).union(v.last().finals())
    }
}

/// The start states of `v`.
pub open spec fn initials_of(v: Seq<NFA>) -> Set<i32>
    decreases v.len(),
{
    if v.len() == 0 {
        Set::empty()
    } else {
        initials_of(v.drop_last()).insert(v.last().initial_state)
    }
}

impl NFA {
    /// Merges automata into one that starts at `new_fst_state`, with an
    /// epsilon edge from there to each start state: the tables and the
    /// accepting states are united, none renamed.
    pub fn glue_nfas(nfa_vec: Vec<NFA>, new_fst_state: i32) -> (r: NFA)
        ensures
            r.initial_state == new_fst_state,
            r.finals() == finals_of(nfa_vec@),
            r.delta@ == deltas_of(nfa_vec@).union(fan_out(new_fst_state, EPSILON_CHR, initials_of(nfa_vec@))),
    {
        let mut new_delta = Delta::new();
        let mut first_states: Vec<i32> = Vec::new();
        let mut final_states: Vec<i32> = Vec::new();
        let mut i: usize = 0;
        while i < nfa_vec.len()
            invariant
                i <= nfa_vec.len(),
                new_delta@ == deltas_of(nfa_vec@.subrange(0, i as int)),
                first_states@.to_set() == initials_of(nfa_vec@.subrange(0, i as int)),
                final_states@.to_set() == finals_of(nfa_vec@.subrange(0, i as int)),
            decreases nfa_vec.len() - i,
        {
            let nfa = &nfa_vec[i];
            let ghost pre = nfa_vec@.subrange(0, i as int);
            let ghost now = nfa_vec@.subrange(0, i + 1);
            assert(now.drop_last() =~= pre);
            assert(now.last() == nfa_vec@[i as int]);
            let ghost f0 = first_states@;
            first_states.push(nfa.initial_state);
            proof { lemma_push_to_set(f0, nfa.initial_state); }
            append_all(&mut final_states, &nfa.final_states);
            append_all(&mut new_delta.edges, &nfa.delta.edges);
            i = i + 1;
        }
        assert(nfa_vec@.subrange(0, nfa_vec.len() as int) =~= nfa_vec@);
        expand_trans(&mut new_delta, (new_fst_state, EPSILON_CHR), first_states);
        NFA { delta: new_delta, initial_state: new_fst_state, final_states }
    }
}

/// The states reached from `init` after reading the first `i` characters
/// of `w` in the automaton with edges `d`.
pub open spec fn run_from(d: Set<(i32, char, i32)>, init: i32, w: Seq<char>, i: nat) -> Set<i32>
    decreases i,
{
    if i == 0 {
        closure(d, set![init])
    } else {
        closure(d, step(d, run_from(d, init, w, (i - 1) as nat), w[i - 1]))
    }
}

/// Full-string acceptance of `w`.
pub open spec fn accepts_word(d: Set<(i32, char, i32)>, init: i32, fin: Set<i32>, w: Seq<char>) -> bool {
    exists|f: i32| #[trigger] run_from(d, init, w, w.len()).contains(f) && fin.contains(f)
}

/// The edges of the automaton that `glue_nfas(parts, s0)` builds.
pub open spec fn glued_delta(parts: Seq<NFA>, s0: i32) -> Set<(i32, char, i32)> {
    deltas_of(parts).union(fan_out(s0, EPSILON_CHR, initials_of(parts)))
}

proof fn lemma_closure_monotone(d: Set<(i32, char, i32)>, e: Set<(i32, char, i32)>, x: Set<i32>, y: Set<i32>)
    requires
        d.subset_of(e),
        x.subset_of(y),
    ensures
        closure(d, x).subset_of(closure(e, y)),
{
    assert forall|t: i32| closure(d, x).contains(t) implies closure(e, y).contains(t) by {
        assert forall|z: Set<i32>| y.subset_of(z) && eps_closed(e, z) implies #[trigger] z.contains(t) by {
            assert(x.subset_of(z));
            assert(eps_closed(d, z));
        };
    };
}

proof fn lemma_parts_included(parts: Seq<NFA>, k: int)
    requires
        0 <= k < parts.len(),
    ensures
        parts[k].delta@.subset_of(deltas_of(parts)),
        parts[k].finals().subset_of(finals_of(parts)),
        initials_of(parts).contains(parts[k].initial_state),
    decreases parts.len(),
{
    if k < parts.len() - 1 {
        lemma_parts_included(parts.drop_last(), k);
        assert(parts.drop_last()[k] == parts[k]);
    }
}

/// A word that one of the glued automata accepts on its own, the glued
/// automaton accepts too.
proof fn lemma_glue_keeps_words(parts: Seq<NFA>, k: int, s0: i32, w: Seq<char>)
    requires
        0 <= k < parts.len(),
        accepts_word(parts[k].delta@, parts[k].initial_state, parts[k].finals(), w),
    ensures
        accepts_word(glued_delta(parts, s0), s0, finals_of(parts), w),
{
    let p = parts[k];
    let g = glued_delta(parts, s0);
    lemma_parts_included(parts, k);
    assert(p.delta@.subset_of(g));
    // The glued start reaches the part's start by one epsilon edge.
    assert(g.contains((s0, EPSILON_CHR, p.initial_state)));
    assert(closure(g, set![s0]).contains(p.initial_state)) by {
        assert forall|z: Set<i32>| set![s0].subset_of(z) && eps_closed(g, z) implies #[trigger] z.contains(p.initial_state) by {
            assert(z.contains(s0));
        };
    };
    assert forall|i: nat| i <= w.len() implies #[trigger] run_from(p.delta@, p.initial_state, w, i).subset_of(run_from(g, s0, w, i)) by {
        lemma_run_included(p.delta@, g, p.initial_state, s0, w, i);
    };
    let f = choose|f: i32| #[trigger] run_from(p.delta@, p.initial_state, w, w.len()).contains(f) && p.finals().contains(f);
    assert(run_from(p.delta@, p.initial_state, w, w.len()).subset_of(run_from(g, s0, w, w.len())));
    assert(run_from(g, s0, w, w.len()).contains(f));
}

proof fn lemma_run_included(d: Set<(i32, char, i32)>, g: Set<(i32, char, i32)>, a: i32, s0: i32, w: Seq<char>, i: nat)
    requires
        d.subset_of(g),
        closure(g, set![s0]).contains(a),
    ensures
        run_from(d, a, w, i).subset_of(run_from(g, s0, w, i)),
    decreases i,
{
    if i == 0 {
        lemma_closure_monotone(d, g, set![a], closure(g, set![s0]));
        lemma_closure_idempotent(g, set![s0]);
    } else {
        lemma_run_included(d, g, a, s0, w, (i - 1) as nat);
        let x = step(d, run_from(d, a, w, (i - 1) as nat), w[i - 1]);
        let y = step(g, run_from(g, s0, w, (i - 1) as nat), w[i - 1]);
        assert(x.subset_of(y)) by {
            assert forall|t: i32| x.contains(t) implies y.contains(t) by {
                let q = choose|q: i32| run_from(d, a, w, (i - 1) as nat).contains(q) && #[trigger] d.contains((q, w[i - 1], t));
                assert(g.contains((q, w[i - 1], t)));
                assert(run_from(g, s0, w, (i - 1) as nat).contains(q));
            };
        };
        lemma_closure_monotone(d, g, x, y);
    }
}

/// Every state that `p` mentions.
pub open spec fn states_of(p: NFA) -> Set<i32> {
    Set::new(|s: i32| s == p.initial_state || p.finals().contains(s)
        || (exists|c: char, t: i32| #[trigger] p.delta@.contains((s, c, t)))
        || (exists|q: i32, c: char| #[trigger] p.delta@.contains((q, c, s))))
}

/// No two parts share a state, and `s0` is none of theirs.
pub open spec fn apart(parts: Seq<NFA>, s0: i32) -> bool {
    &&& forall|k: int| 0 <= k < parts.len() ==> !(#[trigger] states_of(parts[k])).contains(s0)
    &&& forall|j: int, k: int, t: i32| #![trigger states_of(parts[j]).contains(t), states_of(parts[k]).contains(t)]
        0 <= j < parts.len() && 0 <= k < parts.len()
        && states_of(parts[j]).contains(t) && states_of(parts[k]).contains(t) ==> j == k
}

proof fn lemma_parts_members(parts: Seq<NFA>, e: (i32, char, i32), f: i32, a: i32)
    ensures
        deltas_of(parts).contains(e) ==> exists|j: int| 0 <= j < parts.len() && (#[trigger] parts[j]).delta@.contains(e),
        finals_of(parts).contains(f) ==> exists|j: int| 0 <= j < parts.len() && (#[trigger] parts[j]).finals().contains(f),
        initials_of(parts).contains(a) ==> exists|j: int| 0 <= j < parts.len() && (#[trigger] parts[j]).initial_state == a,
    decreases parts.len(),
{
    if parts.len() > 0 {
        let rest = parts.drop_last();
        lemma_parts_members(rest, e, f, a);
        let last = parts.len() - 1;
        assert(parts[last] == parts.last());
        if deltas_of(rest).contains(e) {
            let j = choose|j: int| 0 <= j < rest.len() && (#[trigger] rest[j]).delta@.contains(e);
            assert(parts[j] == rest[j]);
        }
        if finals_of(rest).contains(f) {
            let j = choose|j: int| 0 <= j < rest.len() && (#[trigger] rest[j]).finals().contains(f);
            assert(parts[j] == rest[j]);
        }
        if initials_of(rest).contains(a) {
            let j = choose|j: int| 0 <= j < rest.len() && (#[trigger] rest[j]).initial_state == a;
            assert(parts[j] == rest[j]);
        }
    }
}

proof fn lemma_closure_closed(d: Set<(i32, char, i32)>, y: Set<i32>)
    ensures
        eps_closed(d, closure(d, y)),
        y.subset_of(closure(d, y)),
{
    let c = closure(d, y);
    assert forall|p: i32, q: i32| c.contains(p) && #[trigger] d.contains((p, EPSILON_CHR, q)) implies c.contains(q) by {
        assert forall|x: Set<i32>| y.subset_of(x) && eps_closed(d, x) implies #[trigger] x.contains(q) by {
            assert(x.contains(p));
        };
    };
    assert forall|t: i32| y.contains(t) implies c.contains(t) by {
        assert forall|x: Set<i32>| y.subset_of(x) && eps_closed(d, x) implies #[trigger] x.contains(t) by {};
    };
}

/// The closure of `y` in `d` lies within any epsilon-closed superset.
proof fn lemma_closure_least(d: Set<(i32, char, i32)>, y: Set<i32>, x: Set<i32>)
    requires
        y.subset_of(x),
        eps_closed(d, x),
    ensures
        closure(d, y).subset_of(x),
{
}

/// A part's runs stay among its own states.
proof fn lemma_run_within(p: NFA, w: Seq<char>, i: nat)
    ensures
        run_from(p.delta@, p.initial_state, w, i).subset_of(states_of(p)),
    decreases i,
{
    let d = p.delta@;
    let st = states_of(p);
    assert(eps_closed(d, st)) by {
        assert forall|a: i32, b: i32| st.contains(a) && #[trigger] d.contains((a, EPSILON_CHR, b)) implies st.contains(b) by {
            assert(exists|q: i32, c: char| #[trigger] d.contains((q, c, b)));
        };
    };
    if i == 0 {
        lemma_closure_least(d, set![p.initial_state], st);
    } else {
        lemma_run_within(p, w, (i - 1) as nat);
        let y = step(d, run_from(d, p.initial_state, w, (i - 1) as nat), w[i - 1]);
        assert(y.subset_of(st)) by {
            assert forall|t: i32| y.contains(t) implies st.contains(t) by {
                let q = choose|q: i32| run_from(d, p.initial_state, w, (i - 1) as nat).contains(q) && #[trigger] d.contains((q, w[i - 1], t));
                assert(exists|q2: i32, c: char| #[trigger] d.contains((q2, c, t)));
            };
        };
        lemma_closure_least(d, y, st);
    }
}

/// The glued start (before any input), or a state some part reaches on
/// the same prefix.
pub open spec fn glued_cover(parts: Seq<NFA>, s0: i32, w: Seq<char>, i: nat) -> Set<i32> {
    Set::new(|t: i32| (i == 0 && t == s0) || exists|k: int| 0 <= k < parts.len()
        && #[trigger] run_from(parts[k].delta@, parts[k].initial_state, w, i).contains(t))
}

proof fn lemma_glued_run_covered(parts: Seq<NFA>, s0: i32, w: Seq<char>, i: nat)
    requires
        apart(parts, s0),
        i <= w.len(),
        !w.contains(EPSILON_CHR),
    ensures
        run_from(glued_delta(parts, s0), s0, w, i).subset_of(glued_cover(parts, s0, w, i)),
    decreases i,
{
    let g = glued_delta(parts, s0);
    let x = glued_cover(parts, s0, w, i);
    // The cover is epsilon-closed in the glued automaton.
    assert(eps_closed(g, x)) by {
        assert forall|a: i32, b: i32| x.contains(a) && #[trigger] g.contains((a, EPSILON_CHR, b)) implies x.contains(b) by {
            lemma_parts_members(parts, (a, EPSILON_CHR, b), 0, b);
            if deltas_of(parts).contains((a, EPSILON_CHR, b)) {
                let j = choose|j: int| 0 <= j < parts.len() && (#[trigger] parts[j]).delta@.contains((a, EPSILON_CHR, b));
                assert(states_of(parts[j]).contains(a)) by {
                    assert(exists|c: char, t: i32| #[trigger] parts[j].delta@.contains((a, c, t)));
                };
                if a == s0 {
                    assert(!states_of(parts[j]).contains(s0));
                } else {
                    let k = choose|k: int| 0 <= k < parts.len()
                        && #[trigger] run_from(parts[k].delta@, parts[k].initial_state, w, i).contains(a);
                    lemma_run_within(parts[k], w, i);
                    assert(states_of(parts[k]).contains(a));
                    assert(j == k);
                    let r = run_from(parts[k].delta@, parts[k].initial_state, w, i);
                    if i == 0 {
                        lemma_closure_closed(parts[k].delta@, set![parts[k].initial_state]);
                    } else {
                        lemma_closure_closed(parts[k].delta@, step(parts[k].delta@,
                            run_from(parts[k].delta@, parts[k].initial_state, w, (i - 1) as nat), w[i - 1]));
                    }
                    assert(r.contains(b));
                }
            } else {
                assert(fan_out(s0, EPSILON_CHR, initials_of(parts)).contains((a, EPSILON_CHR, b)));
                assert(a == s0);
                let k = choose|k: int| 0 <= k < parts.len() && (#[trigger] parts[k]).initial_state == b;
                if i == 0 {
                    lemma_closure_closed(parts[k].delta@, set![b]);
                    assert(run_from(parts[k].delta@, parts[k].initial_state, w, i).contains(b));
                } else {
                    let k2 = choose|k2: int| 0 <= k2 < parts.len()
                        && #[trigger] run_from(parts[k2].delta@, parts[k2].initial_state, w, i).contains(a);
                    lemma_run_within(parts[k2], w, i);
                    assert(states_of(parts[k2]).contains(s0));
                }
            }
        };
    };
    if i == 0 {
        assert(set![s0].subset_of(x));
        lemma_closure_least(g, set![s0], x);
    } else {
        lemma_glued_run_covered(parts, s0, w, (i - 1) as nat);
        let c = w[i - 1];
        assert(c != EPSILON_CHR) by {
            if c == EPSILON_CHR {
                assert(w.contains(EPSILON_CHR));
            }
        };
        let prev = run_from(g, s0, w, (i - 1) as nat);
        let y = step(g, prev, c);
        assert(y.subset_of(x)) by {
            assert forall|t: i32| y.contains(t) implies x.contains(t) by {
                let q = choose|q: i32| prev.contains(q) && #[trigger] g.contains((q, c, t));
                lemma_parts_members(parts, (q, c, t), 0, t);
                assert(deltas_of(parts).contains((q, c, t)));
                let j = choose|j: int| 0 <= j < parts.len() && (#[trigger] parts[j]).delta@.contains((q, c, t));
                assert(states_of(parts[j]).contains(q)) by {
                    assert(exists|c2: char, t2: i32| #[trigger] parts[j].delta@.contains((q, c2, t2)));
                };
                assert(glued_cover(parts, s0, w, (i - 1) as nat).contains(q));
                if q == s0 && i - 1 == 0 {
                    assert(!states_of(parts[j]).contains(s0));
                } else {
                    let k = choose|k: int| 0 <= k < parts.len()
                        && #[trigger] run_from(parts[k].delta@, parts[k].initial_state, w, (i - 1) as nat).contains(q);
                    lemma_run_within(parts[k], w, (i - 1) as nat);
                    assert(j == k);
                    let sk = step(parts[k].delta@, run_from(parts[k].delta@, parts[k].initial_state, w, (i - 1) as nat), c);
                    assert(sk.contains(t));
                    lemma_closure_closed(parts[k].delta@, sk);
                    assert(run_from(parts[k].delta@, parts[k].initial_state, w, i).contains(t));
                }
            };
        };
        lemma_closure_least(g, y, x);
    }
}

/// A word that the glued automaton accepts is accepted by one of the parts,
/// when the parts share no state, the glued start is fresh, and the word
/// holds no epsilon symbol.
proof fn lemma_glue_adds_no_words(parts: Seq<NFA>, s0: i32, w: Seq<char>)
    requires
        apart(parts, s0),
        !w.contains(EPSILON_CHR),
        accepts_word(glued_delta(parts, s0), s0, finals_of(parts), w),
    ensures
        exists|k: int| 0 <= k < parts.len()
            && accepts_word((#[trigger] parts[k]).delta@, parts[k].initial_state, parts[k].finals(), w),
{
    let g = glued_delta(parts, s0);
    let f = choose|f: i32| #[trigger] run_from(g, s0, w, w.len()).contains(f) && finals_of(parts).contains(f);
    lemma_glued_run_covered(parts, s0, w, w.len());
    lemma_parts_members(parts, (0, EPSILON_CHR, 0), f, 0);
    let j = choose|j: int| 0 <= j < parts.len() && (#[trigger] parts[j]).finals().contains(f);
    assert(states_of(parts[j]).contains(f));
    assert(glued_cover(parts, s0, w, w.len()).contains(f));
    if w.len() == 0 && f == s0 {
        assert(!states_of(parts[j]).contains(s0));
    } else {
        let k = choose|k: int| 0 <= k < parts.len()
            && #[trigger] run_from(parts[k].delta@, parts[k].initial_state, w, w.len()).contains(f);
        lemma_run_within(parts[k], w, w.len());
        assert(j == k);
        assert(accepts_word(parts[k].delta@, parts[k].initial_state, parts[k].finals(), w));
    }
}

/// The glued automaton accepts exactly the words that some part accepts,
/// when the parts share no state, the glued start is fresh, and the word
/// holds no epsilon symbol.
pub proof fn lemma_glue_language(parts: Seq<NFA>, s0: i32, w: Seq<char>)
    requires
        apart(parts, s0),
        !w.contains(EPSILON_CHR),
    ensures
        accepts_word(glued_delta(parts, s0), s0, finals_of(parts), w) <==> exists|k: int| 0 <= k < parts.len()
            && accepts_word((#[trigger] parts[k]).delta@, parts[k].initial_state, parts[k].finals(), w),
{
    if accepts_word(glued_delta(parts, s0), s0, finals_of(parts), w) {
        lemma_glue_adds_no_words(parts, s0, w);
    }
    if exists|k: int| 0 <= k < parts.len()
        && accepts_word((#[trigger] parts[k]).delta@, parts[k].initial_state, parts[k].finals(), w) {
        let k = choose|k: int| 0 <= k < parts.len()
            && accepts_word((#[trigger] parts[k]).delta@, parts[k].initial_state, parts[k].finals(), w);
        lemma_glue_keeps_words(parts, k, s0, w);
    }
}

} // verus!
