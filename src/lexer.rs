use vstd::prelude::*;
use crate::nfa::{NFA, closure, deltas_of, finals_of, initials_of, step};
use crate::regex::{
    EPSILON_CHR, NameErrorKind, NameNotFoudError, NamesList, Regex, Rx, fan_out, is_primitive, normalize,
    size, thompson,
};

verus! {

/// Why a lexer could not be built.
#[derive(Clone, Copy, Debug)]
pub enum BuildError {
    /// A pattern names an entry that cannot be resolved.
    Name(NameNotFoudError),
    /// The automaton would need more states than an `i32` can number.
    TooManyStates,
}

/// Collects a name table and an ordered list of patterns, each with the
/// action that turns its matched text into a token.
#[verifier::reject_recursive_types(T)]
pub struct LexerBuilder<T, A: Fn(String) -> T> {
    pub names: NamesList,
    pub patterns: Vec<(Regex, A)>,
    pub token: std::marker::PhantomData<T>,
}

/// The largest number of states an automaton may have.
pub const STATE_LIMIT: u64 = 0x7fff_ffff;

pub open spec fn min_nat(a: nat, b: nat) -> nat {
    if a <= b { a } else { b }
}

/// `size(r@)`, or `STATE_LIMIT + 1` where it is larger.
fn capped_size(r: &Regex) -> (n: u64)
    requires
        is_primitive(r@),
    ensures
        n as nat == min_nat(size(r@), (STATE_LIMIT + 1) as nat),
    decreases r,
{
    match r {
        Regex::Seqn(a, b) => {
            assert(r@ == Rx::Seqn(Box::new(a@), Box::new(b@)));
            let x = capped_size(a);
            let y = capped_size(b);
            let t = x + 1 + y;
            if t > STATE_LIMIT { STATE_LIMIT + 1 } else { t }
        },
        Regex::Or(a, b) => {
            assert(r@ == Rx::Or(Box::new(a@), Box::new(b@)));
            let x = capped_size(a);
            let y = capped_size(b);
            let t = x + y + 3;
            if t > STATE_LIMIT { STATE_LIMIT + 1 } else { t }
        },
        Regex::Star(a) => {
            assert(r@ == Rx::Star(Box::new(a@)));
            let x = capped_size(a);
            let t = x + 2;
            if t > STATE_LIMIT { STATE_LIMIT + 1 } else { t }
        },
        Regex::Epsilon => { assert(r@ == Rx::Epsilon); 1 },
        Regex::Char(c) => { assert(r@ == Rx::Char(*c)); 1 },
        Regex::Chars(cs) => { assert(r@ == Rx::Chars(cs@.to_set())); 1 },
        _ => { assert(!is_primitive(r@)); 1 },
    }
}

/// A built lexer: the merged automaton, one action per pattern in the
/// order the patterns were given, and the binding of each accepting state
/// to the pattern it belongs to.
#[verifier::reject_recursive_types(T)]
pub struct Lexer<T, A: Fn(String) -> T> {
    pub nfa: NFA,
    pub actions: Vec<A>,
    pub bindings: Vec<(i32, usize)>,
    pub token: std::marker::PhantomData<T>,
}

impl<T, A: Fn(String) -> T> Lexer<T, A> {
    /// Each accepting state is bound to exactly one pattern, each binding
    /// names an accepting state and an existing action, and every action
    /// accepts any text.
    pub open spec fn wf(&self) -> bool {
        &&& forall|k: int, s: String| 0 <= k < self.actions.len() ==> #[trigger] self.actions[k].requires((s,))
        &&& forall|b: int| 0 <= b < self.bindings.len() ==> (#[trigger] self.bindings[b]).1 < self.actions.len()
            && self.nfa.finals().contains(self.bindings[b].0)
        &&& forall|f: i32| #[trigger] self.nfa.finals().contains(f) ==> exists|b: int|
            0 <= b < self.bindings.len() && (#[trigger] self.bindings[b]).0 == f
        &&& forall|b1: int, b2: int| 0 <= b1 < self.bindings.len() && 0 <= b2 < self.bindings.len()
            && (#[trigger] self.bindings[b1]).0 == (#[trigger] self.bindings[b2]).0 ==> b1 == b2
    }

    /// The pattern whose accepting state is `f`.
    pub open spec fn pattern_of(&self, f: i32) -> int {
        (choose|b: int| 0 <= b < self.bindings.len() && self.bindings[b].0 == f) as int
    }
}

/// Each pattern of `pats` normalized against `names`.
pub open spec fn normalized<A>(pats: Seq<(Regex, A)>, names: Seq<(&'static str, Regex)>) -> Seq<
    Result<Rx, (NameErrorKind, Seq<char>)>,
> {
    pats.map_values(|p: (Regex, A)| normalize(p.0@, Some(names), Seq::empty()))
}

pub open spec fn normed_ok(rs: Seq<Result<Rx, (NameErrorKind, Seq<char>)>>, v: Seq<Regex>, k: int) -> bool {
    rs[k] is Ok && v[k]@ == rs[k]->Ok_0 && is_primitive(v[k]@)
}

/// Index of the first failure in `rs`; `rs.len()` if there is none.
pub open spec fn first_err(rs: Seq<Result<Rx, (NameErrorKind, Seq<char>)>>, k: int) -> int
    decreases rs.len() - k,
{
    if k < 0 || k >= rs.len() {
        rs.len() as int
    } else if rs[k] is Err {
        k
    } else {
        first_err(rs, k + 1)
    }
}

/// The successful results of `rs`.
pub open spec fn oks(rs: Seq<Result<Rx, (NameErrorKind, Seq<char>)>>) -> Seq<Rx> {
    rs.map_values(|r: Result<Rx, (NameErrorKind, Seq<char>)>| r->Ok_0)
}

/// The first state of pattern `k`: every pattern takes a start state and
/// `size` states of its own, numbered on from the previous one.
pub open spec fn offset(ns: Seq<Rx>, k: int) -> int
    decreases k,
{
    if k <= 0 {
        0
    } else {
        offset(ns, k - 1) + 1 + size(ns[k - 1])
    }
}

/// The edges of the first `k` patterns.
pub open spec fn pattern_edges(ns: Seq<Rx>, k: int) -> Set<(i32, char, i32)>
    decreases k,
{
    if k <= 0 {
        Set::empty()
    } else {
        pattern_edges(ns, k - 1).union(thompson(ns[k - 1], offset(ns, k - 1), offset(ns, k - 1) + 1))
    }
}

/// The start states of the first `k` patterns.
pub open spec fn pattern_starts(ns: Seq<Rx>, k: int) -> Set<i32>
    decreases k,
{
    if k <= 0 {
        Set::empty()
    } else {
        pattern_starts(ns, k - 1).insert(offset(ns, k - 1) as i32)
    }
}

/// The accepting states of the first `k` patterns: the last state of each.
pub open spec fn pattern_exits(ns: Seq<Rx>, k: int) -> Set<i32>
    decreases k,
{
    if k <= 0 {
        Set::empty()
    } else {
        pattern_exits(ns, k - 1).insert((offset(ns, k) - 1) as i32)
    }
}

proof fn lemma_offset_grows(ns: Seq<Rx>, j: int, k: int)
    requires
        0 <= j <= k,
    ensures
        offset(ns, j) + (k - j) <= offset(ns, k),
    decreases k - j,
{
    if j < k {
        lemma_offset_grows(ns, j, k - 1);
    }
}

pub open spec fn exit_of(ns: Seq<Rx>, j: int) -> i32 {
    (offset(ns, j + 1) - 1) as i32
}

proof fn lemma_exits_members(ns: Seq<Rx>, k: int, f: i32)
    requires
        0 <= k,
    ensures
        pattern_exits(ns, k).contains(f) <==> exists|j: int| 0 <= j < k && f == #[trigger] exit_of(ns, j),
    decreases k,
{
    if k > 0 {
        lemma_exits_members(ns, k - 1, f);
        let last = k - 1;
        assert(last + 1 == k);
        assert(exit_of(ns, last) == (offset(ns, k) - 1) as i32);
        if pattern_exits(ns, k).contains(f) {
            if f == exit_of(ns, last) {
                assert(0 <= last < k);
            } else {
                let j = choose|j: int| 0 <= j < k - 1 && f == #[trigger] exit_of(ns, j);
                assert(0 <= j < k);
            }
        }
        if exists|j: int| 0 <= j < k && f == #[trigger] exit_of(ns, j) {
            let j = choose|j: int| 0 <= j < k && f == #[trigger] exit_of(ns, j);
            if j < k - 1 {
                assert(pattern_exits(ns, k - 1).contains(f));
            }
        }
    }
}

/// What building from `names` and `pats` yields: the first name that
/// cannot be resolved; else too many states; else a well-formed lexer whose
/// automaton unites each pattern's Thompson automaton, numbered in order.
pub open spec fn build_result<T, A: Fn(String) -> T>(
    r: Result<Lexer<T, A>, BuildError>,
    names: Seq<(&'static str, Regex)>,
    pats: Seq<(Regex, A)>,
) -> bool {
        let rs = normalized(pats, names);
        let ns = oks(rs);
        let n = pats.len() as int;
        match r {
            Err(BuildError::Name(e)) => first_err(rs, 0) < n
                && rs[first_err(rs, 0)] == Err::<Rx, (NameErrorKind, Seq<char>)>((e.kind, e.name@)),
            Err(BuildError::TooManyStates) => first_err(rs, 0) == n && offset(ns, n) > STATE_LIMIT,
            Ok(lx) => first_err(rs, 0) == n && offset(ns, n) <= STATE_LIMIT
                && lx.wf()
                && lx.actions@ == pats.map_values(|p: (Regex, A)| p.1)
                && lx.nfa.initial_state == offset(ns, n)
                && lx.nfa.delta@ == pattern_edges(ns, n).union(
                    fan_out(offset(ns, n) as i32, EPSILON_CHR, pattern_starts(ns, n)))
                && lx.nfa.finals() == pattern_exits(ns, n)
                && (forall|k: int| 0 <= k < n ==> #[trigger] lx.bindings@[k]
                    == ((offset(ns, k + 1) - 1) as i32, k as usize))
                && lx.bindings.len() == n,
        }
}

impl<T, A: Fn(String) -> T> Lexer<T, A> {
    /// Normalizes every pattern against `abbreviations`, compiles them in
    /// order with one shared state counter, and merges them under a fresh
    /// start state. Pattern `k`'s accepting state is bound to action `k`.
    pub fn new(abbreviations: NamesList, patterns: Vec<(Regex, A)>) -> (r: Result<Lexer<T, A>, BuildError>)
        requires
            forall|k: int, s: String| 0 <= k < patterns.len() ==> #[trigger] patterns[k].1.requires((s,)),
        ensures
            build_result(r, abbreviations@, patterns@),
    {
        let ghost rs = normalized(patterns@, abbreviations@);
        let ghost ns = oks(rs);
        let ghost n = patterns.len() as int;
        // Normalize every pattern.
        let mut normed: Vec<Regex> = Vec::new();
        let mut i: usize = 0;
        while i < patterns.len()
            invariant
                i <= patterns.len(),
                rs == normalized(patterns@, abbreviations@),
                ns == oks(rs),
                n == patterns.len(),
                rs.len() == patterns.len(),
                normed.len() == i,
                forall|k: int| 0 <= k < normed.len() ==> #[trigger] normed_ok(rs, normed@, k),
                first_err(rs, 0) == first_err(rs, i as int),
            decreases patterns.len() - i,
        {
            let res = patterns[i].0.to_regular(Some(&abbreviations));
            assert(rs[i as int] == normalize(patterns@[i as int].0@, Some(abbreviations@), Seq::empty()));
            let x = match res {
                Ok(x) => x,
                Err(e) => {
                    return Err(BuildError::Name(e));
                },
            };
            let ghost v0 = normed@;
            normed.push(x);
            proof {
                assert(rs[i as int] is Ok);
                assert(normed@[i as int]@ == rs[i as int]->Ok_0);
                assert forall|q: int| 0 <= q < normed.len() implies #[trigger] normed_ok(rs, normed@, q) by {
                    if q < i {
                        assert(normed@[q] == v0[q]);
                        assert(normed_ok(rs, v0, q));
                    }
                };
                assert(first_err(rs, i as int) == first_err(rs, i + 1));
            }
            i = i + 1;
        }
        assert(first_err(rs, 0) == n);
        assert(rs.len() == n);
        assert(ns.len() == n);
        assert(forall|k: int| 0 <= k < n ==> (#[trigger] normed@[k])@ == ns[k] && is_primitive(normed@[k]@)) by {
            assert forall|k: int| 0 <= k < n implies (#[trigger] normed@[k])@ == ns[k] && is_primitive(normed@[k]@) by {
                assert(normed_ok(rs, normed@, k));
            };
        };
        // Count the states needed.
        let mut total: u64 = 0;
        let mut j: usize = 0;
        while j < normed.len()
            invariant
                j <= normed.len(),
                normed.len() == n,
                rs == normalized(patterns@, abbreviations@),
                n == patterns.len(),
                rs.len() == n,
                ns == oks(rs),
                first_err(rs, 0) == n,
                forall|k: int| 0 <= k < n ==> (#[trigger] normed@[k])@ == ns[k] && is_primitive(normed@[k]@),
                total == offset(ns, j as int),
                total <= STATE_LIMIT,
            decreases normed.len() - j,
        {
            assert(ns[j as int] == rs[j as int]->Ok_0);
            assert(normed@[j as int]@ == ns[j as int]);
            let c = capped_size(&normed[j]);
            assert(offset(ns, j + 1) == offset(ns, j as int) + 1 + size(ns[j as int]));
            if total + 1 + c > STATE_LIMIT {
                proof {
                    lemma_offset_grows(ns, j + 1, n);
                    assert(c as nat == min_nat(size(ns[j as int]), (STATE_LIMIT + 1) as nat));
                    assert(offset(ns, j + 1) == offset(ns, j as int) + 1 + size(ns[j as int]));
                    assert(offset(ns, j + 1) > STATE_LIMIT);
                    assert(offset(ns, n) > STATE_LIMIT);
                }
                return Err(BuildError::TooManyStates);
            }
            total = total + 1 + c;
            j = j + 1;
        }
        // Compile each pattern and bind its accepting state to its action.
        let ghost pats = patterns@;
        let mut rest = patterns;
        let mut counter: i32 = 0;
        let mut nfa_vec: Vec<NFA> = Vec::new();
        let mut actions: Vec<A> = Vec::new();
        let mut bindings: Vec<(i32, usize)> = Vec::new();
        let mut k: usize = 0;
        while k < normed.len()
            invariant
                k <= normed.len(),
                normed.len() == n,
                rs == normalized(patterns@, abbreviations@),
                pats == patterns@,
                n == patterns.len(),
                rs.len() == n,
                ns == oks(rs),
                first_err(rs, 0) == n,
                pats.len() == n,
                forall|q: int| 0 <= q < n ==> (#[trigger] normed@[q])@ == ns[q] && is_primitive(normed@[q]@),
                offset(ns, n) <= STATE_LIMIT,
                counter == offset(ns, k as int),
                rest@ == pats.subrange(k as int, n),
                actions@ == pats.subrange(0, k as int).map_values(|p: (Regex, A)| p.1),
                bindings.len() == k,
                forall|q: int| 0 <= q < k ==> #[trigger] bindings@[q] == ((offset(ns, q + 1) - 1) as i32, q as usize),
                deltas_of(nfa_vec@) == pattern_edges(ns, k as int),
                initials_of(nfa_vec@) == pattern_starts(ns, k as int),
                finals_of(nfa_vec@) == pattern_exits(ns, k as int),
            decreases normed.len() - k,
        {
            proof {
                lemma_offset_grows(ns, k + 1, n);
                lemma_offset_grows(ns, 0, k as int);
            }
            let nfa = normed[k].to_nfa(&mut counter);
            let ghost v0 = nfa_vec@;
            nfa_vec.push(nfa);
            proof {
                assert(nfa_vec@.drop_last() =~= v0);
                assert(nfa.final_states@.to_set() =~= set![(offset(ns, k + 1) - 1) as i32]) by {
                    assert(nfa.final_states@[0] == (offset(ns, k + 1) - 1) as i32);
                };
                assert(pattern_exits(ns, k + 1) =~= pattern_exits(ns, k as int).union(set![(offset(ns, k + 1) - 1) as i32]));
            }
            let (_, act) = rest.remove(0);
            let ghost a0 = actions@;
            actions.push(act);
            proof {
                assert(pats.subrange(0, k + 1).map_values(|p: (Regex, A)| p.1) =~= a0.push(pats[k as int].1));
                assert(rest@ =~= pats.subrange(k + 1, n));
            }
            bindings.push((counter - 1, k));
            k = k + 1;
        }
        assert(pats.subrange(0, n) =~= pats);
        let nfa = NFA::glue_nfas(nfa_vec, counter);
        let lx = Lexer { nfa, actions, bindings, token: std::marker::PhantomData };
        proof {
            assert forall|f: i32| #[trigger] lx.nfa.finals().contains(f) implies exists|b: int|
                0 <= b < lx.bindings.len() && (#[trigger] lx.bindings[b]).0 == f by {
                lemma_exits_members(ns, n, f);
                let j = choose|j: int| 0 <= j < n && f == #[trigger] exit_of(ns, j);
                assert(lx.bindings[j].0 == f);
            };
            assert forall|b: int| 0 <= b < lx.bindings.len() implies (#[trigger] lx.bindings[b]).1 < lx.actions.len()
                && lx.nfa.finals().contains(lx.bindings[b].0) by {
                lemma_exits_members(ns, n, lx.bindings[b].0);
                assert(lx.bindings[b] == ((offset(ns, b + 1) - 1) as i32, b as usize));
                assert(lx.bindings[b].0 == exit_of(ns, b));
            };
            assert forall|b1: int, b2: int| 0 <= b1 < lx.bindings.len() && 0 <= b2 < lx.bindings.len()
                && (#[trigger] lx.bindings[b1]).0 == (#[trigger] lx.bindings[b2]).0 implies b1 == b2 by {
                if b1 < b2 {
                    lemma_offset_grows(ns, b1 + 1, b2 + 1);
                    lemma_offset_grows(ns, b2 + 1, n);
                    lemma_offset_grows(ns, 0, b1 + 1);
                } else if b2 < b1 {
                    lemma_offset_grows(ns, b2 + 1, b1 + 1);
                    lemma_offset_grows(ns, b1 + 1, n);
                    lemma_offset_grows(ns, 0, b2 + 1);
                }
            };
            assert forall|q: int, s: String| 0 <= q < lx.actions.len() implies #[trigger] lx.actions[q].requires((s,)) by {
                assert(lx.actions[q] == pats[q].1);
            };
        }
        Ok(lx)
    }
}

/// No pattern matches a non-empty prefix of the text at `position`.
#[derive(Clone, Copy, Debug)]
pub struct LexemeNotRecognisedErr {
    pub position: usize,
}

/// One scan over a text: the characters and the place where the next token
/// attempt begins.
#[verifier::reject_recursive_types(T)]
pub struct LexemeStream<'a, T, A: Fn(String) -> T> {
    pub lexer: &'a Lexer<T, A>,
    pub text_chars: Vec<char>,
    pub next_tok_start_idx: usize,
}

/// The states the automaton can be in after reading `text[start..j]`.
pub open spec fn run(nfa: NFA, text: Seq<char>, start: int, j: int) -> Set<i32>
    decreases j - start,
{
    if j <= start {
        closure(nfa.delta@, set![nfa.initial_state])
    } else {
        closure(nfa.delta@, step(nfa.delta@, run(nfa, text, start, j - 1), text[j - 1]))
    }
}

/// True when `text[start..=e]` leads to an accepting state.
pub open spec fn accepts_at(nfa: NFA, text: Seq<char>, start: int, e: int) -> bool {
    exists|f: i32| #[trigger] run(nfa, text, start, e + 1).contains(f) && nfa.finals().contains(f)
}

/// The last index `e < j` at which `text[start..=e]` is accepted; -1 if none.
pub open spec fn last_accept(nfa: NFA, text: Seq<char>, start: int, j: int) -> int
    decreases j - start,
{
    if j <= start {
        -1
    } else if accepts_at(nfa, text, start, j - 1) {
        j - 1
    } else {
        last_accept(nfa, text, start, j - 1)
    }
}

/// The smallest accepting state in `s`.
pub open spec fn min_final(nfa: NFA, s: Set<i32>) -> i32 {
    choose|m: i32| s.contains(m) && nfa.finals().contains(m)
        && forall|g: i32| s.contains(g) && nfa.finals().contains(g) ==> m <= g
}

/// What one token attempt at `start` yields.
pub enum Outcome {
    /// No character is left to start a token.
    End,
    /// The longest accepted prefix ends at `end` (inclusive) and belongs to
    /// pattern `pattern`.
    Token { end: int, pattern: int },
    /// No non-empty prefix is accepted.
    Failure,
}

/// The longest-match outcome at `start`: the longest accepted prefix wins,
/// and among the accepting states it reaches, the smallest one picks the
/// pattern.
pub open spec fn scan_outcome<T, A: Fn(String) -> T>(lx: Lexer<T, A>, text: Seq<char>, start: int) -> Outcome {
    if start >= text.len() {
        Outcome::End
    } else {
        let e = last_accept(lx.nfa, text, start, text.len() as int);
        if e < start {
            Outcome::Failure
        } else {
            Outcome::Token {
                end: e,
                pattern: lx.bindings[lx.pattern_of(min_final(lx.nfa, run(lx.nfa, text, start, e + 1)))].1 as int,
            }
        }
    }
}

proof fn lemma_last_accept_range(nfa: NFA, text: Seq<char>, start: int, j: int)
    ensures
        last_accept(nfa, text, start, j) == -1 || (start <= last_accept(nfa, text, start, j) < j
            && accepts_at(nfa, text, start, last_accept(nfa, text, start, j))),
    decreases j - start,
{
    if j > start && !accepts_at(nfa, text, start, j - 1) {
        lemma_last_accept_range(nfa, text, start, j - 1);
    }
}

/// Past a point where no state is left, no prefix is accepted any more.
proof fn lemma_stuck_stays(nfa: NFA, text: Seq<char>, start: int, j: int, k: int)
    requires
        start <= j <= k,
        run(nfa, text, start, j).is_empty(),
    ensures
        run(nfa, text, start, k).is_empty(),
    decreases k - j,
{
    if j < k {
        lemma_stuck_stays(nfa, text, start, j, k - 1);
        let d = nfa.delta@;
        let prev = run(nfa, text, start, k - 1);
        assert(step(d, prev, text[k - 1]) =~= Set::<i32>::empty());
        let e = Set::<i32>::empty();
        assert(crate::nfa::eps_closed(d, e));
        assert(closure(d, e) =~= e) by {
            assert forall|t: i32| closure(d, e).contains(t) implies e.contains(t) by {
                assert(e.subset_of(e));
            };
        };
    }
}

proof fn lemma_last_accept_skip(nfa: NFA, text: Seq<char>, start: int, lo: int, hi: int)
    requires
        start <= lo <= hi,
        forall|e: int| lo <= e < hi ==> !#[trigger] accepts_at(nfa, text, start, e),
    ensures
        last_accept(nfa, text, start, hi) == last_accept(nfa, text, start, lo),
    decreases hi - lo,
{
    if lo < hi {
        assert(!accepts_at(nfa, text, start, hi - 1));
        lemma_last_accept_skip(nfa, text, start, lo, hi - 1);
    }
}

/// Relies on String::push: appends one character to the string.
#[verifier::external_body]
fn push_char(s: &mut String, c: char)
    ensures
        final(s)@ == old(s)@.push(c),
{
    s.push(c)
}

fn copy_states(v: &Vec<i32>) -> (r: Vec<i32>)
    ensures
        r@ == v@,
{
    let mut out: Vec<i32> = Vec::new();
    let mut i: usize = 0;
    while i < v.len()
        invariant
            i <= v.len(),
            out@ == v@.subrange(0, i as int),
        decreases v.len() - i,
    {
        out.push(v[i]);
        i = i + 1;
        assert(out@ =~= v@.subrange(0, i as int));
    }
    assert(v@.subrange(0, v.len() as int) =~= v@);
    out
}

/// The smallest accepting state among `states`, if any.
fn min_final_in(nfa: &NFA, states: &Vec<i32>) -> (r: Option<i32>)
    ensures
        match r {
            None => forall|s: i32| states@.contains(s) ==> !nfa.finals().contains(s),
            Some(m) => states@.contains(m) && nfa.finals().contains(m) && forall|g: i32|
                states@.contains(g) && nfa.finals().contains(g) ==> m <= g,
        },
{
    let mut best: Option<i32> = None;
    let mut i: usize = 0;
    while i < states.len()
        invariant
            i <= states.len(),
            match best {
                None => forall|k: int| 0 <= k < i ==> !nfa.finals().contains(#[trigger] states@[k]),
                Some(m) => states@.contains(m) && nfa.finals().contains(m) && forall|k: int|
                    0 <= k < i && nfa.finals().contains(#[trigger] states@[k]) ==> m <= states@[k],
            },
        decreases states.len() - i,
    {
        let s = states[i];
        let mut fin = false;
        let mut q: usize = 0;
        while q < nfa.final_states.len()
            invariant
                q <= nfa.final_states.len(),
                fin == (exists|k: int| 0 <= k < q && #[trigger] nfa.final_states@[k] == s),
            decreases nfa.final_states.len() - q,
        {
            if nfa.final_states[q] == s {
                fin = true;
            }
            q = q + 1;
        }
        assert(fin == nfa.finals().contains(s));
        if fin {
            match best {
                None => { best = Some(s); },
                Some(m) => { if s < m { best = Some(s); } },
            }
        }
        i = i + 1;
    }
    proof {
        match best {
            None => {
                assert forall|s: i32| states@.contains(s) implies !nfa.finals().contains(s) by {
                    if states@.contains(s) {
                        let k = choose|k: int| 0 <= k < states.len() && states@[k] == s;
                    }
                };
            },
            Some(m) => {
                assert forall|g: i32| states@.contains(g) && nfa.finals().contains(g) implies m <= g by {
                    let k = choose|k: int| 0 <= k < states.len() && states@[k] == g;
                };
            },
        }
    }
    best
}

impl<'a, T, A: Fn(String) -> T> LexemeStream<'a, T, A> {
    /// Scans the next token. At the end of the text: `None`, cursor kept.
    /// Otherwise the longest non-empty prefix at the cursor that some
    /// pattern accepts is handed to that pattern's action, and the cursor
    /// moves past it; where none is accepted, an error at the cursor and
    /// the cursor moves on by one character.
    pub fn get_next_token(&mut self) -> (r: Option<Result<T, LexemeNotRecognisedErr>>)
        requires
            old(self).lexer.wf(),
        ensures
            final(self).lexer == old(self).lexer,
            final(self).text_chars@ == old(self).text_chars@,
            ({
                let lx = *old(self).lexer;
                let text = old(self).text_chars@;
                let start = old(self).next_tok_start_idx as int;
                match scan_outcome(lx, text, start) {
                    Outcome::End => r is None && final(self).next_tok_start_idx == start,
                    Outcome::Failure => final(self).next_tok_start_idx == start + 1
                        && (r matches Some(Err(err)) && err.position == start),
                    Outcome::Token { end, pattern } => final(self).next_tok_start_idx == end + 1
                        && 0 <= pattern < lx.actions.len()
                        && (r matches Some(Ok(tok)) && exists|s: String| s@ == text.subrange(start, end + 1)
                            && call_ensures(lx.actions[pattern], (s,), tok)),
                }
            }),
    {
        let ghost lx = *self.lexer;
        let ghost text = self.text_chars@;
        let start = self.next_tok_start_idx;
        assert(lx == *old(self).lexer && text == old(self).text_chars@ && start == old(self).next_tok_start_idx);
        let len = self.text_chars.len();
        if start >= len {
            return None;
        }
        let ghost gs = start as int;
        let nfa = &self.lexer.nfa;
        let ghost gn = *nfa;
        assert(gn == self.lexer.nfa);
        let mut current = nfa.epsilon_closure(vec![nfa.initial_state]);
        proof {
            assert(seq![nfa.initial_state].to_set() =~= set![nfa.initial_state]) by {
                assert(seq![nfa.initial_state][0] == nfa.initial_state);
            };
        }
        // history[h] holds the states after reading text[start..=start + h].
        let mut history: Vec<Vec<i32>> = Vec::new();
        let mut idx: usize = start;
        let mut stuck = false;
        while idx < len && !stuck
            invariant
                self.lexer == old(self).lexer,
                self.text_chars@ == old(self).text_chars@,
                self.next_tok_start_idx == start,
                gs == start as int,
                lx == *self.lexer,
                gn == self.lexer.nfa,
                lx == *old(self).lexer,
                text == old(self).text_chars@,
                start == old(self).next_tok_start_idx,
                gn == *nfa,
                text == self.text_chars@,
                len == text.len(),
                start <= idx <= len,
                history.len() == idx - start,
                current@.to_set() == run(gn, text, gs, idx as int),
                forall|h: int| 0 <= h < history.len() ==> (#[trigger] history@[h])@.to_set() == run(gn, text, gs, gs + h + 1),
                stuck ==> history.len() > 0 && run(gn, text, gs, idx as int).is_empty(),
            decreases len - idx + (if stuck { 0int } else { 1int }),
        {
            let moved = nfa.make_transition(current, self.text_chars[idx]);
            let reached = nfa.epsilon_closure(moved);
            let ghost hist0 = history@;
            history.push(copy_states(&reached));
            proof {
                let j: int = idx + 1;
                assert(j - 1 == idx as int);
                assert(run(gn, text, gs, j) == closure(gn.delta@, step(gn.delta@, run(gn, text, gs, j - 1), text[j - 1])));
                assert(history@[hist0.len() as int]@ == reached@);
                assert(gs + hist0.len() + 1 == j);
                assert forall|h: int| 0 <= h < history.len() implies (#[trigger] history@[h])@.to_set() == run(gn, text, gs, gs + h + 1) by {
                    if h < hist0.len() {
                        assert(history@[h] == hist0[h]);
                    }
                };
            }
            if reached.len() == 0 {
                stuck = true;
                proof {
                    assert(reached@.to_set() =~= Set::<i32>::empty());
                }
            }
            current = reached;
            idx = idx + 1;
        }
        let hlen = history.len();
        proof {
            // Nothing past the walked prefix can be accepted.
            assert forall|e: int| gs + hlen <= e < len implies !#[trigger] accepts_at(gn, text, gs, e) by {
                if stuck {
                    lemma_stuck_stays(gn, text, gs, idx as int, e + 1);
                }
            };
            lemma_last_accept_skip(gn, text, gs, gs + hlen, len as int);
        }
        let mut h: usize = hlen;
        while h > 0
            invariant
                self.lexer == old(self).lexer,
                self.text_chars@ == old(self).text_chars@,
                self.next_tok_start_idx == start,
                gs == start as int,
                lx == *self.lexer,
                gn == self.lexer.nfa,
                lx == *old(self).lexer,
                text == old(self).text_chars@,
                start == old(self).next_tok_start_idx,
                gn == *nfa,
                text == self.text_chars@,
                len == text.len(),
                self.lexer.wf(),
                h <= hlen,
                hlen == history.len(),
                start + hlen <= len,
                forall|q: int| 0 <= q < history.len() ==> (#[trigger] history@[q])@.to_set() == run(gn, text, gs, gs + q + 1),
                last_accept(gn, text, gs, len as int) == last_accept(gn, text, gs, gs + h),
            decreases h,
        {
            let states = &history[h - 1];
            match min_final_in(nfa, states) {
                Some(m) => {
                    let e = start + h - 1;
                    proof {
                        let q: int = h - 1;
                        assert(*states == history@[q]);
                        assert(gs + q + 1 == e + 1);
                        assert(states@.to_set() == run(gn, text, gs, e + 1));
                        assert(states@.to_set().contains(m));
                        assert(accepts_at(gn, text, gs, e as int));
                        let j: int = gs + h;
                        assert(j - 1 == e as int);
                        assert(accepts_at(gn, text, gs, j - 1));
                        assert(last_accept(gn, text, gs, j) == e);
                        assert(min_final(gn, run(gn, text, gs, e + 1)) == m) by {
                            let c = min_final(gn, run(gn, text, gs, e + 1));
                            assert(run(gn, text, gs, e + 1).contains(m));
                            assert(forall|g: i32| run(gn, text, gs, e + 1).contains(g) && gn.finals().contains(g) ==> states@.contains(g));
                            assert(c <= m && m <= c);
                        };
                    }
                    // Find the pattern of the accepting state.
                    let mut b: usize = 0;
                    while b < self.lexer.bindings.len() && self.lexer.bindings[b].0 != m
                        invariant
                            self.lexer == old(self).lexer,
                            self.text_chars@ == old(self).text_chars@,
                            self.next_tok_start_idx == start,
                            gs == start as int,
                            lx == *self.lexer,
                            gn == self.lexer.nfa,
                lx == *old(self).lexer,
                text == old(self).text_chars@,
                start == old(self).next_tok_start_idx,
                            b <= self.lexer.bindings.len(),
                            forall|b2: int| 0 <= b2 < b ==> (#[trigger] self.lexer.bindings@[b2]).0 != m,
                        decreases self.lexer.bindings.len() - b,
                    {
                        b = b + 1;
                    }
                    proof {
                        assert(gn.finals().contains(m));
                        let w = choose|w: int| 0 <= w < self.lexer.bindings.len() && (#[trigger] self.lexer.bindings[w]).0 == m;
                        assert(self.lexer.bindings@[w].0 == m);
                    }
                    let k = self.lexer.bindings[b].1;
                    proof {
                        let p = lx.pattern_of(m);
                        assert(lx.bindings[p].0 == m);
                        assert(p == b);
                    }
                    let mut tok_str = String::new();
                    let mut c: usize = start;
                    while c <= e
                        invariant
                            self.lexer == old(self).lexer,
                            self.text_chars@ == old(self).text_chars@,
                            self.next_tok_start_idx == start,
                            gs == start as int,
                            lx == *self.lexer,
                            lx == *old(self).lexer,
                            text == old(self).text_chars@,
                            start == old(self).next_tok_start_idx,
                            start <= c <= e + 1,
                            e < len,
                            len == self.text_chars.len(),
                            tok_str@ == self.text_chars@.subrange(start as int, c as int),
                        decreases e + 1 - c,
                    {
                        push_char(&mut tok_str, self.text_chars[c]);
                        c = c + 1;
                        assert(tok_str@ =~= self.text_chars@.subrange(start as int, c as int));
                    }
                    self.next_tok_start_idx = e + 1;
                    let act = &self.lexer.actions[k];
                    let ghost arg = tok_str;
                    let tok = act(tok_str);
                    proof {
                        assert(arg@ == text.subrange(gs, e + 1));
                        assert(last_accept(gn, text, gs, len as int) == e);
                        assert(scan_outcome(lx, text, gs) == Outcome::Token { end: e as int, pattern: k as int });
                        assert(scan_outcome(*old(self).lexer, old(self).text_chars@, old(self).next_tok_start_idx as int)
                            == Outcome::Token { end: e as int, pattern: k as int });
                        assert(call_ensures(lx.actions[k as int], (arg,), tok));
                        assert(lx.bindings[b as int].1 < lx.actions.len());
                        assert(exists|s: String| s@ == text.subrange(gs, e + 1) && call_ensures(lx.actions[k as int], (s,), tok));
                    }
                    return Some(Ok(tok));
                },
                None => {
                    proof {
                        let e = gs + h - 1;
                        let q: int = h - 1;
                        assert(*states == history@[q]);
                        assert(gs + q + 1 == e + 1);
                        assert(history@[q]@.to_set() == run(gn, text, gs, e + 1));
                        assert(!accepts_at(gn, text, gs, e)) by {
                            if accepts_at(gn, text, gs, e) {
                                let f = choose|f: i32| #[trigger] run(gn, text, gs, e + 1).contains(f) && gn.finals().contains(f);
                                assert(states@.to_set().contains(f));
                            }
                        };
                        let j: int = gs + h;
                        assert(j - 1 == e);
                        assert(last_accept(gn, text, gs, j) == last_accept(gn, text, gs, j - 1));
                    }
                },
            }
            h = h - 1;
        }
        self.next_tok_start_idx = start + 1;
        Some(Err(LexemeNotRecognisedErr { position: start }))
    }
}

impl<T, A: Fn(String) -> T> LexerBuilder<T, A> {
    pub open spec fn names_view(&self) -> Seq<(&'static str, Regex)> {
        self.names@
    }

    pub open spec fn patterns_view(&self) -> Seq<(Regex, A)> {
        self.patterns@
    }

    pub fn new(abbreviations: NamesList, patterns: Vec<(Regex, A)>) -> (r: Self)
        ensures
            r.names_view() == abbreviations@,
            r.patterns_view() == patterns@,
    {
        LexerBuilder { names: abbreviations, patterns, token: std::marker::PhantomData }
    }

    pub fn from_names(abbreviations: NamesList) -> (r: Self)
        ensures
            r.names_view() == abbreviations@,
            r.patterns_view() == Seq::<(Regex, A)>::empty(),
    {
        LexerBuilder { names: abbreviations, patterns: Vec::new(), token: std::marker::PhantomData }
    }

    /// Appends a pattern; patterns registered earlier win ties.
    pub fn add_pattern(self, reg: Regex, func: A) -> (r: Self)
        ensures
            r.names_view() == self.names_view(),
            r.patterns_view() == self.patterns_view().push((reg, func)),
    {
        let mut b = self;
        b.patterns.push((reg, func));
        b
    }

    pub fn build(self) -> (r: Result<Lexer<T, A>, BuildError>)
        requires
            forall|k: int, s: String| 0 <= k < self.patterns_view().len()
                ==> #[trigger] self.patterns_view()[k].1.requires((s,)),
        ensures
            build_result(r, self.names_view(), self.patterns_view()),
    {
        Lexer::new(self.names, self.patterns)
    }
}

impl<T, A: Fn(String) -> T> Lexer<T, A> {
    /// A scan over `text`, starting at its first character.
    pub fn lexemes(&self, text: &str) -> (r: LexemeStream<'_, T, A>)
        ensures
            *r.lexer == *self,
            r.text_chars@ == text@,
            r.next_tok_start_idx == 0,
    {
        let n = text.unicode_len();
        let mut chars: Vec<char> = Vec::new();
        let mut i: usize = 0;
        while i < n
            invariant
                n == text@.len(),
                i <= n,
                chars@ == text@.subrange(0, i as int),
            decreases n - i,
        {
            chars.push(text.get_char(i));
            i = i + 1;
            assert(chars@ =~= text@.subrange(0, i as int));
        }
        assert(text@.subrange(0, n as int) =~= text@);
        LexemeStream { lexer: self, text_chars: chars, next_tok_start_idx: 0 }
    }
}

/// Where the cursor stands after `o` at `start`.
pub open spec fn next_cursor(o: Outcome, start: int) -> int {
    match o {
        Outcome::End => start,
        Outcome::Failure => start + 1,
        Outcome::Token { end, .. } => end + 1,
    }
}

/// The first `n` outcomes of a scan of `text` from `start`.
pub open spec fn outcomes<T, A: Fn(String) -> T>(lx: Lexer<T, A>, text: Seq<char>, start: int, n: nat) -> Seq<Outcome>
    decreases n,
{
    if n == 0 {
        Seq::empty()
    } else {
        let o = scan_outcome(lx, text, start);
        seq![o] + outcomes(lx, text, next_cursor(o, start), (n - 1) as nat)
    }
}

/// Two scans of one text by one lexer, from the same place, yield the same
/// outcomes in the same order.
pub proof fn lemma_scans_agree<T, A: Fn(String) -> T>(a: LexemeStream<T, A>, b: LexemeStream<T, A>, n: nat)
    requires
        *a.lexer == *b.lexer,
        a.text_chars@ == b.text_chars@,
        a.next_tok_start_idx == b.next_tok_start_idx,
    ensures
        outcomes(*a.lexer, a.text_chars@, a.next_tok_start_idx as int, n)
            == outcomes(*b.lexer, b.text_chars@, b.next_tok_start_idx as int, n),
{
}

/// A lexer with no patterns fails at every position before the end of the
/// text, and each failure moves the cursor on by one.
pub proof fn lemma_no_patterns_fail<T, A: Fn(String) -> T>(lx: Lexer<T, A>, text: Seq<char>, start: int)
    requires
        lx.wf(),
        lx.actions.len() == 0,
        0 <= start < text.len(),
    ensures
        scan_outcome(lx, text, start) == Outcome::Failure,
        next_cursor(scan_outcome(lx, text, start), start) == start + 1,
{
    let e = last_accept(lx.nfa, text, start, text.len() as int);
    lemma_last_accept_range(lx.nfa, text, start, text.len() as int);
    if e >= start {
        let f = choose|f: i32| #[trigger] run(lx.nfa, text, start, e + 1).contains(f) && lx.nfa.finals().contains(f);
        let b = choose|b: int| 0 <= b < lx.bindings.len() && (#[trigger] lx.bindings[b]).0 == f;
        assert(lx.bindings[b].1 < lx.actions.len());
    }
}

/// Every accepting state of a well-formed lexer belongs to exactly one
/// pattern, whose action exists.
pub proof fn lemma_final_has_one_pattern<T, A: Fn(String) -> T>(lx: Lexer<T, A>, f: i32)
    requires
        lx.wf(),
        lx.nfa.finals().contains(f),
    ensures
        0 <= lx.pattern_of(f) < lx.bindings.len(),
        lx.bindings[lx.pattern_of(f)].0 == f,
        lx.bindings[lx.pattern_of(f)].1 < lx.actions.len(),
        forall|b: int| 0 <= b < lx.bindings.len() && (#[trigger] lx.bindings[b]).0 == f ==> b == lx.pattern_of(f),
{
    let b = choose|b: int| 0 <= b < lx.bindings.len() && (#[trigger] lx.bindings[b]).0 == f;
    assert(lx.bindings[b].0 == f);
}

/// In a built lexer, a smaller accepting state belongs to an earlier
/// pattern; since a scan picks the smallest accepting state reached, the
/// pattern registered first wins a tie on length.
pub proof fn lemma_earlier_pattern_wins<T, A: Fn(String) -> T>(
    lx: Lexer<T, A>,
    names: Seq<(&'static str, Regex)>,
    pats: Seq<(Regex, A)>,
    f: i32,
    g: i32,
)
    requires
        build_result(Ok::<Lexer<T, A>, BuildError>(lx), names, pats),
        lx.nfa.finals().contains(f),
        lx.nfa.finals().contains(g),
        f < g,
    ensures
        lx.bindings[lx.pattern_of(f)].1 < lx.bindings[lx.pattern_of(g)].1,
{
    let ns = oks(normalized(pats, names));
    let n = pats.len() as int;
    lemma_final_has_one_pattern(lx, f);
    lemma_final_has_one_pattern(lx, g);
    let bf = lx.pattern_of(f);
    let bg = lx.pattern_of(g);
    assert(lx.bindings@[bf] == ((offset(ns, bf + 1) - 1) as i32, bf as usize));
    assert(lx.bindings@[bg] == ((offset(ns, bg + 1) - 1) as i32, bg as usize));
    lemma_offset_grows(ns, 0, bf + 1);
    lemma_offset_grows(ns, 0, bg + 1);
    lemma_offset_grows(ns, bf + 1, n);
    lemma_offset_grows(ns, bg + 1, n);
    if bg <= bf {
        lemma_offset_grows(ns, bg + 1, bf + 1);
    }
}

} // verus!
