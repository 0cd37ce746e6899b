use vstd::prelude::*;
use crate::nfa::NFA;

verus! {

/// A regular-expression pattern. `Epsilon`, `Char`, `Chars`, `Seqn`, `Or` and
/// `Star` are primitive; the other variants are shorthands that
/// `to_regular` expands.
#[derive(Debug)]
pub enum Regex {
    Epsilon,
    Char(char),
    Seqn(Box<Regex>, Box<Regex>),
    Or(Box<Regex>, Box<Regex>),
    Chars(Vec<char>),
    Star(Box<Regex>),
    Range(char, char),
    Plus(Box<Regex>),
    Str(&'static str),
    Optional(Box<Regex>),
    Name(&'static str),
}

/// Mathematical model of a pattern.
pub enum Rx {
    Epsilon,
    Char(char),
    Seqn(Box<Rx>, Box<Rx>),
    Or(Box<Rx>, Box<Rx>),
    Chars(Set<char>),
    Star(Box<Rx>),
    Range(char, char),
    Plus(Box<Rx>),
    Str(Seq<char>),
    Optional(Box<Rx>),
    Name(Seq<char>),
}

pub open spec fn model(r: &Regex) -> Rx
    decreases r,
{
    match r {
        Regex::Epsilon => Rx::Epsilon,
        Regex::Char(c) => Rx::Char(*c),
        Regex::Seqn(a, b) => Rx::Seqn(Box::new(model(a)), Box::new(model(b))),
        Regex::Or(a, b) => Rx::Or(Box::new(model(a)), Box::new(model(b))),
        Regex::Chars(cs) => Rx::Chars(cs@.to_set()),
        Regex::Star(a) => Rx::Star(Box::new(model(a))),
        Regex::Range(lo, hi) => Rx::Range(*lo, *hi),
        Regex::Plus(a) => Rx::Plus(Box::new(model(a))),
        Regex::Str(s) => Rx::Str(s@),
        Regex::Optional(a) => Rx::Optional(Box::new(model(a))),
        Regex::Name(n) => Rx::Name(n@),
    }
}

impl View for Regex {
    type V = Rx;

    open spec fn view(&self) -> Rx {
        model(self)
    }
}

/// The table of named patterns that `Name` refers to; the first entry with a
/// given name is the one that counts.
pub type NamesList = Vec<(&'static str, Regex)>;

/// True of a pattern built from the primitive variants alone.
pub open spec fn is_primitive(r: Rx) -> bool
    decreases r,
{
    match r {
        Rx::Epsilon => true,
        Rx::Char(_) => true,
        Rx::Chars(_) => true,
        Rx::Seqn(a, b) => is_primitive(*a) && is_primitive(*b),
        Rx::Or(a, b) => is_primitive(*a) && is_primitive(*b),
        Rx::Star(a) => is_primitive(*a),
        _ => false,
    }
}

/// `Seqn(Char(s[0]), Seqn(Char(s[1]), ... Epsilon))`.
pub open spec fn str_rx(s: Seq<char>) -> Rx
    decreases s.len(),
{
    if s.len() == 0 {
        Rx::Epsilon
    } else {
        Rx::Seqn(Box::new(Rx::Char(s[0])), Box::new(str_rx(s.drop_first())))
    }
}

/// The Unicode scalar value of a character.
pub open spec fn scalar_of(c: char) -> u32 {
    c as u32
}

/// The characters whose scalar value lies in `[lo, hi]`.
pub open spec fn chars_between(lo: u32, hi: u32) -> Set<char> {
    Set::new(|c: char| lo <= scalar_of(c) && scalar_of(c) <= hi)
}

/// Relies on char::from_u32: `Some` of the character with that scalar
/// value, `None` where no character has it.
#[verifier::external_body]
fn char_from_scalar(u: u32) -> (r: Option<char>)
    ensures
        match r {
            Some(c) => scalar_of(c) == u && forall|d: char| #[trigger] scalar_of(d) == u ==> d == c,
            None => forall|c: char| #[trigger] scalar_of(c) != u,
        },
{
    char::from_u32(u)
}

fn contains_char(v: &Vec<char>, c: char) -> (r: bool)
    ensures
        r == v@.contains(c),
{
    let mut i: usize = 0;
    while i < v.len()
        invariant
            i <= v.len(),
            forall|j: int| 0 <= j < i ==> v@[j] != c,
        decreases v.len() - i,
    {
        if v[i] == c {
            return true;
        }
        i = i + 1;
    }
    false
}

/// The characters of `[lo, hi]` not in `except`, collected in ascending order.
#[verifier::spinoff_prover]
fn collect_chars(lo: u32, hi: u32, except: &Vec<char>) -> (r: Vec<char>)
    ensures
        r@.to_set() == chars_between(lo, hi).filter(|c: char| !except@.contains(c)),
{
    let mut out: Vec<char> = Vec::new();
    let mut u: u64 = lo as u64;
    while u <= hi as u64
        invariant
            lo <= u,
            u <= hi as u64 + 1 || u == lo as u64,
            out@.to_set() == Set::new(|c: char| lo <= scalar_of(c) && scalar_of(c) < u && !except@.contains(c)),
        decreases hi as u64 + 1 - u,
    {
        let ghost before = out@;
        let ghost old_set = Set::new(|c: char| lo <= scalar_of(c) && scalar_of(c) < u && !except@.contains(c));
        let ghost new_set = Set::new(|c: char| lo <= scalar_of(c) && scalar_of(c) < u + 1 && !except@.contains(c));
        let got = char_from_scalar(u as u32);
        let mut pushed = false;
        if let Some(c) = got {
            if !contains_char(except, c) {
                out.push(c);
                pushed = true;
            }
        }
        proof {
            let uu: u32 = u as u32;
            assert(uu as int == u as int);
            if pushed {
                let c = got->0;
                assert(out@ == before.push(c));
                assert(scalar_of(c) == uu);
                assert forall|x: char| new_set.contains(x) <==> #[trigger] old_set.insert(c).contains(x) by {
                    if scalar_of(x) == uu {
                        assert(x == c);
                    }
                };
                assert(new_set =~= old_set.insert(c));
                assert(out@.to_set() =~= before.to_set().insert(c)) by {
                    assert forall|x: char| out@.to_set().contains(x) implies before.to_set().insert(c).contains(x) by {
                        let k = choose|k: int| 0 <= k < out@.len() && out@[k] == x;
                        if k < before.len() {
                            assert(before[k] == x);
                        }
                    };
                    assert forall|x: char| before.to_set().insert(c).contains(x) implies out@.to_set().contains(x) by {
                        if x == c {
                            assert(out@[before.len() as int] == x);
                        } else {
                            let k = choose|k: int| 0 <= k < before.len() && before[k] == x;
                            assert(out@[k] == x);
                        }
                    };
                };
            } else {
                assert(out@ == before);
                assert forall|x: char| new_set.contains(x) <==> #[trigger] old_set.contains(x) by {
                    if scalar_of(x) == uu {
                        if got is None {
                            assert(scalar_of(x) != uu);
                        } else {
                            assert(x == got->0);
                        }
                    }
                };
                assert(new_set =~= old_set);
            }
        }
        u = u + 1;
    }
    assert(out@.to_set() =~= chars_between(lo, hi).filter(|c: char| !except@.contains(c)));
    out
}

impl Regex {
    /// The literal string `string` as a right-nested sequence of characters.
    pub fn from_str(string: &str) -> (r: Regex)
        ensures
            r@ == str_rx(string@),
    {
        let n = string.unicode_len();
        let mut acc = Regex::Epsilon;
        let mut i: usize = n;
        while i > 0
            invariant
                n == string@.len(),
                i <= n,
                acc@ == str_rx(string@.subrange(i as int, n as int)),
            decreases i,
        {
            let c = string.get_char(i - 1);
            let ghost rest = string@.subrange(i as int, n as int);
            let ghost prev = acc@;
            acc = Regex::Seqn(Box::new(Regex::Char(c)), Box::new(acc));
            assert(model(&acc) == Rx::Seqn(Box::new(model(&Regex::Char(c))), Box::new(prev)));
            assert(model(&Regex::Char(c)) == Rx::Char(c));
            proof {
                let s = string@.subrange(i - 1, n as int);
                assert(s.drop_first() =~= rest);
                assert(s[0] == c);
                assert(str_rx(s) == Rx::Seqn(Box::new(Rx::Char(c)), Box::new(str_rx(rest))));
            }
            i = i - 1;
        }
        assert(string@.subrange(0, n as int) =~= string@);
        acc
    }

    /// The set of every character from `begin` to `end` inclusive.
    pub fn from_range(begin: char, end: char) -> (r: Regex)
        ensures
            r@ == Rx::Chars(chars_between(begin as u32, end as u32)),
    {
        let none: Vec<char> = Vec::new();
        let cs = collect_chars(begin as u32, end as u32, &none);
        proof {
            assert(chars_between(begin as u32, end as u32).filter(|c: char| !none@.contains(c))
                =~= chars_between(begin as u32, end as u32));
        }
        Regex::Chars(cs)
    }

    /// The set of the characters with values 0 to 126, less `chars_to_remove`.
    pub fn all_except(chars_to_remove: Vec<char>) -> (r: Regex)
        ensures
            r@ == Rx::Chars(chars_between(0, 126).filter(|c: char| !chars_to_remove@.contains(c))),
    {
        let cs = collect_chars(0, 126, &chars_to_remove);
        Regex::Chars(cs)
    }
}

/// Why a `Name` could not be resolved.
#[derive(PartialEq, Eq, Structural, Clone, Copy, Debug)]
pub enum NameErrorKind {
    /// The pattern holds a name and no table was given.
    NoNameList,
    /// The table has no entry of that name.
    NotFound,
    /// The name is reached again while it is being resolved.
    CyclicReference,
}

/// A name that `to_regular` could not resolve, and why.
#[derive(Clone, Copy, Debug)]
pub struct NameNotFoudError {
    pub kind: NameErrorKind,
    pub name: &'static str,
}

/// Index of the first entry of `t` named `n`, searching from `i`; -1 if none.
pub open spec fn first_index(t: Seq<(&'static str, Regex)>, n: Seq<char>, i: int) -> int
    decreases t.len() - i,
{
    if i < 0 || i >= t.len() {
        -1
    } else if t[i].0@ == n {
        i
    } else {
        first_index(t, n, i + 1)
    }
}

proof fn lemma_first_index_bounds(t: Seq<(&'static str, Regex)>, n: Seq<char>, i: int)
    requires
        0 <= i,
    ensures
        first_index(t, n, i) == -1 || (i <= first_index(t, n, i) < t.len()
            && t[first_index(t, n, i)].0@ == n),
    decreases t.len() - i,
{
    if i < t.len() && t[i].0@ != n {
        lemma_first_index_bounds(t, n, i + 1);
    }
}

/// The number of table entries that may still be entered while `active`
/// are being resolved.
pub open spec fn names_left(names: Option<Seq<(&'static str, Regex)>>, active: Seq<int>) -> int {
    match names {
        Some(t) => t.len() - active.len(),
        None => 0,
    }
}

/// Expansion of shorthands into primitive patterns. `active` holds the
/// table entries being resolved; reaching one of them again is a cycle.
pub open spec fn normalize(
    r: Rx,
    names: Option<Seq<(&'static str, Regex)>>,
    active: Seq<int>,
) -> Result<Rx, (NameErrorKind, Seq<char>)>
    decreases names_left(names, active), r,
{
    match r {
        Rx::Name(n) => match names {
            None => Err((NameErrorKind::NoNameList, n)),
            Some(t) => {
                let i = first_index(t, n, 0);
                if i < 0 {
                    Err((NameErrorKind::NotFound, n))
                } else if active.contains(i) || active.len() >= t.len() {
                    Err((NameErrorKind::CyclicReference, n))
                } else {
                    normalize(t[i].1@, names, active.push(i))
                }
            },
        },
        Rx::Str(s) => Ok(str_rx(s)),
        Rx::Range(lo, hi) => Ok(Rx::Chars(chars_between(lo as u32, hi as u32))),
        Rx::Plus(a) => match normalize(*a, names, active) {
            Ok(x) => Ok(Rx::Seqn(Box::new(x), Box::new(Rx::Star(Box::new(x))))),
            Err(e) => Err(e),
        },
        Rx::Optional(a) => match normalize(*a, names, active) {
            Ok(x) => Ok(Rx::Or(Box::new(x), Box::new(Rx::Epsilon))),
            Err(e) => Err(e),
        },
        Rx::Or(a, b) => match normalize(*a, names, active) {
            Ok(x) => match normalize(*b, names, active) {
                Ok(y) => Ok(Rx::Or(Box::new(x), Box::new(y))),
                Err(e) => Err(e),
            },
            Err(e) => Err(e),
        },
        Rx::Seqn(a, b) => match normalize(*a, names, active) {
            Ok(x) => match normalize(*b, names, active) {
                Ok(y) => Ok(Rx::Seqn(Box::new(x), Box::new(y))),
                Err(e) => Err(e),
            },
            Err(e) => Err(e),
        },
        Rx::Star(a) => match normalize(*a, names, active) {
            Ok(x) => Ok(Rx::Star(Box::new(x))),
            Err(e) => Err(e),
        },
        other => Ok(other),
    }
}

pub open spec fn table_of(names: Option<&NamesList>) -> Option<Seq<(&'static str, Regex)>> {
    match names {
        Some(t) => Some(t@),
        None => None,
    }
}

/// Both directions of `normalize`'s outcome, stated for an executable result.
pub open spec fn normalizes_to(
    res: Result<Regex, NameNotFoudError>,
    expected: Result<Rx, (NameErrorKind, Seq<char>)>,
) -> bool {
    match res {
        Ok(x) => expected == Ok::<Rx, (NameErrorKind, Seq<char>)>(x@),
        Err(e) => expected == Err::<Rx, (NameErrorKind, Seq<char>)>((e.kind, e.name@)),
    }
}

/// Normalization yields primitive patterns only.
pub proof fn lemma_normalize_primitive(
    r: Rx,
    names: Option<Seq<(&'static str, Regex)>>,
    active: Seq<int>,
)
    ensures
        normalize(r, names, active) matches Ok(x) ==> is_primitive(x),
    decreases names_left(names, active), r,
{
    match r {
        Rx::Name(n) => {
            if let Some(t) = names {
                let i = first_index(t, n, 0);
                lemma_first_index_bounds(t, n, 0);
                if i >= 0 && !active.contains(i) && active.len() < t.len() {
                    lemma_normalize_primitive(t[i].1@, names, active.push(i));
                    assert(normalize(r, names, active) == normalize(t[i].1@, names, active.push(i)));
                } else {
                    assert(normalize(r, names, active) is Err);
                }
            } else {
                assert(normalize(r, names, active) is Err);
            }
        },
        Rx::Str(s) => lemma_str_rx_primitive(s),
        Rx::Plus(a) => {
            lemma_normalize_primitive(*a, names, active);
            if let Ok(x) = normalize(*a, names, active) {
                assert(is_primitive(Rx::Star(Box::new(x))));
            }
        },
        Rx::Optional(a) => {
            lemma_normalize_primitive(*a, names, active);
            assert(is_primitive(Rx::Epsilon));
        },
        Rx::Star(a) => lemma_normalize_primitive(*a, names, active),
        Rx::Or(a, b) => {
            lemma_normalize_primitive(*a, names, active);
            lemma_normalize_primitive(*b, names, active);
        },
        Rx::Seqn(a, b) => {
            lemma_normalize_primitive(*a, names, active);
            lemma_normalize_primitive(*b, names, active);
        },
        Rx::Char(c) => lemma_char_primitive(c),
        Rx::Range(lo, hi) => {
            assert(is_primitive(Rx::Chars(chars_between(lo as u32, hi as u32))));
        },
        _ => {},
    }
}

proof fn lemma_str_rx_primitive(s: Seq<char>)
    ensures
        is_primitive(str_rx(s)),
    decreases s.len(),
{
    if s.len() > 0 {
        lemma_str_rx_primitive(s.drop_first());
        lemma_char_primitive(s[0]);
    }
}

proof fn lemma_char_primitive(c: char)
    ensures
        is_primitive(Rx::Char(c)),
{
}

/// A sequence of distinct indices below `n` has at most `n` elements.
proof fn lemma_distinct_below(s: Seq<int>, n: int)
    requires
        0 <= n,
        s.no_duplicates(),
        forall|k: int| 0 <= k < s.len() ==> 0 <= #[trigger] s[k] < n,
    ensures
        s.len() <= n,
{
    s.unique_seq_to_set();
    assert(s.to_set().subset_of(vstd::set_lib::set_int_range(0, n))) by {
        assert forall|x: int| s.to_set().contains(x) implies vstd::set_lib::set_int_range(0, n).contains(x) by {
            let k = choose|k: int| 0 <= k < s.len() && s[k] == x;
        };
    };
    vstd::set_lib::lemma_int_range(0, n);
    vstd::set_lib::lemma_len_subset(s.to_set(), vstd::set_lib::set_int_range(0, n));
}

fn same_text(a: &str, b: &str) -> (r: bool)
    ensures
        r == (a@ == b@),
{
    let n = a.unicode_len();
    if n != b.unicode_len() {
        return false;
    }
    let mut i: usize = 0;
    while i < n
        invariant
            n == a@.len(),
            n == b@.len(),
            i <= n,
            forall|j: int| 0 <= j < i ==> a@[j] == b@[j],
        decreases n - i,
    {
        if a.get_char(i) != b.get_char(i) {
            return false;
        }
        i = i + 1;
    }
    assert(a@ =~= b@);
    true
}

fn find_name(t: &NamesList, n: &'static str) -> (r: Option<usize>)
    ensures
        match r {
            Some(i) => i as int == first_index(t@, n@, 0) && i < t.len(),
            None => first_index(t@, n@, 0) == -1,
        },
{
    let mut i: usize = 0;
    while i < t.len()
        invariant
            i <= t.len(),
            first_index(t@, n@, 0) == first_index(t@, n@, i as int),
        decreases t.len() - i,
    {
        if same_text(t[i].0, n) {
            return Some(i);
        }
        i = i + 1;
    }
    None
}

fn contains_index(v: &Vec<usize>, x: usize) -> (r: bool)
    ensures
        r == v@.contains(x),
{
    let mut i: usize = 0;
    while i < v.len()
        invariant
            i <= v.len(),
            forall|j: int| 0 <= j < i ==> v@[j] != x,
        decreases v.len() - i,
    {
        if v[i] == x {
            return true;
        }
        i = i + 1;
    }
    false
}

pub open spec fn ints_of(v: Seq<usize>) -> Seq<int> {
    v.map_values(|x: usize| x as int)
}

fn copy_chars(v: &Vec<char>) -> (r: Vec<char>)
    ensures
        r@ == v@,
{
    let mut out: Vec<char> = Vec::new();
    let mut i: usize = 0;
    while i < v.len()
        invariant
            i <= v.len(),
            out@ == v@.subrange(0, i as int),
        decreases v.len() - i,
    {
        out.push(v[i]);
        i = i + 1;
        assert(out@ =~= v@.subrange(0, i as int));
    }
    assert(v@.subrange(0, v.len() as int) =~= v@);
    out
}

impl Regex {
    /// Expands `self` into a primitive pattern: names are looked up in
    /// `names`, strings become sequences of characters, ranges become sets,
    /// `Plus(r)` becomes `Seqn(r, Star(r))` and `Optional(r)` becomes
    /// `Or(r, Epsilon)`.
    pub fn to_regular(&self, names: Option<&NamesList>) -> (r: Result<Regex, NameNotFoudError>)
        ensures
            normalizes_to(r, normalize(self@, table_of(names), Seq::empty())),
            r matches Ok(x) ==> is_primitive(x@),
    {
        let active: Vec<usize> = Vec::new();
        assert(ints_of(active@) =~= Seq::<int>::empty());
        let r = self.resolve(names, &active);
        proof {
            lemma_normalize_primitive(self@, table_of(names), Seq::empty());
        }
        r
    }

    fn resolve(&self, names: Option<&NamesList>, active: &Vec<usize>) -> (r: Result<Regex, NameNotFoudError>)
        requires
            ints_of(active@).no_duplicates(),
            match names {
                Some(t) => forall|k: int| 0 <= k < active.len() ==> #[trigger] active@[k] < t.len(),
                None => active.len() == 0,
            },
        ensures
            normalizes_to(r, normalize(self@, table_of(names), ints_of(active@))),
        decreases names_left(table_of(names), ints_of(active@)), self,
    {
        let ghost tab = table_of(names);
        let ghost act = ints_of(active@);
        match self {
            Regex::Name(n) => match names {
                None => Err(NameNotFoudError { kind: NameErrorKind::NoNameList, name: n }),
                Some(t) => match find_name(t, n) {
                    None => Err(NameNotFoudError { kind: NameErrorKind::NotFound, name: n }),
                    Some(i) => {
                        proof {
                            lemma_first_index_bounds(t@, n@, 0);
                            assert(act.contains(i as int) <==> active@.contains(i)) by {
                                if act.contains(i as int) {
                                    let k = choose|k: int| 0 <= k < act.len() && act[k] == i as int;
                                    assert(active@[k] == i);
                                }
                                if active@.contains(i) {
                                    let k = choose|k: int| 0 <= k < active@.len() && active@[k] == i;
                                    assert(act[k] == i as int);
                                }
                            };
                        }
                        if contains_index(active, i) {
                            Err(NameNotFoudError { kind: NameErrorKind::CyclicReference, name: n })
                        } else {
                            let mut next = active.clone();
                            assert(next@ =~= active@);
                            next.push(i);
                            proof {
                                assert(ints_of(next@) =~= act.push(i as int));
                                lemma_distinct_below(act.push(i as int), t.len() as int);
                            }
                            t[i].1.resolve(names, &next)
                        }
                    },
                },
            },
            Regex::Str(s) => Ok(Regex::from_str(s)),
            Regex::Range(lo, hi) => Ok(Regex::from_range(*lo, *hi)),
            Regex::Plus(a) => match a.resolve(names, active) {
                Ok(x) => match a.resolve(names, active) {
                    Ok(y) => {
                        let st = Regex::Star(Box::new(y));
                        assert(model(&st) == Rx::Star(Box::new(x@)));
                        let sq = Regex::Seqn(Box::new(x), Box::new(st));
                        assert(model(&sq) == Rx::Seqn(Box::new(x@), Box::new(Rx::Star(Box::new(x@)))));
                        Ok(sq)
                    },
                    Err(e) => Err(e),
                },
                Err(e) => Err(e),
            },
            Regex::Optional(a) => match a.resolve(names, active) {
                Ok(x) => {
                    let e = Regex::Epsilon;
                    assert(model(&e) == Rx::Epsilon);
                    let o = Regex::Or(Box::new(x), Box::new(e));
                    assert(model(&o) == Rx::Or(Box::new(x@), Box::new(Rx::Epsilon)));
                    Ok(o)
                },
                Err(e) => Err(e),
            },
            Regex::Or(a, b) => match a.resolve(names, active) {
                Ok(x) => match b.resolve(names, active) {
                    Ok(y) => Ok(Regex::Or(Box::new(x), Box::new(y))),
                    Err(e) => Err(e),
                },
                Err(e) => Err(e),
            },
            Regex::Seqn(a, b) => match a.resolve(names, active) {
                Ok(x) => match b.resolve(names, active) {
                    Ok(y) => Ok(Regex::Seqn(Box::new(x), Box::new(y))),
                    Err(e) => Err(e),
                },
                Err(e) => Err(e),
            },
            Regex::Star(a) => match a.resolve(names, active) {
                Ok(x) => Ok(Regex::Star(Box::new(x))),
                Err(e) => Err(e),
            },
            Regex::Epsilon => {
                let e = Regex::Epsilon;
                assert(model(&e) == Rx::Epsilon);
                Ok(e)
            },
            Regex::Char(c) => {
                let e = Regex::Char(*c);
                assert(model(&e) == Rx::Char(*c));
                Ok(e)
            },
            Regex::Chars(cs) => {
                let e = Regex::Chars(copy_chars(cs));
                assert(model(&e) == Rx::Chars(cs@.to_set()));
                Ok(e)
            },
        }
    }
}

/// The symbol of a transition that consumes no input: character 127, which
/// `all_except` and the usual character classes (0 to 126) leave out. A
/// text that holds it would be read as taking such transitions.
pub const EPSILON_CHR: char = '\u{7f}';

/// A transition table: a set of edges `(from, symbol, to)`. Adding edges
/// never removes one, so two additions out of one state accumulate.
#[derive(Debug)]
pub struct Delta {
    pub edges: Vec<(i32, char, i32)>,
}

impl View for Delta {
    type V = Set<(i32, char, i32)>;

    open spec fn view(&self) -> Set<(i32, char, i32)> {
        self.edges@.to_set()
    }
}

impl Delta {
    pub fn new() -> (d: Delta)
        ensures
            d@ == Set::<(i32, char, i32)>::empty(),
    {
        let d = Delta { edges: Vec::new() };
        assert(d@ =~= Set::<(i32, char, i32)>::empty());
        d
    }
}

/// The edges from `s` on `c` to each state of `outs`.
pub open spec fn fan_out(s: i32, c: char, outs: Set<i32>) -> Set<(i32, char, i32)> {
    Set::new(|e: (i32, char, i32)| e.0 == s && e.1 == c && outs.contains(e.2))
}

pub(crate) proof fn lemma_push_to_set<A>(s: Seq<A>, x: A)
    ensures
        s.push(x).to_set() == s.to_set().insert(x),
{
    assert forall|y: A| #[trigger] s.push(x).to_set().contains(y) implies s.to_set().insert(x).contains(y) by {
        let k = choose|k: int| 0 <= k < s.push(x).len() && s.push(x)[k] == y;
        if k < s.len() {
            assert(s[k] == y);
        }
    };
    assert forall|y: A| #[trigger] s.to_set().insert(x).contains(y) implies s.push(x).to_set().contains(y) by {
        if y == x {
            assert(s.push(x)[s.len() as int] == y);
        } else {
            let k = choose|k: int| 0 <= k < s.len() && s[k] == y;
            assert(s.push(x)[k] == y);
        }
    };
    assert(s.push(x).to_set() =~= s.to_set().insert(x));
}

/// Adds an edge from `trans_in.0` on `trans_in.1` to every state of `trans_out`.
pub fn expand_trans(delta: &mut Delta, trans_in: (i32, char), trans_out: Vec<i32>)
    ensures
        final(delta)@ == old(delta)@.union(fan_out(trans_in.0, trans_in.1, trans_out@.to_set())),
{
    let (s, c) = trans_in;
    let mut i: usize = 0;
    while i < trans_out.len()
        invariant
            i <= trans_out.len(),
            delta@ == old(delta)@.union(fan_out(s, c, trans_out@.subrange(0, i as int).to_set())),
        decreases trans_out.len() - i,
    {
        let t = trans_out[i];
        let ghost before = delta.edges@;
        delta.edges.push((s, c, t));
        proof {
            lemma_push_to_set(before, (s, c, t));
            let pre = trans_out@.subrange(0, i as int);
            assert(trans_out@.subrange(0, i + 1) == pre.push(t));
            lemma_push_to_set(pre, t);
            assert(fan_out(s, c, pre.push(t).to_set()) =~= fan_out(s, c, pre.to_set()).insert((s, c, t)));
            assert(delta@ =~= old(delta)@.union(fan_out(s, c, trans_out@.subrange(0, i + 1).to_set())));
        }
        i = i + 1;
    }
    assert(trans_out@.subrange(0, trans_out.len() as int) =~= trans_out@);
}

/// The number of states the construction allocates for a primitive pattern.
pub open spec fn size(r: Rx) -> nat
    decreases r,
{
    match r {
        Rx::Seqn(a, b) => size(*a) + 1 + size(*b),
        Rx::Or(a, b) => size(*a) + size(*b) + 3,
        Rx::Star(a) => size(*a) + 2,
        _ => 1,
    }
}

pub open spec fn eps(s: int, t: int) -> (i32, char, i32) {
    (s as i32, EPSILON_CHR, t as i32)
}

/// The edges that Thompson's construction adds for `r` from state `entry`,
/// numbering fresh states from `next`. The fragment's exit is its last
/// fresh state, `next + size(r) - 1`.
pub open spec fn thompson(r: Rx, entry: int, next: int) -> Set<(i32, char, i32)>
    decreases r,
{
    match r {
        Rx::Char(c) => set![(entry as i32, c, next as i32)],
        Rx::Chars(cs) => Set::new(
            |e: (i32, char, i32)| e.0 == entry as i32 && cs.contains(e.1) && e.2 == next as i32,
        ),
        Rx::Seqn(a, b) => {
            let mid = next + size(*a);
            thompson(*a, entry, next).insert(eps(mid - 1, mid)).union(thompson(*b, mid, mid + 1))
        },
        Rx::Or(a, b) => {
            let in_a = next;
            let in_b = next + 1;
            let end = next + 2 + size(*a) + size(*b);
            set![eps(entry, in_a), eps(entry, in_b)]
                .union(thompson(*a, in_a, next + 2))
                .union(thompson(*b, in_b, next + 2 + size(*a)))
                .union(set![eps(next + 1 + size(*a), end), eps(end - 1, end)])
        },
        Rx::Star(a) => {
            let in_r = next;
            let after = next + 1 + size(*a);
            thompson(*a, in_r, next + 1).union(
                set![eps(after - 1, in_r), eps(after - 1, after), eps(entry, in_r), eps(entry, after)],
            )
        },
        _ => set![eps(entry, next)],
    }
}

proof fn lemma_size_positive(r: Rx)
    ensures
        size(r) >= 1,
{
}

proof fn lemma_fan_out_one(s: i32, c: char, t: i32)
    ensures
        fan_out(s, c, seq![t].to_set()) == set![(s, c, t)],
{
    assert(seq![t][0] == t);
    assert(fan_out(s, c, seq![t].to_set()) =~= set![(s, c, t)]);
}

proof fn lemma_fan_out_two(s: i32, c: char, t: i32, u: i32)
    ensures
        fan_out(s, c, seq![t, u].to_set()) == set![(s, c, t), (s, c, u)],
{
    assert(seq![t, u][0] == t);
    assert(seq![t, u][1] == u);
    assert(fan_out(s, c, seq![t, u].to_set()) =~= set![(s, c, t), (s, c, u)]);
}

impl Regex {
    /// Thompson's construction of a primitive pattern from state `current`:
    /// adds the fragment's edges to `delta`, draws fresh states from
    /// `counter`, and returns the fragment's exit state.
    fn create_nfa(&self, delta: &mut Delta, counter: &mut i32, current: i32) -> (exit: i32)
        requires
            is_primitive(self@),
            0 <= *old(counter),
            *old(counter) + size(self@) <= i32::MAX,
        ensures
            *final(counter) == *old(counter) + size(self@),
            exit == *final(counter) - 1,
            final(delta)@ == old(delta)@.union(thompson(self@, current as int, *old(counter) as int)),
        decreases self,
    {
        let ghost d0 = delta@;
        let ghost n0 = *counter as int;
        proof { lemma_size_positive(self@); }
        match self {
            Regex::Seqn(a, b) => {
                assert(self@ == Rx::Seqn(Box::new(a@), Box::new(b@)));
                proof { lemma_size_positive(a@); lemma_size_positive(b@); }
                let left_out = a.create_nfa(delta, counter, current);
                let ghost d1 = delta@;
                let right_in = *counter;
                *counter = *counter + 1;
                expand_trans(delta, (left_out, EPSILON_CHR), vec![right_in]);
                proof { lemma_fan_out_one(left_out, EPSILON_CHR, right_in); }
                let ghost d2 = delta@;
                let exit = b.create_nfa(delta, counter, right_in);
                assert(delta@ =~= d0.union(thompson(self@, current as int, n0)));
                exit
            },
            Regex::Or(a, b) => {
                assert(self@ == Rx::Or(Box::new(a@), Box::new(b@)));
                proof { lemma_size_positive(a@); lemma_size_positive(b@); }
                let left_in = *counter;
                let right_in = *counter + 1;
                *counter = *counter + 2;
                expand_trans(delta, (current, EPSILON_CHR), vec![left_in, right_in]);
                proof { lemma_fan_out_two(current, EPSILON_CHR, left_in, right_in); }
                let left_out = a.create_nfa(delta, counter, left_in);
                let right_out = b.create_nfa(delta, counter, right_in);
                let end = *counter;
                *counter = *counter + 1;
                expand_trans(delta, (left_out, EPSILON_CHR), vec![end]);
                proof { lemma_fan_out_one(left_out, EPSILON_CHR, end); }
                expand_trans(delta, (right_out, EPSILON_CHR), vec![end]);
                proof { lemma_fan_out_one(right_out, EPSILON_CHR, end); }
                assert(delta@ =~= d0.union(thompson(self@, current as int, n0)));
                end
            },
            Regex::Star(a) => {
                assert(self@ == Rx::Star(Box::new(a@)));
                proof { lemma_size_positive(a@); }
                let reg_in = *counter;
                *counter = *counter + 1;
                let reg_out = a.create_nfa(delta, counter, reg_in);
                let state_after = *counter;
                *counter = *counter + 1;
                expand_trans(delta, (reg_out, EPSILON_CHR), vec![reg_in, state_after]);
                proof { lemma_fan_out_two(reg_out, EPSILON_CHR, reg_in, state_after); }
                expand_trans(delta, (current, EPSILON_CHR), vec![reg_in, state_after]);
                proof { lemma_fan_out_two(current, EPSILON_CHR, reg_in, state_after); }
                assert(delta@ =~= d0.union(thompson(self@, current as int, n0)));
                state_after
            },
            Regex::Char(c) => {
                assert(self@ == Rx::Char(*c));
                let x = *counter;
                *counter = *counter + 1;
                expand_trans(delta, (current, *c), vec![x]);
                proof { lemma_fan_out_one(current, *c, x); }
                x
            },
            Regex::Chars(cs) => {
                assert(self@ == Rx::Chars(cs@.to_set()));
                let x = *counter;
                *counter = *counter + 1;
                let mut i: usize = 0;
                while i < cs.len()
                    invariant
                        i <= cs.len(),
                        delta@ == d0.union(Set::new(|e: (i32, char, i32)|
                            e.0 == current && cs@.subrange(0, i as int).contains(e.1) && e.2 == x)),
                    decreases cs.len() - i,
                {
                    let ghost before = delta@;
                    expand_trans(delta, (current, cs[i]), vec![x]);
                    proof {
                        lemma_fan_out_one(current, cs@[i as int], x);
                        let pre = cs@.subrange(0, i as int);
                        assert(cs@.subrange(0, i + 1) == pre.push(cs@[i as int]));
                        assert forall|y: char| #[trigger] pre.push(cs@[i as int]).contains(y)
                            <==> (pre.contains(y) || y == cs@[i as int]) by {
                            if pre.push(cs@[i as int]).contains(y) && y != cs@[i as int] {
                                let k = choose|k: int| 0 <= k < pre.len() + 1 && pre.push(cs@[i as int])[k] == y;
                                assert(pre[k] == y);
                            }
                            if pre.contains(y) {
                                let k = choose|k: int| 0 <= k < pre.len() && pre[k] == y;
                                assert(pre.push(cs@[i as int])[k] == y);
                            }
                            if y == cs@[i as int] {
                                assert(pre.push(cs@[i as int])[pre.len() as int] == y);
                            }
                        };
                        assert(delta@ =~= d0.union(Set::new(|e: (i32, char, i32)|
                            e.0 == current && cs@.subrange(0, i + 1).contains(e.1) && e.2 == x)));
                    }
                    i = i + 1;
                }
                assert(cs@.subrange(0, cs.len() as int) =~= cs@);
                assert(delta@ =~= d0.union(thompson(self@, current as int, n0)));
                x
            },
            _ => {
                assert(self@ == Rx::Epsilon);
                let x = *counter;
                expand_trans(delta, (current, EPSILON_CHR), vec![x]);
                proof { lemma_fan_out_one(current, EPSILON_CHR, x); }
                *counter = *counter + 1;
                x
            },
        }
    }

    /// Compiles a primitive pattern into an automaton whose states are drawn
    /// from `counter`: the start state first, then the fragment's states.
    pub fn to_nfa(&self, counter: &mut i32) -> (nfa: NFA)
        requires
            is_primitive(self@),
            0 <= *old(counter),
            *old(counter) + 1 + size(self@) <= i32::MAX,
        ensures
            *final(counter) == *old(counter) + 1 + size(self@),
            nfa.initial_state == *old(counter),
            nfa.delta@ == thompson(self@, *old(counter) as int, *old(counter) + 1),
            nfa.final_states@ == seq![(*final(counter) - 1) as i32],
    {
        let first = *counter;
        *counter = *counter + 1;
        let mut delta = Delta::new();
        let exit = self.create_nfa(&mut delta, counter, first);
        assert(delta@ =~= thompson(self@, first as int, first + 1));
        NFA { delta, initial_state: first, final_states: vec![exit] }
    }
}

} // verus!
