use regex_automata::dfa::dense::{BuildError, DFA};
use regex_automata::dfa::StartKind;
use regex_automata::dfa::Automaton;
use regex_automata::util::primitives::StateID;
use regex_automata::{Anchored, Input, MatchKind};
use std::collections::HashMap;
use vstd::prelude::*;

verus! {

broadcast use vstd::std_specs::hash::group_hash_axioms;

#[verifier::external_type_specification]
#[verifier::external_body]
pub struct ExBuildError(BuildError);

#[verifier::external_type_specification]
#[verifier::external_body]
#[verifier::reject_recursive_types(T)]
pub struct ExDFA<T>(DFA<T>);

/// Whether a dense DFA (all-matches semantics) can be built from the pattern.
pub uninterp spec fn dfa_builds(p: Seq<char>) -> bool;

/// The anchored start state, for an empty haystack, of the DFA built from
/// the pattern.
pub uninterp spec fn dfa_start(p: Seq<char>) -> Option<u32>;

/// The transition of the DFA built from `p` out of state `s` on byte `b`.
pub uninterp spec fn dfa_next(p: Seq<char>, s: u32, b: u8) -> u32;

/// The end-of-input transition of the DFA built from `p` out of state `s`.
pub uninterp spec fn dfa_eoi(p: Seq<char>, s: u32) -> u32;

/// Whether `s` is a match state of the DFA built from `p`.
pub uninterp spec fn dfa_is_match(p: Seq<char>, s: u32) -> bool;

/// The lossy UTF-8 decoding of a byte string.
pub uninterp spec fn utf8_lossy(b: Seq<u8>) -> Seq<char>;

/// The identifier of the dead state of a dense DFA.
pub const DEAD_STATE: u32 = 0;

/// The dead state is absorbing, on every byte and at the end of input, and
/// never matches.
pub open spec fn dead_state_absorbing(p: Seq<char>) -> bool {
    &&& forall|c: u8| #[trigger] dfa_next(p, DEAD_STATE, c) == DEAD_STATE
    &&& dfa_eoi(p, DEAD_STATE) == DEAD_STATE
    &&& !dfa_is_match(p, DEAD_STATE)
}

/// The state reached from `s` by reading the bytes of `w`.
pub open spec fn run(p: Seq<char>, s: u32, w: Seq<u8>) -> u32
    decreases w.len(),
{
    if w.len() == 0 {
        s
    } else {
        dfa_next(p, run(p, s, w.drop_last()), w.last())
    }
}

/// Reading `w` from `s` ends in a state whose end-of-input transition matches.
pub open spec fn accepts_from(p: Seq<char>, s: u32, w: Seq<u8>) -> bool {
    dfa_is_match(p, dfa_eoi(p, run(p, s, w)))
}

/// The DFA of `p` matches the whole of `w` (anchored at both ends).
pub open spec fn full_match(p: Seq<char>, w: Seq<u8>) -> bool {
    dfa_builds(p) && match dfa_start(p) {
        Some(s) => accepts_from(p, s, w),
        None => false,
    }
}

/// The state reached from the start state by reading `w`.
pub open spec fn run_from_start(p: Seq<char>, w: Seq<u8>) -> u32 {
    run(p, dfa_start(p).unwrap(), w)
}

/// A dense DFA together with the pattern it was built from.
pub struct PatternDfa {
    dfa: DFA<Vec<u32>>,
    pattern: String,
}

impl View for PatternDfa {
    type V = Seq<char>;

    closed spec fn view(&self) -> Seq<char> {
        self.pattern@
    }
}

/// Relies on `dense::Builder::build` with `MatchKind::All`, so that the DFA
/// keeps every match and a full match means membership in the pattern's
/// language, and with anchored start states only (the only ones used): builds the DFA of a pattern, or fails; whether it fails depends
/// on the pattern alone. The dead state (identifier 0) has every transition
/// back to itself and is not a match state.
#[verifier::external_body]
fn compile(p: &str) -> (r: Result<PatternDfa, BuildError>)
    ensures
        r is Ok == dfa_builds(p@),
        r matches Ok(d) ==> d@ == p@ && dead_state_absorbing(p@),
{
    match DFA::builder().configure(DFA::config().match_kind(MatchKind::All).start_kind(StartKind::Anchored)).build(p) {
        Ok(dfa) => Ok(PatternDfa { dfa, pattern: p.to_string() }),
        Err(e) => Err(e),
    }
}

/// Relies on `Automaton::start_state_forward` with an anchored search on an
/// empty haystack.
#[verifier::external_body]
fn start_state(d: &PatternDfa) -> (r: Option<u32>)
    ensures
        r == dfa_start(d@),
{
    let input = Input::new(&[] as &[u8]).anchored(Anchored::Yes);
    d.dfa.start_state_forward(&input).ok().map(|s| s.as_u32())
}

/// Relies on `Automaton::next_state`, which indexes the transition table and
/// so needs a state of this DFA.
#[verifier::external_body]
fn next_state(d: &PatternDfa, s: u32, b: u8) -> (r: u32)
    requires
        exists|w: Seq<u8>| run_from_start(d@, w) == s && dfa_start(d@) is Some,
    ensures
        r == dfa_next(d@, s, b),
{
    d.dfa.next_state(StateID::new_unchecked(s as usize), b).as_u32()
}

/// Relies on `Automaton::next_eoi_state`, which needs a state of this DFA.
#[verifier::external_body]
fn next_eoi_state(d: &PatternDfa, s: u32) -> (r: u32)
    requires
        exists|w: Seq<u8>| run_from_start(d@, w) == s && dfa_start(d@) is Some,
    ensures
        r == dfa_eoi(d@, s),
{
    d.dfa.next_eoi_state(StateID::new_unchecked(s as usize)).as_u32()
}

/// Relies on `Automaton::is_match_state`.
#[verifier::external_body]
fn is_match_state(d: &PatternDfa, s: u32) -> (r: bool)
    ensures
        r == dfa_is_match(d@, s),
{
    d.dfa.is_match_state(StateID::new_unchecked(s as usize))
}

/// Relies on `Automaton::is_dead_state`: the dead state has identifier 0.
#[verifier::external_body]
fn is_dead_state(d: &PatternDfa, s: u32) -> (r: bool)
    ensures
        r == (s == DEAD_STATE),
{
    d.dfa.is_dead_state(StateID::new_unchecked(s as usize))
}

/// Relies on `String::from_utf8_lossy`: each byte ends up in a character of
/// the result, valid or the replacement character, so only the empty input
/// gives the empty string.
#[verifier::external_body]
fn decode_lossy(b: &Vec<u8>) -> (r: String)
    ensures
        r@ == utf8_lossy(b@),
        b@.len() == 0 <==> r@.len() == 0,
{
    String::from_utf8_lossy(b).into_owned()
}

/// Reading every prefix of `w` from `s` avoids the dead state.
pub open spec fn live(p: Seq<char>, s: u32, w: Seq<u8>) -> bool {
    forall|i: int| 0 <= i <= w.len() ==> run(p, s, #[trigger] w.subrange(0, i)) != DEAD_STATE
}

/// The pair of states reached by reading `w` in both automata at once.
pub open spec fn joint(pa: Seq<char>, pb: Seq<char>, sa: u32, sb: u32, w: Seq<u8>) -> (u32, u32) {
    (run(pa, sa, w), run(pb, sb, w))
}

/// The hash-map key of a pair of states.
pub open spec fn pair_key(q: (u32, u32)) -> u64 {
    (q.0 as int * 4294967296 + q.1 as int) as u64
}

/// A byte string that both patterns match in full.
pub open spec fn common_match(pa: Seq<char>, pb: Seq<char>, w: Seq<u8>) -> bool {
    full_match(pa, w) && full_match(pb, w)
}

proof fn lemma_pair_key_injective(q: (u32, u32), r: (u32, u32))
    ensures
        pair_key(q) == pair_key(r) ==> q == r,
{
    let a = q.0 as int;
    let b = q.1 as int;
    let c = r.0 as int;
    let d = r.1 as int;
    assert(0 <= a * 4294967296 + b <= 0xffff_ffff_ffff_ffff) by (nonlinear_arith)
        requires
            0 <= a < 4294967296,
            0 <= b < 4294967296,
    ;
    assert(0 <= c * 4294967296 + d <= 0xffff_ffff_ffff_ffff) by (nonlinear_arith)
        requires
            0 <= c < 4294967296,
            0 <= d < 4294967296,
    ;
    if pair_key(q) == pair_key(r) {
        assert(a == c && b == d) by (nonlinear_arith)
            requires
                a * 4294967296 + b == c * 4294967296 + d,
                0 <= b < 4294967296,
                0 <= d < 4294967296,
                0 <= a,
                0 <= c,
        ;
    }
}

fn make_key(a: u32, b: u32) -> (k: u64)
    ensures
        k == pair_key((a, b)),
{
    assert(0 <= a as int * 4294967296 + b as int <= 0xffff_ffff_ffff_ffff) by (nonlinear_arith)
        requires
            0 <= a < 4294967296,
            0 <= b < 4294967296,
    ;
    (a as u64) * 4294967296u64 + (b as u64)
}

proof fn lemma_run_push(p: Seq<char>, s: u32, w: Seq<u8>, c: u8)
    ensures
        run(p, s, w.push(c)) == dfa_next(p, run(p, s, w), c),
{
    assert(w.push(c).drop_last() =~= w);
}

/// Once the dead state is reached it is never left.
proof fn lemma_dead_stays(p: Seq<char>, s: u32, w: Seq<u8>, i: int)
    requires
        dead_state_absorbing(p),
        0 <= i <= w.len(),
        run(p, s, w.subrange(0, i)) == DEAD_STATE,
    ensures
        run(p, s, w) == DEAD_STATE,
    decreases w.len() - i,
{
    if i < w.len() {
        assert(w.subrange(0, i + 1) =~= w.subrange(0, i).push(w[i]));
        lemma_run_push(p, s, w.subrange(0, i), w[i]);
        lemma_dead_stays(p, s, w, i + 1);
    } else {
        assert(w.subrange(0, i) =~= w);
    }
}

/// An accepted input never passes through the dead state.
proof fn lemma_accepts_live(p: Seq<char>, s: u32, w: Seq<u8>)
    requires
        dead_state_absorbing(p),
        accepts_from(p, s, w),
    ensures
        live(p, s, w),
{
    assert forall|i: int| 0 <= i <= w.len() implies run(p, s, #[trigger] w.subrange(0, i)) != DEAD_STATE by {
        if run(p, s, w.subrange(0, i)) == DEAD_STATE {
            lemma_dead_stays(p, s, w, i);
        }
    }
}

proof fn lemma_live_drop_last(p: Seq<char>, s: u32, w: Seq<u8>)
    requires
        live(p, s, w),
        w.len() > 0,
    ensures
        live(p, s, w.drop_last()),
        run(p, s, w) != DEAD_STATE,
{
    let v = w.drop_last();
    assert forall|i: int| 0 <= i <= v.len() implies run(p, s, #[trigger] v.subrange(0, i)) != DEAD_STATE by {
        assert(v.subrange(0, i) =~= w.subrange(0, i));
    }
    assert(w.subrange(0, w.len() as int) =~= w);
}

/// `a` comes before `b` byte by byte: at the first place where they differ,
/// `a` has the smaller byte.
pub open spec fn lex_lt(a: Seq<u8>, b: Seq<u8>) -> bool {
    exists|i: int| 0 <= i < a.len() && i < b.len() && #[trigger] a[i] < b[i] && a.subrange(0, i) == b.subrange(0, i)
}

/// `a` comes before `b` in shortlex order: shorter first, then byte by byte.
pub open spec fn shortlex_lt(a: Seq<u8>, b: Seq<u8>) -> bool {
    a.len() < b.len() || (a.len() == b.len() && lex_lt(a, b))
}

/// `a` is `b` or comes before it in shortlex order.
pub open spec fn shortlex_le(a: Seq<u8>, b: Seq<u8>) -> bool {
    a == b || shortlex_lt(a, b)
}

proof fn lemma_shortlex_irrefl(a: Seq<u8>)
    ensures
        !shortlex_lt(a, a),
{
}

proof fn lemma_shortlex_trans(a: Seq<u8>, b: Seq<u8>, c: Seq<u8>)
    requires
        shortlex_lt(a, b),
        shortlex_lt(b, c),
    ensures
        shortlex_lt(a, c),
{
    if a.len() == b.len() && b.len() == c.len() {
        let i = choose|i: int| 0 <= i < a.len() && i < b.len() && #[trigger] a[i] < b[i] && a.subrange(0, i) == b.subrange(0, i);
        let j = choose|j: int| 0 <= j < b.len() && j < c.len() && #[trigger] b[j] < c[j] && b.subrange(0, j) == c.subrange(0, j);
        let m = if i < j { i } else { j };
        assert forall|k: int| 0 <= k < m implies a[k] == c[k] by {
            assert(a.subrange(0, i)[k] == b.subrange(0, i)[k]);
            assert(b.subrange(0, j)[k] == c.subrange(0, j)[k]);
        }
        assert(a.subrange(0, m) =~= c.subrange(0, m));
        if i < j {
            assert(b.subrange(0, j)[i] == c.subrange(0, j)[i]);
        } else if j < i {
            assert(a.subrange(0, i)[j] == b.subrange(0, i)[j]);
        }
        assert(a[m] < c[m]);
    }
}

proof fn lemma_shortlex_le_lt(a: Seq<u8>, b: Seq<u8>, c: Seq<u8>)
    requires
        shortlex_le(a, b),
        shortlex_lt(b, c),
    ensures
        shortlex_lt(a, c),
{
    if a != b {
        lemma_shortlex_trans(a, b, c);
    }
}

/// Extending both sides by a byte keeps a strict shortlex order.
proof fn lemma_shortlex_push(a: Seq<u8>, b: Seq<u8>, x: u8, y: u8)
    requires
        shortlex_lt(a, b),
    ensures
        shortlex_lt(a.push(x), b.push(y)),
{
    if a.len() == b.len() {
        let i = choose|i: int| 0 <= i < a.len() && i < b.len() && #[trigger] a[i] < b[i] && a.subrange(0, i) == b.subrange(0, i);
        assert(a.push(x)[i] == a[i] && b.push(y)[i] == b[i]);
        assert(a.push(x).subrange(0, i) =~= a.subrange(0, i));
        assert(b.push(y).subrange(0, i) =~= b.subrange(0, i));
    }
}

/// A smaller last byte comes first.
proof fn lemma_shortlex_last(a: Seq<u8>, x: u8, y: u8)
    requires
        x < y,
    ensures
        shortlex_lt(a.push(x), a.push(y)),
{
    let i = a.len() as int;
    assert(a.push(x)[i] == x && a.push(y)[i] == y);
    assert(a.push(x).subrange(0, i) =~= a);
    assert(a.push(y).subrange(0, i) =~= a);
}

proof fn lemma_shortlex_le_trans(a: Seq<u8>, b: Seq<u8>, c: Seq<u8>)
    requires
        shortlex_le(a, b),
        shortlex_le(b, c),
    ensures
        shortlex_le(a, c),
{
    if a != b && b != c {
        lemma_shortlex_trans(a, b, c);
    }
}

proof fn lemma_shortlex_le_push(a: Seq<u8>, b: Seq<u8>, x: u8)
    requires
        shortlex_le(a, b),
    ensures
        shortlex_le(a.push(x), b.push(x)),
{
    if a != b {
        lemma_shortlex_push(a, b, x, x);
    }
}

/// Follows parent links from node `k` back to the root and returns the
/// bytes on the way, first byte first.
fn trace_path(parent: &Vec<(usize, u8)>, k: usize, Ghost(paths): Ghost<Seq<Seq<u8>>>) -> (w: Vec<
    u8,
>)
    requires
        k < parent.len(),
        paths.len() == parent.len(),
        paths[0] == Seq::<u8>::empty(),
        forall|j: int|
            0 < j < parent.len() ==> #[trigger] parent@[j].0 < j && paths[j] == paths[parent@[j].0 as int].push(
                parent@[j].1,
            ),
    ensures
        w@ == paths[k as int],
{
    let mut acc: Vec<u8> = Vec::new();
    let mut cur: usize = k;
    while cur > 0
        invariant
            cur < parent.len(),
            paths.len() == parent.len(),
            paths[0] == Seq::<u8>::empty(),
            forall|j: int|
                0 < j < parent.len() ==> #[trigger] parent@[j].0 < j && paths[j] == paths[parent@[j].0 as int].push(
                    parent@[j].1,
                ),
            paths[k as int] == paths[cur as int] + acc@,
        decreases cur,
    {
        let (prev, byte) = parent[cur];
        proof {
            assert(parent@[cur as int].0 < cur);
            assert(paths[cur as int] == paths[prev as int].push(byte));
            assert(paths[prev as int].push(byte) + acc@ =~= paths[prev as int] + acc@.insert(0, byte));
        }
        acc.insert(0, byte);
        cur = prev;
    }
    proof {
        assert(paths[0] + acc@ =~= acc@);
    }
    acc
}

impl PatternDfa {
    /// Builds the DFA of `pattern`, or returns the builder's error.
    pub fn new(pattern: &str) -> (r: Result<PatternDfa, BuildError>)
        ensures
            r is Ok == dfa_builds(pattern@),
            r matches Ok(d) ==> d@ == pattern@ && dead_state_absorbing(d@),
    {
        compile(pattern)
    }
}

/// The first byte string, in shortlex order (shortest, then least byte by
/// byte), that both automata match in full, or `None` when
/// no byte string is matched by both. Breadth-first search over pairs of
/// states, from the pair of start states, skipping pairs with a dead side.
pub fn shortest_common_bytes(da: &PatternDfa, db: &PatternDfa) -> (r: Option<Vec<u8>>)
    requires
        dfa_builds(da@),
        dfa_builds(db@),
        dead_state_absorbing(da@),
        dead_state_absorbing(db@),
    ensures
        match r {
            Some(w) => common_match(da@, db@, w@) && (forall|v: Seq<u8>|
                v.len() < w@.len() ==> !#[trigger] common_match(da@, db@, v)) && forall|v: Seq<u8>|
                shortlex_lt(v, w@) ==> !#[trigger] common_match(da@, db@, v),
            None => forall|v: Seq<u8>| !#[trigger] common_match(da@, db@, v),
        },
{
    let ghost pa = da@;
    let ghost pb = db@;
    let sa0 = match start_state(da) {
        Some(s) => s,
        None => return None,
    };
    let sb0 = match start_state(db) {
        Some(s) => s,
        None => return None,
    };
    let mut nodes: Vec<(u32, u32)> = Vec::new();
    let mut parent: Vec<(usize, u8)> = Vec::new();
    let mut index: HashMap<u64, usize> = HashMap::new();
    let ghost mut paths: Seq<Seq<u8>> = seq![Seq::<u8>::empty()];
    nodes.push((sa0, sb0));
    parent.push((0, 0));
    let k0 = make_key(sa0, sb0);
    index.insert(k0, 0);
    proof {
        assert forall|w: Seq<u8>| w.len() <= 0 implies w =~= Seq::<u8>::empty() by {}
    }
    let mut head: usize = 0;
    while head < nodes.len()
        invariant
            dfa_start(pa) == Some(sa0),
            dfa_start(pb) == Some(sb0),
            dead_state_absorbing(pa),
            dead_state_absorbing(pb),
            dfa_builds(pa),
            dfa_builds(pb),
            pa == da@,
            pb == db@,
            nodes.len() >= 1,
            nodes.len() == parent.len(),
            nodes.len() == paths.len(),
            head <= nodes.len(),
            paths[0] == Seq::<u8>::empty(),
            forall|k: int| 0 <= k < nodes.len() ==> #[trigger] nodes@[k] == joint(pa, pb, sa0, sb0, paths[k]),
            forall|j: int|
                0 < j < parent.len() ==> #[trigger] parent@[j].0 < j && paths[j] == paths[parent@[j].0 as int].push(
                    parent@[j].1,
                ),
            forall|k: int|
                #![trigger nodes@[k]] 0 <= k < nodes.len() ==> index@.contains_key(pair_key(nodes@[k])) && index@[pair_key(nodes@[k])] == k,
            forall|key: u64|
                #[trigger] index@.contains_key(key) ==> index@[key] < nodes.len() && pair_key(nodes@[index@[key] as int]) == key,
            forall|k: int|
                0 <= k < head ==> !(dfa_is_match(pa, dfa_eoi(pa, (#[trigger] nodes@[k]).0)) && dfa_is_match(pb, dfa_eoi(pb, nodes@[k].1))),
            forall|k: int, c: u8|
                0 <= k < head ==> #[trigger] dfa_next(pa, nodes@[k].0, c) == DEAD_STATE || dfa_next(pb, nodes@[k].1, c) == DEAD_STATE
                    || (index@.contains_key(pair_key((dfa_next(pa, nodes@[k].0, c), dfa_next(pb, nodes@[k].1, c))))
                    && shortlex_le(
                    paths[index@[pair_key((dfa_next(pa, nodes@[k].0, c), dfa_next(pb, nodes@[k].1, c)))] as int],
                    paths[k].push(c),
                )),
            forall|j: int, k: int| 0 <= j < k < nodes.len() ==> shortlex_lt(#[trigger] paths[j], #[trigger] paths[k]),
            forall|j: int| 0 < j < parent.len() ==> (#[trigger] parent@[j]).0 < head,
            forall|j: int, k: int| 0 <= j <= k < nodes.len() ==> (#[trigger] paths[j]).len() <= (#[trigger] paths[k]).len(),
            head < nodes.len() ==> forall|k: int| 0 <= k < nodes.len() ==> (#[trigger] paths[k]).len() <= paths[head as int].len() + 1,
            head < nodes.len() ==> forall|w: Seq<u8>|
                w.len() <= paths[head as int].len() && live(pa, sa0, w) && live(pb, sb0, w) ==> index@.contains_key(
                    pair_key(#[trigger] joint(pa, pb, sa0, sb0, w)),
                ) && paths[index@[pair_key(joint(pa, pb, sa0, sb0, w))] as int].len() <= w.len() && shortlex_le(
                    paths[index@[pair_key(joint(pa, pb, sa0, sb0, w))] as int],
                    w,
                ),
        decreases usize::MAX - head,
    {
        let (sa, sb) = nodes[head];
        proof {
            assert(nodes@[head as int] == joint(pa, pb, sa0, sb0, paths[head as int]));
            assert(run_from_start(pa, paths[head as int]) == sa);
            assert(run_from_start(pb, paths[head as int]) == sb);
        }
        let ea = next_eoi_state(da, sa);
        let eb = next_eoi_state(db, sb);
        if is_match_state(da, ea) && is_match_state(db, eb) {
            let w = trace_path(&parent, head, Ghost(paths));
            proof {
                assert(common_match(pa, pb, w@));
                assert forall|v: Seq<u8>| v.len() < w@.len() implies !#[trigger] common_match(pa, pb, v) by {
                    if common_match(pa, pb, v) {
                        lemma_accepts_live(pa, sa0, v);
                        lemma_accepts_live(pb, sb0, v);
                        let q = joint(pa, pb, sa0, sb0, v);
                        let k = index@[pair_key(q)] as int;
                        lemma_pair_key_injective(nodes@[k], q);
                        if k >= head {
                            assert(paths[head as int].len() <= paths[k].len());
                        }
                        assert(k < head);
                    }
                }
                assert forall|v: Seq<u8>| shortlex_lt(v, w@) implies !#[trigger] common_match(pa, pb, v) by {
                    if common_match(pa, pb, v) {
                        lemma_accepts_live(pa, sa0, v);
                        lemma_accepts_live(pb, sb0, v);
                        let q = joint(pa, pb, sa0, sb0, v);
                        let k = index@[pair_key(q)] as int;
                        lemma_pair_key_injective(nodes@[k], q);
                        lemma_shortlex_le_lt(paths[k], v, w@);
                        if k == head {
                            lemma_shortlex_irrefl(paths[k]);
                        } else if k > head {
                            lemma_shortlex_trans(paths[k], paths[head as int], paths[k]);
                            lemma_shortlex_irrefl(paths[k]);
                        }
                        assert(k < head);
                    }
                }
            }
            return Some(w);
        }
        let ghost d = paths[head as int].len();
        let mut byte: u32 = 0;
        while byte < 256
            invariant
                dfa_start(pa) == Some(sa0),
                dfa_start(pb) == Some(sb0),
                dead_state_absorbing(pa),
                dead_state_absorbing(pb),
                pa == da@,
                pb == db@,
                head < nodes.len(),
                nodes@[head as int] == (sa, sb),
                d == paths[head as int].len(),
                byte <= 256,
                nodes.len() == parent.len(),
                nodes.len() == paths.len(),
                paths[0] == Seq::<u8>::empty(),
                forall|k: int| 0 <= k < nodes.len() ==> #[trigger] nodes@[k] == joint(pa, pb, sa0, sb0, paths[k]),
                forall|j: int|
                    0 < j < parent.len() ==> #[trigger] parent@[j].0 < j && paths[j] == paths[parent@[j].0 as int].push(
                        parent@[j].1,
                    ),
                forall|k: int|
                    #![trigger nodes@[k]] 0 <= k < nodes.len() ==> index@.contains_key(pair_key(nodes@[k])) && index@[pair_key(nodes@[k])] == k,
                forall|key: u64|
                    #[trigger] index@.contains_key(key) ==> index@[key] < nodes.len() && pair_key(nodes@[index@[key] as int]) == key,
                forall|k: int|
                    0 <= k <= head ==> !(dfa_is_match(pa, dfa_eoi(pa, (#[trigger] nodes@[k]).0)) && dfa_is_match(pb, dfa_eoi(pb, nodes@[k].1))),
                forall|k: int, c: u8|
                    (0 <= k < head || (k == head && c < byte)) ==> #[trigger] dfa_next(pa, nodes@[k].0, c) == DEAD_STATE || dfa_next(pb, nodes@[k].1, c) == DEAD_STATE
                        || (index@.contains_key(pair_key((dfa_next(pa, nodes@[k].0, c), dfa_next(pb, nodes@[k].1, c))))
                        && shortlex_le(
                        paths[index@[pair_key((dfa_next(pa, nodes@[k].0, c), dfa_next(pb, nodes@[k].1, c)))] as int],
                        paths[k].push(c),
                    )),
                forall|j: int, k: int| 0 <= j < k < nodes.len() ==> shortlex_lt(#[trigger] paths[j], #[trigger] paths[k]),
                forall|j: int|
                    0 < j < parent.len() ==> (#[trigger] parent@[j]).0 < head || (parent@[j].0 == head && parent@[j].1 < byte),
                forall|j: int, k: int| 0 <= j <= k < nodes.len() ==> (#[trigger] paths[j]).len() <= (#[trigger] paths[k]).len(),
                forall|k: int| 0 <= k < nodes.len() ==> (#[trigger] paths[k]).len() <= d + 1,
                forall|w: Seq<u8>|
                    w.len() <= d && live(pa, sa0, w) && live(pb, sb0, w) ==> index@.contains_key(
                        pair_key(#[trigger] joint(pa, pb, sa0, sb0, w)),
                    ) && paths[index@[pair_key(joint(pa, pb, sa0, sb0, w))] as int].len() <= w.len() && shortlex_le(
                    paths[index@[pair_key(joint(pa, pb, sa0, sb0, w))] as int],
                    w,
                ),
            decreases 256 - byte,
        {
            let b = byte as u8;
            proof {
                assert(nodes@[head as int] == joint(pa, pb, sa0, sb0, paths[head as int]));
                assert(run_from_start(pa, paths[head as int]) == sa);
                assert(run_from_start(pb, paths[head as int]) == sb);
            }
            let na = next_state(da, sa, b);
            let nb = next_state(db, sb, b);
            let dead_a = is_dead_state(da, na);
            let dead_b = is_dead_state(db, nb);
            proof {
                let np = paths[head as int].push(b);
                assert forall|j: int| 0 <= j < nodes.len() implies shortlex_lt(#[trigger] paths[j], np) by {
                    if j == 0 {
                    } else {
                        let m = parent@[j].0 as int;
                        let c2 = parent@[j].1;
                        if m < head {
                            lemma_shortlex_push(paths[m], paths[head as int], c2, b);
                        } else {
                            lemma_shortlex_last(paths[head as int], c2, b);
                        }
                    }
                }
            }
            if !dead_a && !dead_b {
                let key = make_key(na, nb);
                if !index.contains_key(&key) {
                    let n = nodes.len();
                    proof {
                        lemma_run_push(pa, sa0, paths[head as int], b);
                        lemma_run_push(pb, sb0, paths[head as int], b);
                        paths = paths.push(paths[head as int].push(b));
                    }
                    let ghost old_index = index@;
                    let ghost old_nodes = nodes@;
                    let ghost old_paths = paths.drop_last();
                    nodes.push((na, nb));
                    parent.push((head, b));
                    index.insert(key, n);
                    proof {
                        assert forall|key2: u64| #[trigger] index@.contains_key(key2) implies index@[key2] < nodes.len()
                            && pair_key(nodes@[index@[key2] as int]) == key2 by {
                            if key2 != key {
                                assert(old_index.contains_key(key2));
                            }
                        }
                        assert forall|k: int| #![trigger nodes@[k]] 0 <= k < nodes.len() implies index@.contains_key(pair_key(nodes@[k]))
                            && index@[pair_key(nodes@[k])] == k by {
                            if k < n {
                                assert(nodes@[k] == old_nodes[k]);
                            }
                        }
                        assert forall|j: int, k: int| 0 <= j < k < nodes.len() implies shortlex_lt(#[trigger] paths[j], #[trigger] paths[k]) by {
                            if k < n {
                                assert(paths[j] == old_paths[j] && paths[k] == old_paths[k]);
                            } else {
                                assert(paths[j] == old_paths[j]);
                            }
                        }
                    }
                }
            }
            byte = byte + 1;
        }
        proof {
            assert forall|j: int| 0 < j < parent.len() implies (#[trigger] parent@[j]).0 < head + 1 by {
                assert(parent@[j].0 < head || (parent@[j].0 == head && parent@[j].1 < 256));
            }
        }
        head = head + 1;
        proof {
            if head < nodes.len() {
                assert forall|w: Seq<u8>|
                    w.len() <= paths[head as int].len() && live(pa, sa0, w) && live(pb, sb0, w) implies index@.contains_key(
                        pair_key(#[trigger] joint(pa, pb, sa0, sb0, w)),
                    ) && paths[index@[pair_key(joint(pa, pb, sa0, sb0, w))] as int].len() <= w.len() && shortlex_le(
                        paths[index@[pair_key(joint(pa, pb, sa0, sb0, w))] as int],
                        w,
                    ) by {
                    if w.len() > d {
                        let v = w.drop_last();
                        let c = w.last();
                        lemma_live_drop_last(pa, sa0, w);
                        lemma_live_drop_last(pb, sb0, w);
                        let q = joint(pa, pb, sa0, sb0, v);
                        let k = index@[pair_key(q)] as int;
                        lemma_pair_key_injective(nodes@[k], q);
                        if k >= head {
                            assert(paths[head as int].len() <= paths[k].len());
                        }
                        assert(dfa_next(pa, nodes@[k].0, c) == run(pa, sa0, w));
                        assert(dfa_next(pb, nodes@[k].1, c) == run(pb, sb0, w));
                        assert(w =~= v.push(c));
                        lemma_shortlex_le_push(paths[k], v, c);
                        let k2 = index@[pair_key(joint(pa, pb, sa0, sb0, w))] as int;
                        lemma_shortlex_le_trans(paths[k2], paths[k].push(c), w);
                    }
                }
            }
        }
    }
    proof {
        assert forall|v: Seq<u8>| !#[trigger] common_match(pa, pb, v) by {
            if common_match(pa, pb, v) {
                lemma_accepts_live(pa, sa0, v);
                lemma_accepts_live(pb, sb0, v);
                lemma_all_reached(pa, pb, sa0, sb0, v, nodes@, index@, paths);
                let q = joint(pa, pb, sa0, sb0, v);
                let k = index@[pair_key(q)] as int;
                lemma_pair_key_injective(nodes@[k], q);
            }
        }
    }
    None
}

/// When every visited pair has had its live successors visited, every input
/// that stays live in both automata leads to a visited pair.
proof fn lemma_all_reached(
    pa: Seq<char>,
    pb: Seq<char>,
    sa0: u32,
    sb0: u32,
    w: Seq<u8>,
    nodes: Seq<(u32, u32)>,
    index: Map<u64, usize>,
    paths: Seq<Seq<u8>>,
)
    requires
        nodes.len() >= 1,
        nodes.len() == paths.len(),
        paths[0] == Seq::<u8>::empty(),
        forall|k: int| 0 <= k < nodes.len() ==> #[trigger] nodes[k] == joint(pa, pb, sa0, sb0, paths[k]),
        forall|k: int|
            #![trigger nodes[k]] 0 <= k < nodes.len() ==> index.contains_key(pair_key(nodes[k])) && index[pair_key(nodes[k])] == k,
        forall|key: u64|
            #[trigger] index.contains_key(key) ==> index[key] < nodes.len() && pair_key(nodes[index[key] as int]) == key,
        forall|k: int, c: u8|
            0 <= k < nodes.len() ==> #[trigger] dfa_next(pa, nodes[k].0, c) == DEAD_STATE || dfa_next(pb, nodes[k].1, c) == DEAD_STATE
                || index.contains_key(pair_key((dfa_next(pa, nodes[k].0, c), dfa_next(pb, nodes[k].1, c)))),
        live(pa, sa0, w),
        live(pb, sb0, w),
    ensures
        index.contains_key(pair_key(joint(pa, pb, sa0, sb0, w))),
    decreases w.len(),
{
    if w.len() == 0 {
        assert(nodes[0] == joint(pa, pb, sa0, sb0, w));
    } else {
        let v = w.drop_last();
        lemma_live_drop_last(pa, sa0, w);
        lemma_live_drop_last(pb, sb0, w);
        lemma_all_reached(pa, pb, sa0, sb0, v, nodes, index, paths);
        let q = joint(pa, pb, sa0, sb0, v);
        let k = index[pair_key(q)] as int;
        lemma_pair_key_injective(nodes[k], q);
        assert(dfa_next(pa, nodes[k].0, w.last()) == run(pa, sa0, w));
    }
}

/// Failure to build the automaton of one of the two patterns.
#[derive(Debug)]
pub enum Error {
    InvalidRegexA(BuildError),
    InvalidRegexB(BuildError),
}

/// Some byte string is matched in full by both patterns.
pub open spec fn languages_intersect(pa: Seq<char>, pb: Seq<char>) -> bool {
    exists|w: Seq<u8>| #[trigger] common_match(pa, pb, w)
}

/// `w` is matched by both patterns and no byte string before it in
/// shortlex order is (so none is shorter, and none of its length is
/// smaller byte by byte).
pub open spec fn shortest_common(pa: Seq<char>, pb: Seq<char>, w: Seq<u8>) -> bool {
    &&& common_match(pa, pb, w)
    &&& forall|v: Seq<u8>| v.len() < w.len() ==> !#[trigger] common_match(pa, pb, v)
    &&& forall|v: Seq<u8>| shortlex_lt(v, w) ==> !#[trigger] common_match(pa, pb, v)
}

/// Whether the language of `pattern` holds the empty string; `false` when
/// the pattern does not compile.
pub fn regex_matches_empty(pattern: &str) -> (r: bool)
    ensures
        r == full_match(pattern@, Seq::<u8>::empty()),
{
    let d = match PatternDfa::new(pattern) {
        Ok(d) => d,
        Err(_) => return false,
    };
    let s = match start_state(&d) {
        Some(s) => s,
        None => return false,
    };
    proof {
        assert(run_from_start(d@, Seq::<u8>::empty()) == s);
    }
    let e = next_eoi_state(&d, s);
    is_match_state(&d, e)
}

/// The first string in shortlex order matched in full by both `a` and `b`, decoded from its
/// bytes as UTF-8 with replacement characters; `None` when the two languages
/// are disjoint; an error naming the side whose pattern does not compile.
pub fn do_regexs_intersect(a: &str, b: &str) -> (r: Result<Option<String>, Error>)
    ensures
        r matches Err(Error::InvalidRegexA(_)) <==> !dfa_builds(a@),
        r matches Err(Error::InvalidRegexB(_)) <==> dfa_builds(a@) && !dfa_builds(b@),
        r matches Ok(Some(s)) ==> exists|w: Seq<u8>|
            #[trigger] shortest_common(a@, b@, w) && s@ == utf8_lossy(w) && (s@.len() == 0 <==> w.len() == 0),
        r is Ok ==> (r matches Ok(Some(_)) <==> languages_intersect(a@, b@)),
{
    let da = match PatternDfa::new(a) {
        Ok(d) => d,
        Err(e) => return Err(Error::InvalidRegexA(e)),
    };
    let db = match PatternDfa::new(b) {
        Ok(d) => d,
        Err(e) => return Err(Error::InvalidRegexB(e)),
    };
    match shortest_common_bytes(&da, &db) {
        Some(w) => {
            let s = decode_lossy(&w);
            proof {
                assert(shortest_common(a@, b@, w@));
            }
            Ok(Some(s))
        },
        None => Ok(None),
    }
}

/// Whether two patterns share a string does not depend on their order.
pub proof fn intersection_symmetric(pa: Seq<char>, pb: Seq<char>)
    ensures
        languages_intersect(pa, pb) == languages_intersect(pb, pa),
{
    if languages_intersect(pa, pb) {
        let w = choose|w: Seq<u8>| #[trigger] common_match(pa, pb, w);
        assert(common_match(pb, pa, w));
    }
    if languages_intersect(pb, pa) {
        let w = choose|w: Seq<u8>| #[trigger] common_match(pb, pa, w);
        assert(common_match(pa, pb, w));
    }
}

proof fn lemma_lex_total(a: Seq<u8>, b: Seq<u8>)
    requires
        a.len() == b.len(),
        a != b,
    ensures
        lex_lt(a, b) || lex_lt(b, a),
    decreases a.len(),
{
    if a.len() == 0 {
        assert(a =~= b);
    } else if a[0] != b[0] {
        assert(a.subrange(0, 0) =~= b.subrange(0, 0));
        if a[0] < b[0] {
            assert(lex_lt(a, b));
        } else {
            assert(lex_lt(b, a));
        }
    } else {
        let ta = a.drop_first();
        let tb = b.drop_first();
        if ta == tb {
            assert(a =~= seq![a[0]] + ta);
            assert(b =~= seq![b[0]] + tb);
        }
        lemma_lex_total(ta, tb);
        if lex_lt(ta, tb) {
            let i = choose|i: int| 0 <= i < ta.len() && i < tb.len() && #[trigger] ta[i] < tb[i] && ta.subrange(0, i) == tb.subrange(0, i);
            assert(a[i + 1] == ta[i] && b[i + 1] == tb[i]);
            assert forall|k: int| 0 <= k < i + 1 implies a[k] == b[k] by {
                if k > 0 {
                    assert(ta.subrange(0, i)[k - 1] == tb.subrange(0, i)[k - 1]);
                }
            }
            assert(a.subrange(0, i + 1) =~= b.subrange(0, i + 1));
            assert(lex_lt(a, b));
        } else {
            let i = choose|i: int| 0 <= i < tb.len() && i < ta.len() && #[trigger] tb[i] < ta[i] && tb.subrange(0, i) == ta.subrange(0, i);
            assert(a[i + 1] == ta[i] && b[i + 1] == tb[i]);
            assert forall|k: int| 0 <= k < i + 1 implies a[k] == b[k] by {
                if k > 0 {
                    assert(ta.subrange(0, i)[k - 1] == tb.subrange(0, i)[k - 1]);
                }
            }
            assert(b.subrange(0, i + 1) =~= a.subrange(0, i + 1));
            assert(lex_lt(b, a));
        }
    }
}

/// The witness of an intersection does not depend on the order of the two
/// patterns: both orders have the same least common byte string.
pub proof fn intersection_witness_symmetric(pa: Seq<char>, pb: Seq<char>, w1: Seq<u8>, w2: Seq<u8>)
    requires
        shortest_common(pa, pb, w1),
        shortest_common(pb, pa, w2),
    ensures
        w1 == w2,
{
    if w1 != w2 {
        if w1.len() != w2.len() {
            assert(shortlex_lt(w1, w2) || shortlex_lt(w2, w1));
        } else {
            lemma_lex_total(w1, w2);
        }
        if shortlex_lt(w1, w2) {
            assert(!common_match(pb, pa, w1));
        } else {
            assert(!common_match(pa, pb, w2));
        }
    }
}

/// A witness is matched in full by both patterns, and no shorter string is.
pub proof fn witness_is_shortest_common(pa: Seq<char>, pb: Seq<char>, w: Seq<u8>, v: Seq<u8>)
    requires
        shortest_common(pa, pb, w),
    ensures
        full_match(pa, w),
        full_match(pb, w),
        v.len() < w.len() ==> !(full_match(pa, v) && full_match(pb, v)),
{
    if v.len() < w.len() {
        assert(!common_match(pa, pb, v));
    }
}

} // verus!
