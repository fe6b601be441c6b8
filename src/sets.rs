use crate::bnf::{names_unique, prod_view, Bnf, GrammarView, Item, Sym};
use crate::lex::concat3;
use vstd::pervasive::VecAdditionalExecFns;
use crate::regex_intersect::{
    do_regexs_intersect, dfa_builds, languages_intersect, shortest_common, utf8_lossy,
    Error as RegexError,
};
use vstd::prelude::*;
use vstd::string::*;

verus! {

/// The mathematical value of a set element.
pub enum SItem {
    Terminal(Seq<char>),
    Regex(Seq<char>),
    Epsilon,
    EndOfInput,
}

/// An element of a FIRST or FOLLOW set: a terminal (with its quotes), a
/// regular expression (with its slashes), the empty word, or end of input.
#[derive(Debug)]
pub enum SetItem {
    Terminal(String),
    Regex(String),
    Epsilon,
    EndOfInput,
}

impl View for SetItem {
    type V = SItem;

    open spec fn view(&self) -> SItem {
        match self {
            SetItem::Terminal(s) => SItem::Terminal(s@),
            SetItem::Regex(s) => SItem::Regex(s@),
            SetItem::Epsilon => SItem::Epsilon,
            SetItem::EndOfInput => SItem::EndOfInput,
        }
    }
}

/// The set element that a terminal or regular-expression symbol stands for
/// (meant for those two kinds only; a nonterminal stands for no element).
pub open spec fn sym_item(s: Sym) -> SItem {
    match s {
        Sym::Terminal(t) => SItem::Terminal(t),
        Sym::Regex(t) => SItem::Regex(t),
        Sym::NonTerminal(t) => SItem::Terminal(t),
    }
}

impl SetItem {
    /// A copy of this element.
    pub fn copy(&self) -> (r: SetItem)
        ensures
            r@ == self@,
    {
        match self {
            SetItem::Terminal(s) => SetItem::Terminal(s.clone()),
            SetItem::Regex(s) => SetItem::Regex(s.clone()),
            SetItem::Epsilon => SetItem::Epsilon,
            SetItem::EndOfInput => SetItem::EndOfInput,
        }
    }

    /// Whether two elements are equal.
    pub fn same(&self, o: &SetItem) -> (r: bool)
        ensures
            r == (self@ == o@),
    {
        match (self, o) {
            (SetItem::Terminal(a), SetItem::Terminal(b)) => *a == *b,
            (SetItem::Regex(a), SetItem::Regex(b)) => *a == *b,
            (SetItem::Epsilon, SetItem::Epsilon) => true,
            (SetItem::EndOfInput, SetItem::EndOfInput) => true,
            _ => false,
        }
    }

    /// The element for a terminal or regular-expression symbol.
    pub fn from_item(item: &Item) -> (r: SetItem)
        requires
            !(item is NonTerminal),
        ensures
            r@ == sym_item(item@),
    {
        match item {
            Item::Terminal(s) => SetItem::Terminal(s.clone()),
            Item::Regex(s) => SetItem::Regex(s.clone()),
            Item::NonTerminal(s) => SetItem::Terminal(s.clone()),
        }
    }
}

/// The values of a list of elements.
pub open spec fn items_view(v: Seq<SetItem>) -> Seq<SItem> {
    v.map_values(|x: SetItem| x@)
}

/// The set of values of a list of elements.
pub open spec fn items_set(v: Seq<SetItem>) -> Set<SItem> {
    Set::new(|x: SItem| exists|i: int| 0 <= i < v.len() && v[i]@ == x)
}

proof fn lemma_items_set_push(v: Seq<SetItem>, x: SetItem)
    ensures
        items_set(v.push(x)) == items_set(v).insert(x@),
{
    assert forall|y: SItem| items_set(v.push(x)).contains(y) == items_set(v).insert(x@).contains(y) by {
        if items_set(v.push(x)).contains(y) {
            let k = choose|k: int| 0 <= k < v.len() + 1 && (#[trigger] v.push(x)[k])@ == y;
            if k < v.len() {
                assert(v[k]@ == y);
            }
        }
        if items_set(v).contains(y) {
            let k = choose|k: int| 0 <= k < v.len() && (#[trigger] v[k])@ == y;
            assert(v.push(x)[k]@ == y);
        }
        assert(v.push(x)[v.len() as int] == x);
    }
    assert(items_set(v.push(x)) =~= items_set(v).insert(x@));
}

/// Whether `x` occurs in `v`.
pub fn contains_item(v: &Vec<SetItem>, x: &SetItem) -> (r: bool)
    ensures
        r == items_set(v@).contains(x@),
{
    let mut i: usize = 0;
    while i < v.len()
        invariant
            i <= v.len(),
            forall|j: int| 0 <= j < i ==> v@[j]@ != x@,
        decreases v.len() - i,
    {
        if v[i].same(x) {
            return true;
        }
        i = i + 1;
    }
    false
}

/// Adds `x` to `v` unless it already occurs there; tells whether it was added.
pub fn add_item(v: &mut Vec<SetItem>, x: SetItem) -> (changed: bool)
    ensures
        items_set(final(v)@) == items_set(old(v)@).insert(x@),
        changed == !items_set(old(v)@).contains(x@),
        if changed {
            final(v)@.len() == old(v)@.len() + 1 && final(v)@.last()@ == x@ && final(v)@.drop_last()
                == old(v)@
        } else {
            final(v)@ == old(v)@
        },
        items_view(old(v)@).no_duplicates() ==> items_view(final(v)@).no_duplicates(),
{
    if contains_item(v, &x) {
        proof {
            assert(items_set(v@).insert(x@) =~= items_set(v@));
        }
        false
    } else {
        let ghost before = v@;
        v.push(x);
        proof {
            assert forall|y: SItem| items_set(v@).contains(y) == items_set(before).insert(x@).contains(y) by {
                assert(v@[before.len() as int]@ == x@);
                if items_set(before).contains(y) {
                    let i = choose|i: int| 0 <= i < before.len() && before[i]@ == y;
                    assert(v@[i] == before[i]);
                }
                if items_set(v@).contains(y) {
                    let i = choose|i: int| 0 <= i < v@.len() && v@[i]@ == y;
                    if i < before.len() {
                        assert(v@[i] == before[i]);
                    }
                }
            }
            assert(items_set(v@) =~= items_set(before).insert(x@));
            assert(v@.drop_last() =~= before);
            if items_view(before).no_duplicates() {
                assert forall|i: int, j: int|
                    0 <= i < items_view(v@).len() && 0 <= j < items_view(v@).len() && i != j implies items_view(v@)[i]
                    != items_view(v@)[j] by {
                    if i < before.len() {
                        assert(v@[i] == before[i]);
                    }
                    if j < before.len() {
                        assert(v@[j] == before[j]);
                    }
                    if i < before.len() && j < before.len() {
                        assert(items_view(before)[i] != items_view(before)[j]);
                    }
                    if i == before.len() && j < before.len() {
                        assert(before[j]@ != x@);
                    }
                    if j == before.len() && i < before.len() {
                        assert(before[i]@ != x@);
                    }
                }
            }
        }
        true
    }
}

/// `s` without a leading `c` (if there is one) and then without a trailing
/// `c`; when the trailing `c` is missing, `s` itself.
pub open spec fn strip_delims(s: Seq<char>, c: char) -> Seq<char> {
    let t = if s.len() > 0 && s[0] == c {
        s.drop_first()
    } else {
        s
    };
    if t.len() > 0 && t.last() == c {
        t.drop_last()
    } else {
        s
    }
}

fn strip_delimiters(s: &str, c: char) -> (r: String)
    ensures
        r@ == strip_delims(s@, c),
{
    let n = s.unicode_len();
    let from: usize = if n > 0 && s.get_char(0) == c {
        1
    } else {
        0
    };
    let t = s.substring_char(from, n);
    let m = t.unicode_len();
    if m > 0 && t.get_char(m - 1) == c {
        t.substring_char(0, m - 1).to_owned()
    } else {
        s.to_owned()
    }
}

/// The pattern of a regular-expression symbol, without its slashes.
pub fn strip_regex_delimiters(s: &str) -> (r: String)
    ensures
        r@ == strip_delims(s@, '/'),
{
    strip_delimiters(s, '/')
}

/// The text of a terminal symbol, without its double quotes.
pub fn strip_terminal_quotes(s: &str) -> (r: String)
    ensures
        r@ == strip_delims(s@, '"'),
{
    strip_delimiters(s, '"')
}

/// The characters that have a meaning of their own in a regular expression.
pub open spec fn is_meta_char(c: char) -> bool {
    c == '\\' || c == '.' || c == '+' || c == '*' || c == '?' || c == '(' || c == ')' || c == '|'
        || c == '[' || c == ']' || c == '{' || c == '}' || c == '^' || c == '$' || c == '#' || c
        == '&' || c == '-' || c == '~'
}

/// `s` with a backslash put before each meta character: a pattern that
/// matches exactly the text `s`.
pub open spec fn escaped(s: Seq<char>) -> Seq<char>
    decreases s.len(),
{
    if s.len() == 0 {
        Seq::empty()
    } else {
        escaped(s.drop_last()) + if is_meta_char(s.last()) {
            seq!['\\', s.last()]
        } else {
            seq![s.last()]
        }
    }
}

/// Relies on `regex_syntax::escape`, which puts a backslash before each
/// meta character.
#[verifier::external_body]
fn escape_pattern(s: &str) -> (r: String)
    ensures
        r@ == escaped(s@),
{
    regex_syntax::escape(s)
}

/// The two texts joined by " or ".
fn join_or(a: &str, b: &str) -> (r: String)
    ensures
        r@ == a@ + " or "@ + b@,
{
    concat3(a, " or ", b)
}

/// Two elements of competing sets that may stand for the same token.
#[derive(Debug)]
pub struct SetItemConflict {
    pub item1: SetItem,
    pub item2: SetItem,
    pub witness: Option<String>,
}

/// A regular expression of the grammar that does not compile.
#[derive(Debug)]
pub enum Ll1Error {
    InvalidRegex { pattern: String, source: RegexError },
}

/// The two patterns handed to the intersection oracle for a pair of
/// elements, when the pair needs one.
pub open spec fn oracle_patterns(x: SItem, y: SItem) -> Option<(Seq<char>, Seq<char>)> {
    match (x, y) {
        (SItem::Regex(p), SItem::Regex(q)) => Some((strip_delims(p, '/'), strip_delims(q, '/'))),
        (SItem::Regex(p), SItem::Terminal(t)) => Some(
            (strip_delims(p, '/'), escaped(strip_delims(t, '"'))),
        ),
        (SItem::Terminal(t), SItem::Regex(p)) => Some(
            (strip_delims(p, '/'), escaped(strip_delims(t, '"'))),
        ),
        _ => None,
    }
}

/// The oracle cannot decide the pair: one of its patterns does not compile.
pub open spec fn pair_fails(x: SItem, y: SItem) -> bool {
    match oracle_patterns(x, y) {
        Some((a, b)) => !(dfa_builds(a) && dfa_builds(b)),
        None => false,
    }
}

/// Two elements could denote the same input token.
pub open spec fn items_overlap(x: SItem, y: SItem) -> bool {
    match (x, y) {
        (SItem::Terminal(s), SItem::Terminal(t)) => strip_delims(s, '"') == strip_delims(t, '"'),
        (SItem::Epsilon, SItem::Epsilon) => true,
        (SItem::EndOfInput, SItem::EndOfInput) => true,
        _ => match oracle_patterns(x, y) {
            Some((a, b)) => languages_intersect(a, b),
            None => false,
        },
    }
}

/// `w` is the decoding of a first byte string, in shortlex order, matched by both `a` and `b`.
pub open spec fn oracle_witness(a: Seq<char>, b: Seq<char>, w: Option<Seq<char>>) -> bool {
    exists|bytes: Seq<u8>| #[trigger] shortest_common(a, b, bytes) && w == Some(utf8_lossy(bytes))
}

/// The witness recorded for an overlapping pair.
pub open spec fn witness_ok(x: SItem, y: SItem, w: Option<Seq<char>>) -> bool {
    match (x, y) {
        (SItem::Terminal(s), SItem::Terminal(_)) => w == Some(strip_delims(s, '"')),
        _ => match oracle_patterns(x, y) {
            Some((a, b)) => oracle_witness(a, b, w),
            None => w is None,
        },
    }
}

/// A conflict record for `x` and `y` with a correct witness.
pub open spec fn conflict_ok(c: SetItemConflict, x: SItem, y: SItem) -> bool {
    &&& c.item1@ == x
    &&& c.item2@ == y
    &&& witness_ok(x, y, opt_view(c.witness))
}

/// The value of an optional string.
pub open spec fn opt_view(o: Option<String>) -> Option<Seq<char>> {
    match o {
        Some(s) => Some(s@),
        None => None,
    }
}

/// The text named by the error for the pair `x`, `y`.
pub open spec fn error_pattern(x: SItem, y: SItem) -> Seq<char> {
    match (x, y) {
        (SItem::Regex(p), SItem::Regex(q)) => p + " or "@ + q,
        (SItem::Regex(p), _) => p,
        (_, SItem::Regex(p)) => p,
        _ => Seq::empty(),
    }
}

/// The error reported when the oracle fails on `x` and `y`: it names the
/// regular expression (both, for two of them) and which side failed.
pub open spec fn error_ok(e: Ll1Error, x: SItem, y: SItem) -> bool {
    match e {
        Ll1Error::InvalidRegex { pattern, source } => {
            &&& pattern@ == error_pattern(x, y)
            &&& match oracle_patterns(x, y) {
                Some((a, b)) => (source is InvalidRegexA <==> !dfa_builds(a)),
                None => false,
            }
        },
    }
}

proof fn lemma_oracle_witness(x: SItem, y: SItem, a: Seq<char>, b: Seq<char>, w: Seq<char>, bytes: Seq<u8>)
    requires
        oracle_patterns(x, y) == Some((a, b)),
        shortest_common(a, b, bytes),
        w == utf8_lossy(bytes),
    ensures
        witness_ok(x, y, Some(w)),
{
    assert(!(x is Terminal && y is Terminal));
    assert(shortest_common(a, b, bytes) && Some(w) == Some(utf8_lossy(bytes)));
    assert(oracle_witness(a, b, Some(w)));
}

fn conflict_of(x: &SetItem, y: &SetItem, witness: Option<String>) -> (c: SetItemConflict)
    ensures
        c.item1@ == x@,
        c.item2@ == y@,
        c.witness == witness,
{
    SetItemConflict { item1: x.copy(), item2: y.copy(), witness }
}

/// Compares two set elements: whether they could denote the same token, with
/// a witness where one exists.
#[verifier::spinoff_prover]
#[verifier::rlimit(60)]
pub fn check_item_conflict(x: &SetItem, y: &SetItem) -> (r: Result<Option<SetItemConflict>, Ll1Error>)
    ensures
        r is Err <==> pair_fails(x@, y@),
        r matches Err(e) ==> error_ok(e, x@, y@),
        r matches Ok(o) ==> (o is Some <==> items_overlap(x@, y@)),
        r matches Ok(Some(c)) ==> conflict_ok(c, x@, y@),
{
    match (x, y) {
        (SetItem::Terminal(t1), SetItem::Terminal(t2)) => {
            let s1 = strip_terminal_quotes(t1.as_str());
            let s2 = strip_terminal_quotes(t2.as_str());
            if s1 == s2 {
                Ok(Some(conflict_of(x, y, Some(s1))))
            } else {
                Ok(None)
            }
        },
        (SetItem::Regex(r1), SetItem::Regex(r2)) => {
            let p1 = strip_regex_delimiters(r1.as_str());
            let p2 = strip_regex_delimiters(r2.as_str());
            match do_regexs_intersect(p1.as_str(), p2.as_str()) {
                Ok(Some(w)) => {
                    let ghost wv = w@;
                    let c = conflict_of(x, y, Some(w));
                    proof {
                        assert(oracle_patterns(x@, y@) == Some((p1@, p2@)));
                        let bytes = choose|bytes: Seq<u8>| #[trigger] shortest_common(p1@, p2@, bytes) && wv == utf8_lossy(bytes);
                        assert(shortest_common(p1@, p2@, bytes) && wv == utf8_lossy(bytes));
                        assert(opt_view(c.witness) == Some(wv));
                        lemma_oracle_witness(x@, y@, p1@, p2@, wv, bytes);
                    }
                    Ok(Some(c))
                },
                Ok(None) => Ok(None),
                Err(e) => Err(
                    Ll1Error::InvalidRegex { pattern: join_or(r1.as_str(), r2.as_str()), source: e },
                ),
            }
        },
        (SetItem::Regex(r), SetItem::Terminal(t)) | (SetItem::Terminal(t), SetItem::Regex(r)) => {
            let pattern = strip_regex_delimiters(r.as_str());
            let text = strip_terminal_quotes(t.as_str());
            let escaped_text = escape_pattern(text.as_str());
            match do_regexs_intersect(pattern.as_str(), escaped_text.as_str()) {
                Ok(Some(w)) => {
                    let ghost wv = w@;
                    let c = conflict_of(x, y, Some(w));
                    proof {
                        assert(oracle_patterns(x@, y@) == Some((pattern@, escaped_text@)));
                        let bytes = choose|bytes: Seq<u8>| #[trigger] shortest_common(pattern@, escaped_text@, bytes) && wv == utf8_lossy(bytes);
                        assert(shortest_common(pattern@, escaped_text@, bytes) && wv == utf8_lossy(bytes));
                        assert(opt_view(c.witness) == Some(wv));
                        lemma_oracle_witness(x@, y@, pattern@, escaped_text@, wv, bytes);
                    }
                    Ok(Some(c))
                },
                Ok(None) => Ok(None),
                Err(e) => Err(Ll1Error::InvalidRegex { pattern: r.clone(), source: e }),
            }
        },
        (SetItem::Epsilon, SetItem::Epsilon) => Ok(Some(conflict_of(x, y, None))),
        (SetItem::EndOfInput, SetItem::EndOfInput) => Ok(Some(conflict_of(x, y, None))),
        _ => Ok(None),
    }
}

/// The overlapping pairs `(x, y)` for `y` in `s2`, in order.
pub open spec fn overlaps_with(x: SItem, s2: Seq<SItem>) -> Seq<(SItem, SItem)>
    decreases s2.len(),
{
    if s2.len() == 0 {
        Seq::empty()
    } else {
        overlaps_with(x, s2.drop_last()) + if items_overlap(x, s2.last()) {
            seq![(x, s2.last())]
        } else {
            Seq::empty()
        }
    }
}

/// The overlapping pairs of `s1 × s2`, row by row.
pub open spec fn overlap_pairs(s1: Seq<SItem>, s2: Seq<SItem>) -> Seq<(SItem, SItem)>
    decreases s1.len(),
{
    if s1.len() == 0 {
        Seq::empty()
    } else {
        overlap_pairs(s1.drop_last(), s2) + overlaps_with(s1.last(), s2)
    }
}

/// The pairs of elements that a list of conflicts records.
pub open spec fn conflict_pairs(cs: Seq<SetItemConflict>) -> Seq<(SItem, SItem)> {
    cs.map_values(|c: SetItemConflict| (c.item1@, c.item2@))
}

/// Some pair of `s1 × s2` cannot be decided.
pub open spec fn some_pair_fails(s1: Seq<SItem>, s2: Seq<SItem>) -> bool {
    exists|i: int, j: int| 0 <= i < s1.len() && 0 <= j < s2.len() && #[trigger] pair_fails(s1[i], s2[j])
}

/// Every conflict of the list carries a correct witness.
pub open spec fn witnesses_ok(cs: Seq<SetItemConflict>) -> bool {
    forall|k: int| 0 <= k < cs.len() ==> #[trigger] conflict_ok(cs[k], cs[k].item1@, cs[k].item2@)
}

/// All pairs of elements of `set1 × set2` that could denote the same token,
/// row by row, each with its witness; an error when a regular expression
/// met on the way does not compile.
pub fn find_set_conflicts(set1: &Vec<SetItem>, set2: &Vec<SetItem>) -> (r: Result<Vec<SetItemConflict>, Ll1Error>)
    ensures
        r is Err <==> some_pair_fails(items_view(set1@), items_view(set2@)),
        r matches Err(e) ==> exists|i: int, j: int|
            0 <= i < set1@.len() && 0 <= j < set2@.len() && #[trigger] error_ok(e, set1@[i]@, set2@[j]@)
                && pair_fails(set1@[i]@, set2@[j]@),
        r matches Ok(cs) ==> conflict_pairs(cs@) == overlap_pairs(items_view(set1@), items_view(set2@))
            && witnesses_ok(cs@),
{
    let ghost v1 = items_view(set1@);
    let ghost v2 = items_view(set2@);
    let mut conflicts: Vec<SetItemConflict> = Vec::new();
    let mut i: usize = 0;
    while i < set1.len()
        invariant
            i <= set1.len(),
            v1 == items_view(set1@),
            v2 == items_view(set2@),
            conflict_pairs(conflicts@) == overlap_pairs(v1.subrange(0, i as int), v2),
            witnesses_ok(conflicts@),
            forall|a: int, b: int| 0 <= a < i && 0 <= b < v2.len() ==> !#[trigger] pair_fails(v1[a], v2[b]),
        decreases set1.len() - i,
    {
        let mut j: usize = 0;
        while j < set2.len()
            invariant
                i < set1.len(),
                j <= set2.len(),
                v1 == items_view(set1@),
                v2 == items_view(set2@),
                conflict_pairs(conflicts@) == overlap_pairs(v1.subrange(0, i as int), v2) + overlaps_with(
                    v1[i as int],
                    v2.subrange(0, j as int),
                ),
                witnesses_ok(conflicts@),
                forall|a: int, b: int| 0 <= a < i && 0 <= b < v2.len() ==> !#[trigger] pair_fails(v1[a], v2[b]),
                forall|b: int| 0 <= b < j ==> !#[trigger] pair_fails(v1[i as int], v2[b]),
            decreases set2.len() - j,
        {
            let ghost before = conflicts@;
            proof {
                assert(v2.subrange(0, j + 1).drop_last() =~= v2.subrange(0, j as int));
            }
            match check_item_conflict(&set1[i], &set2[j]) {
                Ok(Some(c)) => {
                    conflicts.push(c);
                    proof {
                        assert(conflict_pairs(conflicts@) =~= conflict_pairs(before).push((v1[i as int], v2[j as int])));
                    }
                },
                Ok(None) => {},
                Err(e) => {
                    proof {
                        assert(pair_fails(v1[i as int], v2[j as int]));
                    }
                    return Err(e);
                },
            }
            j = j + 1;
        }
        proof {
            assert(v2.subrange(0, j as int) =~= v2);
            assert(v1.subrange(0, i + 1).drop_last() =~= v1.subrange(0, i as int));
        }
        i = i + 1;
    }
    proof {
        assert(v1.subrange(0, i as int) =~= v1);
    }
    Ok(conflicts)
}

/// A table from nonterminal names to sets of elements, in rule order.
pub type TableView = Seq<(Seq<char>, Set<SItem>)>;

/// The value of a table.
pub open spec fn table_view(t: Seq<(String, Vec<SetItem>)>) -> TableView {
    t.map_values(|e: (String, Vec<SetItem>)| (e.0@, items_set(e.1@)))
}

/// No two entries of the table share a name.
pub open spec fn table_keys_unique(t: TableView) -> bool {
    forall|i: int, j: int| 0 <= i < t.len() && 0 <= j < t.len() && i != j ==> t[i].0 != t[j].0
}

/// The set that the table holds for `n`; empty when `n` has no entry.
pub open spec fn lookup(t: TableView, n: Seq<char>) -> Set<SItem> {
    if exists|k: int| 0 <= k < t.len() && #[trigger] t[k].0 == n {
        t[choose|k: int| 0 <= k < t.len() && #[trigger] t[k].0 == n].1
    } else {
        Set::empty()
    }
}

/// A table as a function of names.
pub open spec fn table_fn(t: TableView) -> spec_fn(Seq<char>) -> Set<SItem> {
    |n: Seq<char>| lookup(t, n)
}

/// FIRST of a sequence of symbols, without the empty word, given FIRST of
/// each nonterminal: a terminal contributes itself and ends the scan, a
/// nonterminal contributes its FIRST and lets the scan go on only when its
/// FIRST holds the empty word.
pub open spec fn seq_first(alpha: Seq<Sym>, f: spec_fn(Seq<char>) -> Set<SItem>) -> Set<SItem>
    decreases alpha.len(),
{
    if alpha.len() == 0 {
        Set::empty()
    } else {
        match alpha[0] {
            Sym::NonTerminal(n) => if f(n).contains(SItem::Epsilon) {
                f(n).remove(SItem::Epsilon).union(seq_first(alpha.drop_first(), f))
            } else {
                f(n).remove(SItem::Epsilon)
            },
            _ => set![sym_item(alpha[0])],
        }
    }
}

/// A sequence derives the empty word, given FIRST of each nonterminal: all
/// its symbols are nonterminals whose FIRST holds the empty word.
pub open spec fn seq_nullable(alpha: Seq<Sym>, f: spec_fn(Seq<char>) -> Set<SItem>) -> bool
    decreases alpha.len(),
{
    if alpha.len() == 0 {
        true
    } else {
        match alpha[0] {
            Sym::NonTerminal(n) => f(n).contains(SItem::Epsilon) && seq_nullable(alpha.drop_first(), f),
            _ => false,
        }
    }
}

/// The index of the entry named `name`.
pub fn find_entry(t: &Vec<(String, Vec<SetItem>)>, name: &String) -> (r: Option<usize>)
    ensures
        match r {
            Some(k) => k < t@.len() && t@[k as int].0@ == name@,
            None => forall|k: int| 0 <= k < t@.len() ==> t@[k].0@ != name@,
        },
{
    let mut i: usize = 0;
    while i < t.len()
        invariant
            i <= t@.len(),
            forall|k: int| 0 <= k < i ==> t@[k].0@ != name@,
        decreases t.len() - i,
    {
        if t[i].0 == *name {
            return Some(i);
        }
        i = i + 1;
    }
    None
}

pub(crate) proof fn lemma_lookup_at(t: TableView, k: int)
    requires
        table_keys_unique(t),
        0 <= k < t.len(),
    ensures
        lookup(t, t[k].0) == t[k].1,
{
    let n = t[k].0;
    assert(exists|j: int| 0 <= j < t.len() && #[trigger] t[j].0 == n);
}

proof fn lemma_lookup_absent(t: TableView, n: Seq<char>)
    requires
        forall|k: int| 0 <= k < t.len() ==> t[k].0 != n,
    ensures
        lookup(t, n) == Set::<SItem>::empty(),
{
}

/// Adds to `dst` every element of `src`, but the empty word when `skip_eps`;
/// tells whether `dst` grew.
pub fn union_into(dst: &mut Vec<SetItem>, src: &Vec<SetItem>, skip_eps: bool) -> (changed: bool)
    ensures
        items_set(final(dst)@) == items_set(old(dst)@).union(
            if skip_eps {
                items_set(src@).remove(SItem::Epsilon)
            } else {
                items_set(src@)
            },
        ),
        changed == (items_set(final(dst)@) != items_set(old(dst)@)),
        final(dst)@.len() >= old(dst)@.len(),
        items_view(old(dst)@).no_duplicates() ==> items_view(final(dst)@).no_duplicates(),
        changed == (final(dst)@.len() > old(dst)@.len()),
{
    let ghost start = items_set(dst@);
    let ghost start_len = dst@.len();
    let mut changed = false;
    let mut i: usize = 0;
    while i < src.len()
        invariant
            i <= src@.len(),
            items_set(dst@) == start.union(
                if skip_eps {
                    items_set(src@.subrange(0, i as int)).remove(SItem::Epsilon)
                } else {
                    items_set(src@.subrange(0, i as int))
                },
            ),
            dst@.len() >= start_len,
            changed == (dst@.len() > start_len),
            changed == (items_set(dst@) != start),
            items_view(old(dst)@).no_duplicates() ==> items_view(dst@).no_duplicates(),
            start == items_set(old(dst)@),
            start_len == old(dst)@.len(),
        decreases src.len() - i,
    {
        let ghost before = dst@;
        let x = &src[i];
        let skip = match x {
            SetItem::Epsilon => skip_eps,
            _ => false,
        };
        if !skip {
            let added = add_item(dst, x.copy());
            if added {
                changed = true;
            }
            proof {
                if added {
                    assert(items_set(dst@).contains(x@));
                    assert(!items_set(before).contains(x@));
                }
            }
        }
        proof {
            assert(src@.subrange(0, i + 1) =~= src@.subrange(0, i as int).push(*x));
            lemma_items_set_push(src@.subrange(0, i as int), *x);
            let lhs = if skip_eps {
                items_set(src@.subrange(0, i + 1)).remove(SItem::Epsilon)
            } else {
                items_set(src@.subrange(0, i + 1))
            };
            assert(items_set(dst@) =~= start.union(lhs));
        }
        i = i + 1;
    }
    proof {
        assert(src@.subrange(0, i as int) =~= src@);
    }
    changed
}

/// FIRST and nullability of the symbols of `seq` from position `start` on.
fn first_of_suffix(seq: &[Item], start: usize, first_sets: &Vec<(String, Vec<SetItem>)>) -> (r: (
    Vec<SetItem>,
    bool,
))
    requires
        start <= seq@.len(),
        table_keys_unique(table_view(first_sets@)),
    ensures
        items_set(r.0@) == seq_first(
            prod_view(seq@).subrange(start as int, seq@.len() as int),
            table_fn(table_view(first_sets@)),
        ),
        r.1 == seq_nullable(
            prod_view(seq@).subrange(start as int, seq@.len() as int),
            table_fn(table_view(first_sets@)),
        ),
        items_view(r.0@).no_duplicates(),
{
    let ghost alpha = prod_view(seq@);
    let ghost f = table_fn(table_view(first_sets@));
    let ghost whole = alpha.subrange(start as int, seq@.len() as int);
    let mut firsts: Vec<SetItem> = Vec::new();
    let mut i: usize = start;
    proof {
        assert(items_set(firsts@) =~= Set::<SItem>::empty());
        assert(items_set(firsts@).union(seq_first(whole, f)) =~= seq_first(whole, f));
    }
    while i < seq.len()
        invariant
            start <= i <= seq@.len(),
            alpha == prod_view(seq@),
            f == table_fn(table_view(first_sets@)),
            whole == alpha.subrange(start as int, seq@.len() as int),
            table_keys_unique(table_view(first_sets@)),
            items_set(firsts@).union(seq_first(alpha.subrange(i as int, seq@.len() as int), f)) == seq_first(whole, f),
            seq_nullable(alpha.subrange(i as int, seq@.len() as int), f) == seq_nullable(whole, f),
            items_view(firsts@).no_duplicates(),
        decreases seq.len() - i,
    {
        let ghost rest = alpha.subrange(i as int, seq@.len() as int);
        let ghost next = alpha.subrange(i + 1, seq@.len() as int);
        proof {
            assert(rest.drop_first() =~= next);
            assert(rest[0] == seq@[i as int]@);
        }
        match &seq[i] {
            Item::NonTerminal(name) => {
                match find_entry(first_sets, name) {
                    Some(k) => {
                        proof {
                            lemma_lookup_at(table_view(first_sets@), k as int);
                        }
                        let row = &first_sets[k].1;
                        let has_eps = contains_item(row, &SetItem::Epsilon);
                        let ghost before = items_set(firsts@);
                        union_into(&mut firsts, row, true);
                        if !has_eps {
                            proof {
                                assert(items_set(firsts@) =~= items_set(firsts@).union(seq_first(rest, f)));
                            }
                            return (firsts, false);
                        }
                        proof {
                            assert(items_set(firsts@).union(seq_first(next, f)) =~= before.union(seq_first(rest, f)));
                        }
                    },
                    None => {
                        proof {
                            lemma_lookup_absent(table_view(first_sets@), name@);
                            assert(items_set(firsts@).union(seq_first(rest, f)) =~= items_set(firsts@));
                        }
                        return (firsts, false);
                    },
                }
            },
            _ => {
                let ghost before = items_set(firsts@);
                add_item(&mut firsts, SetItem::from_item(&seq[i]));
                proof {
                    assert(items_set(firsts@) =~= before.union(seq_first(rest, f)));
                }
                return (firsts, false);
            },
        }
        i = i + 1;
    }
    proof {
        assert(alpha.subrange(i as int, seq@.len() as int) =~= Seq::<Sym>::empty());
        assert(items_set(firsts@).union(Set::<SItem>::empty()) =~= items_set(firsts@));
    }
    (firsts, true)
}

/// FIRST of a sequence of symbols without the empty word, and whether the
/// sequence derives the empty word, given FIRST of each nonterminal.
pub fn first_of_sequence(sequence: &[Item], first_sets: &Vec<(String, Vec<SetItem>)>) -> (r: (
    Vec<SetItem>,
    bool,
))
    requires
        table_keys_unique(table_view(first_sets@)),
    ensures
        items_set(r.0@) == seq_first(prod_view(sequence@), table_fn(table_view(first_sets@))),
        r.1 == seq_nullable(prod_view(sequence@), table_fn(table_view(first_sets@))),
        items_view(r.0@).no_duplicates(),
{
    let r = first_of_suffix(sequence, 0, first_sets);
    proof {
        assert(prod_view(sequence@).subrange(0, sequence@.len() as int) =~= prod_view(sequence@));
    }
    r
}

/// The symbols of a list of productions, in order.
pub open spec fn prods_syms(ps: Seq<Seq<Sym>>) -> Seq<Sym>
    decreases ps.len(),
{
    if ps.len() == 0 {
        Seq::empty()
    } else {
        prods_syms(ps.drop_last()) + ps.last()
    }
}

/// The symbols of a grammar, rule by rule.
pub open spec fn grammar_syms(g: GrammarView) -> Seq<Sym>
    decreases g.len(),
{
    if g.len() == 0 {
        Seq::empty()
    } else {
        grammar_syms(g.drop_last()) + prods_syms(g.last().1)
    }
}

/// Every element that a FIRST or FOLLOW set of `g` can hold, listed with
/// repetitions.
pub open spec fn universe(g: GrammarView) -> Seq<SItem> {
    term_items(grammar_syms(g)) + seq![SItem::Epsilon, SItem::EndOfInput]
}

/// The elements for the terminal and regular-expression symbols of `s`, in
/// order; nonterminals are left out.
pub open spec fn term_items(s: Seq<Sym>) -> Seq<SItem>
    decreases s.len(),
{
    if s.len() == 0 {
        Seq::empty()
    } else if s.last() is NonTerminal {
        term_items(s.drop_last())
    } else {
        term_items(s.drop_last()).push(sym_item(s.last()))
    }
}

proof fn lemma_term_items_contains(s: Seq<Sym>, j: int)
    requires
        0 <= j < s.len(),
        !(s[j] is NonTerminal),
    ensures
        term_items(s).contains(sym_item(s[j])),
    decreases s.len(),
{
    if j == s.len() - 1 {
        assert(term_items(s).last() == sym_item(s[j]));
    } else {
        lemma_term_items_contains(s.drop_last(), j);
        let t = term_items(s.drop_last());
        let k = choose|k: int| 0 <= k < t.len() && t[k] == sym_item(s[j]);
        if !(s.last() is NonTerminal) {
            assert(t.push(sym_item(s.last()))[k] == sym_item(s[j]));
        }
    }
}

proof fn lemma_prods_syms_contains(ps: Seq<Seq<Sym>>, p: int, k: int)
    requires
        0 <= p < ps.len(),
        0 <= k < ps[p].len(),
    ensures
        prods_syms(ps).contains(ps[p][k]),
    decreases ps.len(),
{
    if p == ps.len() - 1 {
        let pre = prods_syms(ps.drop_last());
        assert((pre + ps.last())[pre.len() + k] == ps[p][k]);
    } else {
        lemma_prods_syms_contains(ps.drop_last(), p, k);
        let j = choose|j: int| 0 <= j < prods_syms(ps.drop_last()).len() && prods_syms(ps.drop_last())[j] == ps[p][k];
        assert((prods_syms(ps.drop_last()) + ps.last())[j] == ps[p][k]);
    }
}

proof fn lemma_grammar_syms_contains(g: GrammarView, r: int, p: int, k: int)
    requires
        0 <= r < g.len(),
        0 <= p < g[r].1.len(),
        0 <= k < g[r].1[p].len(),
    ensures
        grammar_syms(g).contains(g[r].1[p][k]),
    decreases g.len(),
{
    if r == g.len() - 1 {
        lemma_prods_syms_contains(g[r].1, p, k);
        let pre = grammar_syms(g.drop_last());
        let j = choose|j: int| 0 <= j < prods_syms(g[r].1).len() && prods_syms(g[r].1)[j] == g[r].1[p][k];
        assert((pre + prods_syms(g.last().1))[pre.len() + j] == g[r].1[p][k]);
    } else {
        lemma_grammar_syms_contains(g.drop_last(), r, p, k);
        let pre = grammar_syms(g.drop_last());
        let j = choose|j: int| 0 <= j < pre.len() && pre[j] == g[r].1[p][k];
        assert((pre + prods_syms(g.last().1))[j] == g[r].1[p][k]);
    }
}

/// A symbol of a production of `g` stands for an element of the universe.
proof fn lemma_sym_in_universe(g: GrammarView, r: int, p: int, k: int)
    requires
        0 <= r < g.len(),
        0 <= p < g[r].1.len(),
        0 <= k < g[r].1[p].len(),
        !(g[r].1[p][k] is NonTerminal),
    ensures
        universe(g).to_set().contains(sym_item(g[r].1[p][k])),
{
    lemma_grammar_syms_contains(g, r, p, k);
    let syms = grammar_syms(g);
    let j = choose|j: int| 0 <= j < syms.len() && syms[j] == g[r].1[p][k];
    lemma_term_items_contains(syms, j);
    let t = term_items(syms);
    let i = choose|i: int| 0 <= i < t.len() && t[i] == sym_item(g[r].1[p][k]);
    assert(universe(g)[i] == sym_item(g[r].1[p][k]));
}

/// A duplicate-free row inside the universe is no longer than the universe.
proof fn lemma_row_bound(g: GrammarView, row: Seq<SetItem>)
    requires
        items_view(row).no_duplicates(),
        items_set(row).subset_of(universe(g).to_set()),
    ensures
        row.len() <= universe(g).len(),
{
    let v = items_view(row);
    v.unique_seq_to_set();
    universe(g).lemma_cardinality_of_set();
    assert(v.to_set() =~= items_set(row)) by {
        assert forall|x: SItem| v.to_set().contains(x) implies items_set(row).contains(x) by {
            let i = choose|i: int| 0 <= i < v.len() && v[i] == x;
        }
        assert forall|x: SItem| items_set(row).contains(x) implies v.to_set().contains(x) by {
            let i = choose|i: int| 0 <= i < row.len() && row[i]@ == x;
            assert(v[i] == x);
        }
    }
    vstd::set_lib::lemma_len_subset(items_set(row), universe(g).to_set());
}

/// How much the rows of a table can still grow, each row bounded by `b`.
pub open spec fn slack(t: Seq<(String, Vec<SetItem>)>, b: int) -> int
    decreases t.len(),
{
    if t.len() == 0 {
        0
    } else {
        slack(t.drop_last(), b) + (b - t.last().1@.len())
    }
}

proof fn lemma_slack_update(t: Seq<(String, Vec<SetItem>)>, b: int, r: int, e: (String, Vec<SetItem>))
    requires
        0 <= r < t.len(),
    ensures
        slack(t.update(r, e), b) == slack(t, b) - e.1@.len() + t[r].1@.len(),
    decreases t.len(),
{
    if r == t.len() - 1 {
        assert(t.update(r, e).drop_last() =~= t.drop_last());
    } else {
        assert(t.update(r, e).drop_last() =~= t.drop_last().update(r, e));
        lemma_slack_update(t.drop_last(), b, r, e);
    }
}

proof fn lemma_slack_nonneg(t: Seq<(String, Vec<SetItem>)>, b: int)
    requires
        forall|i: int| 0 <= i < t.len() ==> (#[trigger] t[i]).1@.len() <= b,
    ensures
        slack(t, b) >= 0,
    decreases t.len(),
{
    if t.len() > 0 {
        lemma_slack_nonneg(t.drop_last(), b);
        assert(t.last() == t[t.len() - 1]);
    }
}

/// The table has one entry per rule of `g`, under the rule's name.
pub open spec fn names_match(t: TableView, g: GrammarView) -> bool {
    t.len() == g.len() && forall|i: int| 0 <= i < t.len() ==> #[trigger] t[i].0 == g[i].0
}

/// Replacing the set of entry `r` changes what the table holds for that name
/// only.
proof fn lemma_lookup_update(t: TableView, r: int, s: Set<SItem>, n: Seq<char>)
    requires
        table_keys_unique(t),
        0 <= r < t.len(),
    ensures
        lookup(t.update(r, (t[r].0, s)), n) == if n == t[r].0 {
            s
        } else {
            lookup(t, n)
        },
{
    let u = t.update(r, (t[r].0, s));
    assert(table_keys_unique(u));
    if n == t[r].0 {
        lemma_lookup_at(u, r);
    } else if exists|k: int| 0 <= k < t.len() && #[trigger] t[k].0 == n {
        let k = choose|k: int| 0 <= k < t.len() && #[trigger] t[k].0 == n;
        lemma_lookup_at(t, k);
        lemma_lookup_at(u, k);
    } else {
        assert forall|k: int| 0 <= k < u.len() implies u[k].0 != n by {
            if u[k].0 == n {
                assert(t[k].0 == n);
            }
        }
    }
}

/// Each set of `f1` is inside the set of `f2` for the same name.
pub open spec fn below(f1: spec_fn(Seq<char>) -> Set<SItem>, f2: spec_fn(Seq<char>) -> Set<SItem>) -> bool {
    forall|n: Seq<char>| #[trigger] f1(n).subset_of(f2(n))
}

/// FIRST of a sequence grows with the table it is computed from.
pub proof fn lemma_seq_first_monotone(
    alpha: Seq<Sym>,
    f1: spec_fn(Seq<char>) -> Set<SItem>,
    f2: spec_fn(Seq<char>) -> Set<SItem>,
)
    requires
        below(f1, f2),
    ensures
        seq_first(alpha, f1).subset_of(seq_first(alpha, f2)),
        seq_nullable(alpha, f1) ==> seq_nullable(alpha, f2),
    decreases alpha.len(),
{
    if alpha.len() > 0 {
        lemma_seq_first_monotone(alpha.drop_first(), f1, f2);
        if let Sym::NonTerminal(n) = alpha[0] {
            assert(f1(n).subset_of(f2(n)));
        }
    }
}

/// The FIRST equation of production `p` of rule `r` holds in `f`: FIRST of
/// the production is inside FIRST of the rule, and the empty word is there
/// too when the production derives it.
pub open spec fn first_closed_at(g: GrammarView, f: spec_fn(Seq<char>) -> Set<SItem>, r: int, p: int) -> bool {
    seq_first(g[r].1[p], f).subset_of(f(g[r].0)) && (seq_nullable(g[r].1[p], f) ==> f(g[r].0).contains(
        SItem::Epsilon,
    ))
}

/// The table `f` satisfies every FIRST equation of `g`.
pub open spec fn first_closed(g: GrammarView, f: spec_fn(Seq<char>) -> Set<SItem>) -> bool {
    forall|r: int, p: int| 0 <= r < g.len() && 0 <= p < g[r].1.len() ==> #[trigger] first_closed_at(g, f, r, p)
}

/// `t` is the least table that satisfies the FIRST equations of `g`.
pub open spec fn least_first(g: GrammarView, t: TableView) -> bool {
    &&& names_match(t, g)
    &&& first_closed(g, table_fn(t))
    &&& forall|f: spec_fn(Seq<char>) -> Set<SItem>| #[trigger] first_closed(g, f) ==> below(table_fn(t), f)
}

/// Every row of the table is free of duplicates and inside the universe of `g`.
pub open spec fn rows_ok(t: Seq<(String, Vec<SetItem>)>, g: GrammarView) -> bool {
    forall|i: int|
        0 <= i < t.len() ==> items_view((#[trigger] t[i]).1@).no_duplicates() && items_set(t[i].1@).subset_of(
            universe(g).to_set(),
        )
}

proof fn lemma_lookup_in_universe(t: Seq<(String, Vec<SetItem>)>, g: GrammarView, n: Seq<char>)
    requires
        rows_ok(t, g),
    ensures
        lookup(table_view(t), n).subset_of(universe(g).to_set()),
{
    let tv = table_view(t);
    if exists|k: int| 0 <= k < tv.len() && #[trigger] tv[k].0 == n {
        let k = choose|k: int| 0 <= k < tv.len() && #[trigger] tv[k].0 == n;
        assert(tv[k].1 == items_set(t[k].1@));
    }
}

proof fn lemma_seq_first_in_universe(g: GrammarView, r: int, p: int, k: int, f: spec_fn(Seq<char>) -> Set<SItem>)
    requires
        0 <= r < g.len(),
        0 <= p < g[r].1.len(),
        0 <= k <= g[r].1[p].len(),
        forall|n: Seq<char>| #[trigger] f(n).subset_of(universe(g).to_set()),
    ensures
        seq_first(g[r].1[p].subrange(k, g[r].1[p].len() as int), f).subset_of(universe(g).to_set()),
    decreases g[r].1[p].len() - k,
{
    let alpha = g[r].1[p];
    let rest = alpha.subrange(k, alpha.len() as int);
    if k < alpha.len() {
        assert(rest.drop_first() =~= alpha.subrange(k + 1, alpha.len() as int));
        assert(rest[0] == alpha[k]);
        lemma_seq_first_in_universe(g, r, p, k + 1, f);
        if let Sym::NonTerminal(n) = rest[0] {
            assert(f(n).subset_of(universe(g).to_set()));
        } else {
            lemma_sym_in_universe(g, r, p, k);
        }
    }
}

/// A copy of a list of elements.
pub fn copy_items(v: &Vec<SetItem>) -> (r: Vec<SetItem>)
    ensures
        items_view(r@) == items_view(v@),
        items_set(r@) == items_set(v@),
{
    let mut r: Vec<SetItem> = Vec::new();
    let mut i: usize = 0;
    while i < v.len()
        invariant
            i <= v@.len(),
            r@.len() == i,
            forall|k: int| 0 <= k < i ==> #[trigger] r@[k]@ == v@[k]@,
        decreases v.len() - i,
    {
        r.push(v[i].copy());
        i = i + 1;
    }
    proof {
        assert(items_view(r@) =~= items_view(v@));
        assert(items_set(r@) =~= items_set(v@)) by {
            assert forall|x: SItem| items_set(v@).contains(x) implies items_set(r@).contains(x) by {
                let k = choose|k: int| 0 <= k < v@.len() && v@[k]@ == x;
                assert(r@[k]@ == x);
            }
        }
    }
    r
}

/// A table with one empty entry per rule.
fn empty_table(bnf: &Bnf) -> (t: Vec<(String, Vec<SetItem>)>)
    ensures
        names_match(table_view(t@), bnf@),
        forall|i: int| 0 <= i < t@.len() ==> (#[trigger] t@[i]).1@.len() == 0,
{
    let mut t: Vec<(String, Vec<SetItem>)> = Vec::new();
    let mut i: usize = 0;
    while i < bnf.rules.len()
        invariant
            i <= bnf.rules@.len(),
            t@.len() == i,
            forall|k: int| 0 <= k < i ==> (#[trigger] t@[k]).0@ == bnf@[k].0 && t@[k].1@.len() == 0,
        decreases bnf.rules.len() - i,
    {
        t.push((bnf.rules[i].0.clone(), Vec::new()));
        i = i + 1;
    }
    t
}

proof fn lemma_empty_rows_ok(t: Seq<(String, Vec<SetItem>)>, g: GrammarView)
    requires
        forall|i: int| 0 <= i < t.len() ==> (#[trigger] t[i]).1@.len() == 0,
    ensures
        rows_ok(t, g),
        forall|f: spec_fn(Seq<char>) -> Set<SItem>| below(table_fn(table_view(t)), f),
{
    assert forall|i: int| 0 <= i < t.len() implies items_set((#[trigger] t[i]).1@) == Set::<SItem>::empty() by {
        assert(items_set(t[i].1@) =~= Set::<SItem>::empty());
    }
    assert forall|f: spec_fn(Seq<char>) -> Set<SItem>, n: Seq<char>| #[trigger] table_fn(table_view(t))(n).subset_of(
        f(n),
    ) by {
        let tv = table_view(t);
        if exists|k: int| 0 <= k < tv.len() && #[trigger] tv[k].0 == n {
            let k = choose|k: int| 0 <= k < tv.len() && #[trigger] tv[k].0 == n;
            assert(tv[k].1 == items_set(t[k].1@));
        }
    }
}

/// The table after entry `r` got a new set under the same name.
proof fn lemma_table_view_set(t: Seq<(String, Vec<SetItem>)>, r: int, e: (String, Vec<SetItem>))
    requires
        0 <= r < t.len(),
        e.0@ == t[r].0@,
    ensures
        table_view(t.update(r, e)) == table_view(t).update(r, (table_view(t)[r].0, items_set(e.1@))),
{
    assert(table_view(t.update(r, e)) =~= table_view(t).update(r, (table_view(t)[r].0, items_set(e.1@))));
}

/// FIRST of every nonterminal: the least table that satisfies the FIRST
/// equations, reached by fixed-point iteration from empty sets.
pub fn first_table(bnf: &Bnf) -> (t: Vec<(String, Vec<SetItem>)>)
    requires
        bnf.well_formed(),
    ensures
        least_first(bnf@, table_view(t@)),
        rows_ok(t@, bnf@),
{
    let ghost g = bnf@;
    let ghost b = universe(g).len() as int;
    let mut t = empty_table(bnf);
    proof {
        lemma_empty_rows_ok(t@, g);
    }
    let mut changed = true;
    while changed
        invariant
            g == bnf@,
            b == universe(g).len(),
            names_unique(g),
            names_match(table_view(t@), g),
            rows_ok(t@, g),
            forall|f: spec_fn(Seq<char>) -> Set<SItem>| #[trigger] first_closed(g, f) ==> below(table_fn(table_view(t@)), f),
            !changed ==> first_closed(g, table_fn(table_view(t@))),
        decreases slack(t@, b) + if changed {
            1int
        } else {
            0int
        },
    {
        changed = false;
        let ghost t0 = t@;
        let mut r: usize = 0;
        while r < bnf.rules.len()
            invariant
                g == bnf@,
                b == universe(g).len(),
                names_unique(g),
                r <= g.len(),
                names_match(table_view(t@), g),
                rows_ok(t@, g),
                forall|f: spec_fn(Seq<char>) -> Set<SItem>| #[trigger] first_closed(g, f) ==> below(table_fn(table_view(t@)), f),
                changed ==> slack(t@, b) < slack(t0, b),
                !changed ==> t@ == t0,
                !changed ==> forall|r2: int, p2: int|
                    0 <= r2 < r && 0 <= p2 < g[r2].1.len() ==> #[trigger] first_closed_at(g, table_fn(table_view(t@)), r2, p2),
            decreases bnf.rules.len() - r,
        {
            let prods = &bnf.rules[r].1;
            let mut p: usize = 0;
            while p < prods.len()
                invariant
                    g == bnf@,
                    b == universe(g).len(),
                    names_unique(g),
                    r < g.len(),
                    prods == &bnf.rules@[r as int].1,
                    p <= prods@.len(),
                    names_match(table_view(t@), g),
                    rows_ok(t@, g),
                    forall|f: spec_fn(Seq<char>) -> Set<SItem>| #[trigger] first_closed(g, f) ==> below(table_fn(table_view(t@)), f),
                    changed ==> slack(t@, b) < slack(t0, b),
                    !changed ==> t@ == t0,
                    !changed ==> forall|r2: int, p2: int|
                        0 <= r2 < r && 0 <= p2 < g[r2].1.len() ==> #[trigger] first_closed_at(g, table_fn(table_view(t@)), r2, p2),
                    !changed ==> forall|p2: int| 0 <= p2 < p ==> #[trigger] first_closed_at(g, table_fn(table_view(t@)), r as int, p2),
                decreases prods.len() - p,
            {
                let ghost tv = table_view(t@);
                let ghost f = table_fn(tv);
                let ghost alpha = g[r as int].1[p as int];
                proof {
                    assert(table_keys_unique(tv));
                    assert(alpha == prod_view(prods@[p as int]@));
                    assert(tv[r as int].0 == g[r as int].0);
                    lemma_lookup_at(tv, r as int);
                    assert forall|n: Seq<char>| #[trigger] f(n).subset_of(universe(g).to_set()) by {
                        lemma_lookup_in_universe(t@, g, n);
                    }
                    lemma_seq_first_in_universe(g, r as int, p as int, 0, f);
                    assert(alpha.subrange(0, alpha.len() as int) =~= alpha);
                }
                let (fs, nullable) = first_of_sequence(prods[p].as_slice(), &t);
                let mut row = copy_items(&t[r].1);
                let ghost old_row = items_set(row@);
                let ghost old_len = row@.len();
                proof {
                    assert(items_view(row@).len() == items_view(t@[r as int].1@).len());
                }
                let c1 = union_into(&mut row, &fs, false);
                let mut c2 = false;
                if nullable {
                    c2 = add_item(&mut row, SetItem::Epsilon);
                }
                proof {
                    assert(items_set(row@) == old_row.union(seq_first(alpha, f)).union(
                        if nullable { set![SItem::Epsilon] } else { Set::empty() },
                    )) by {
                        assert(items_set(row@) =~= old_row.union(seq_first(alpha, f)).union(
                            if nullable { set![SItem::Epsilon] } else { Set::empty() },
                        ));
                    }
                    assert(universe(g)[universe(g).len() - 2] == SItem::Epsilon);
                }
                if c1 || c2 {
                    let name = t[r].0.clone();
                    let ghost old_t = t@;
                    proof {
                        assert(row@.len() > old_len);
                        lemma_slack_update(old_t, b, r as int, (name, row));
                    }
                    t.set(r, (name, row));
                    changed = true;
                    proof {
                        lemma_table_view_set(old_t, r as int, t@[r as int]);
                        let nt = table_view(t@);
                        assert(table_keys_unique(nt));
                        assert(names_match(nt, g));
                        assert(rows_ok(t@, g)) by {
                            assert forall|i: int| 0 <= i < t@.len() implies items_view((#[trigger] t@[i]).1@).no_duplicates()
                                && items_set(t@[i].1@).subset_of(universe(g).to_set()) by {
                                if i != r {
                                    assert(t@[i] == old_t[i]);
                                }
                            }
                        }
                        assert forall|f2: spec_fn(Seq<char>) -> Set<SItem>| #[trigger] first_closed(g, f2) implies below(
                            table_fn(nt),
                            f2,
                        ) by {
                            assert(below(f, f2));
                            lemma_seq_first_monotone(alpha, f, f2);
                            assert(first_closed_at(g, f2, r as int, p as int));
                            assert(f(g[r as int].0).subset_of(f2(g[r as int].0)));
                            assert forall|n: Seq<char>| #[trigger] table_fn(nt)(n).subset_of(f2(n)) by {
                                lemma_lookup_update(tv, r as int, items_set(row@), n);
                                assert(f(n).subset_of(f2(n)));
                            }
                        }
                    }
                } else {
                    proof {
                        assert(items_set(row@) == old_row);
                        assert(first_closed_at(g, f, r as int, p as int));
                    }
                }
                p = p + 1;
            }
            r = r + 1;
        }
        proof {
            assert forall|i: int| 0 <= i < t@.len() implies (#[trigger] t@[i]).1@.len() <= b by {
                lemma_row_bound(g, t@[i].1@);
            }
            lemma_slack_nonneg(t@, b);
        }
    }
    t
}

/// `n` names a rule of `g`.
pub open spec fn is_rule_name(g: GrammarView, n: Seq<char>) -> bool {
    exists|k: int| 0 <= k < g.len() && #[trigger] g[k].0 == n
}

/// The FOLLOW equation at position `i` of production `p` of rule `r`: when
/// the symbol there is a rule's nonterminal `B`, FIRST of what follows it is
/// inside FOLLOW(B), and so is FOLLOW of the rule when what follows derives
/// the empty word.
pub open spec fn follow_closed_at(
    g: GrammarView,
    f: spec_fn(Seq<char>) -> Set<SItem>,
    h: spec_fn(Seq<char>) -> Set<SItem>,
    r: int,
    p: int,
    i: int,
) -> bool {
    let alpha = g[r].1[p];
    let beta = alpha.subrange(i + 1, alpha.len() as int);
    match alpha[i] {
        Sym::NonTerminal(n) => is_rule_name(g, n) ==> seq_first(beta, f).subset_of(h(n)) && (seq_nullable(
            beta,
            f,
        ) ==> h(g[r].0).subset_of(h(n))),
        _ => true,
    }
}

/// FOLLOW of the start symbol holds the end of input.
pub open spec fn follow_start(g: GrammarView, h: spec_fn(Seq<char>) -> Set<SItem>) -> bool {
    g.len() > 0 ==> h(g[0].0).contains(SItem::EndOfInput)
}

/// The table `h` satisfies every FOLLOW equation of `g`, given FIRST `f`.
pub open spec fn follow_closed(
    g: GrammarView,
    f: spec_fn(Seq<char>) -> Set<SItem>,
    h: spec_fn(Seq<char>) -> Set<SItem>,
) -> bool {
    &&& follow_start(g, h)
    &&& forall|r: int, p: int, i: int|
        0 <= r < g.len() && 0 <= p < g[r].1.len() && 0 <= i < g[r].1[p].len() ==> #[trigger] follow_closed_at(
            g,
            f,
            h,
            r,
            p,
            i,
        )
}

/// `t` is the least table that satisfies the FOLLOW equations of `g`.
pub open spec fn least_follow(g: GrammarView, f: spec_fn(Seq<char>) -> Set<SItem>, t: TableView) -> bool {
    &&& names_match(t, g)
    &&& follow_closed(g, f, table_fn(t))
    &&& forall|h: spec_fn(Seq<char>) -> Set<SItem>| #[trigger] follow_closed(g, f, h) ==> below(table_fn(t), h)
}

/// What a pass of the FOLLOW iteration keeps true of the table.
pub open spec fn follow_inv(
    g: GrammarView,
    f: spec_fn(Seq<char>) -> Set<SItem>,
    t: Seq<(String, Vec<SetItem>)>,
) -> bool {
    &&& names_unique(g)
    &&& names_match(table_view(t), g)
    &&& rows_ok(t, g)
    &&& follow_start(g, table_fn(table_view(t)))
    &&& forall|h: spec_fn(Seq<char>) -> Set<SItem>| #[trigger] follow_closed(g, f, h) ==> below(table_fn(table_view(t)), h)
}

/// Applies the FOLLOW equations of one production once; tells whether the
/// table grew.
fn follow_production(
    t: &mut Vec<(String, Vec<SetItem>)>,
    first: &Vec<(String, Vec<SetItem>)>,
    bnf: &Bnf,
    r: usize,
    p: usize,
) -> (changed: bool)
    requires
        r < bnf@.len(),
        p < bnf@[r as int].1.len(),
        follow_inv(bnf@, table_fn(table_view(first@)), old(t)@),
        names_match(table_view(first@), bnf@),
        rows_ok(first@, bnf@),
    ensures
        follow_inv(bnf@, table_fn(table_view(first@)), final(t)@),
        changed ==> slack(final(t)@, universe(bnf@).len() as int) < slack(old(t)@, universe(bnf@).len() as int),
        !changed ==> final(t)@ == old(t)@,
        !changed ==> forall|i: int|
            0 <= i < bnf@[r as int].1[p as int].len() ==> #[trigger] follow_closed_at(
                bnf@,
                table_fn(table_view(first@)),
                table_fn(table_view(final(t)@)),
                r as int,
                p as int,
                i,
            ),
{
    let ghost g = bnf@;
    let ghost b = universe(g).len() as int;
    let ghost f = table_fn(table_view(first@));
    let ghost alpha = g[r as int].1[p as int];
    let prod = &bnf.rules[r].1[p];
    let mut changed = false;
    let mut i: usize = 0;
    proof {
        assert(table_keys_unique(table_view(first@)));
        assert forall|n: Seq<char>| #[trigger] f(n).subset_of(universe(g).to_set()) by {
            lemma_lookup_in_universe(first@, g, n);
        }
    }
    while i < prod.len()
        invariant
            g == bnf@,
            b == universe(g).len(),
            f == table_fn(table_view(first@)),
            r < g.len(),
            p < g[r as int].1.len(),
            alpha == g[r as int].1[p as int],
            prod == &bnf.rules@[r as int].1@[p as int],
            alpha == prod_view(prod@),
            i <= prod@.len(),
            table_keys_unique(table_view(first@)),
            forall|n: Seq<char>| #[trigger] f(n).subset_of(universe(g).to_set()),
            follow_inv(g, f, t@),
            changed ==> slack(t@, b) < slack(old(t)@, b),
            !changed ==> t@ == old(t)@,
            !changed ==> forall|i2: int|
                0 <= i2 < i ==> #[trigger] follow_closed_at(g, f, table_fn(table_view(t@)), r as int, p as int, i2),
        decreases prod.len() - i,
    {
        let ghost tv = table_view(t@);
        let ghost h = table_fn(tv);
        let ghost beta = alpha.subrange(i + 1, alpha.len() as int);
        proof {
            assert(alpha[i as int] == prod@[i as int]@);
        }
        match &prod[i] {
            Item::NonTerminal(name) => {
                match find_entry(t, name) {
                    Some(k) => {
                        let (fs, nullable) = first_of_suffix(prod.as_slice(), i + 1, first);
                        proof {
                            assert(table_keys_unique(tv));
                            lemma_lookup_at(tv, k as int);
                            lemma_lookup_at(tv, r as int);
                            assert(tv[r as int].0 == g[r as int].0);
                            lemma_seq_first_in_universe(g, r as int, p as int, i + 1, f);
                            assert(prod_view(prod@).subrange(i + 1, prod@.len() as int) == beta);
                        }
                        let mut row = copy_items(&t[k].1);
                        let ghost old_row = items_set(row@);
                        let ghost old_len = row@.len();
                        proof {
                            assert(items_view(row@).len() == items_view(t@[k as int].1@).len());
                        }
                        let c1 = union_into(&mut row, &fs, false);
                        let mut c2 = false;
                        if nullable {
                            c2 = union_into(&mut row, &t[r].1, false);
                        }
                        proof {
                            assert(items_set(row@) =~= old_row.union(seq_first(beta, f)).union(
                                if nullable { h(g[r as int].0) } else { Set::empty() },
                            ));
                            assert(items_set(t@[r as int].1@) == h(g[r as int].0));
                        }
                        if c1 || c2 {
                            let nm = t[k].0.clone();
                            let ghost old_t = t@;
                            proof {
                                assert(row@.len() > old_len);
                                lemma_slack_update(old_t, b, k as int, (nm, row));
                            }
                            t.set(k, (nm, row));
                            changed = true;
                            proof {
                                lemma_table_view_set(old_t, k as int, t@[k as int]);
                                let nt = table_view(t@);
                                assert(table_keys_unique(nt));
                                assert(names_match(nt, g));
                                assert(rows_ok(t@, g)) by {
                                    assert forall|j: int| 0 <= j < t@.len() implies items_view((#[trigger] t@[j]).1@).no_duplicates()
                                        && items_set(t@[j].1@).subset_of(universe(g).to_set()) by {
                                        if j != k {
                                            assert(t@[j] == old_t[j]);
                                        }
                                    }
                                }
                                assert(follow_start(g, table_fn(nt))) by {
                                    if g.len() > 0 {
                                        lemma_lookup_update(tv, k as int, items_set(row@), g[0].0);
                                    }
                                }
                                assert forall|h2: spec_fn(Seq<char>) -> Set<SItem>| #[trigger] follow_closed(g, f, h2) implies below(
                                    table_fn(nt),
                                    h2,
                                ) by {
                                    assert(below(h, h2));
                                    assert(follow_closed_at(g, f, h2, r as int, p as int, i as int));
                                    assert(is_rule_name(g, name@)) by {
                                        assert(g[k as int].0 == name@);
                                    }
                                    assert(h(name@).subset_of(h2(name@)));
                                    assert(h(g[r as int].0).subset_of(h2(g[r as int].0)));
                                    assert forall|n: Seq<char>| #[trigger] table_fn(nt)(n).subset_of(h2(n)) by {
                                        lemma_lookup_update(tv, k as int, items_set(row@), n);
                                        assert(h(n).subset_of(h2(n)));
                                    }
                                }
                            }
                        } else {
                            proof {
                                assert(items_set(row@) == old_row);
                                assert(follow_closed_at(g, f, h, r as int, p as int, i as int));
                            }
                        }
                    },
                    None => {
                        proof {
                            assert(!is_rule_name(g, name@)) by {
                                if is_rule_name(g, name@) {
                                    let k = choose|k: int| 0 <= k < g.len() && #[trigger] g[k].0 == name@;
                                    assert(tv[k].0 == name@);
                                }
                            }
                        }
                    },
                }
            },
            _ => {},
        }
        i = i + 1;
    }
    changed
}

/// FOLLOW of every nonterminal, given FIRST: the least table that satisfies
/// the FOLLOW equations, reached by fixed-point iteration from the end of
/// input in FOLLOW of the start symbol.
pub fn follow_table(bnf: &Bnf, first: &Vec<(String, Vec<SetItem>)>) -> (t: Vec<(String, Vec<SetItem>)>)
    requires
        bnf.well_formed(),
        names_match(table_view(first@), bnf@),
        rows_ok(first@, bnf@),
    ensures
        least_follow(bnf@, table_fn(table_view(first@)), table_view(t@)),
        rows_ok(t@, bnf@),
{
    let ghost g = bnf@;
    let ghost b = universe(g).len() as int;
    let ghost f = table_fn(table_view(first@));
    let mut t = empty_table(bnf);
    proof {
        lemma_empty_rows_ok(t@, g);
    }
    if t.len() > 0 {
        let mut row: Vec<SetItem> = Vec::new();
        add_item(&mut row, SetItem::EndOfInput);
        let nm = t[0].0.clone();
        let ghost old_t = t@;
        t.set(0, (nm, row));
        proof {
            lemma_table_view_set(old_t, 0, t@[0]);
            let tv = table_view(old_t);
            assert(table_keys_unique(tv));
            lemma_lookup_at(table_view(t@), 0);
            assert(items_set(row@) =~= set![SItem::EndOfInput]);
            assert(universe(g)[universe(g).len() - 1] == SItem::EndOfInput);
            assert(rows_ok(t@, g)) by {
                assert forall|j: int| 0 <= j < t@.len() implies items_view((#[trigger] t@[j]).1@).no_duplicates()
                    && items_set(t@[j].1@).subset_of(universe(g).to_set()) by {
                    if j != 0 {
                        assert(t@[j] == old_t[j]);
                    }
                }
            }
            assert forall|h: spec_fn(Seq<char>) -> Set<SItem>| #[trigger] follow_closed(g, f, h) implies below(
                table_fn(table_view(t@)),
                h,
            ) by {
                assert(below(table_fn(tv), h));
                assert forall|n: Seq<char>| #[trigger] table_fn(table_view(t@))(n).subset_of(h(n)) by {
                    lemma_lookup_update(tv, 0, items_set(row@), n);
                    assert(table_fn(tv)(n).subset_of(h(n)));
                }
            }
        }
    }
    let mut changed = true;
    while changed
        invariant
            g == bnf@,
            b == universe(g).len(),
            f == table_fn(table_view(first@)),
            names_match(table_view(first@), g),
            rows_ok(first@, g),
            follow_inv(g, f, t@),
            !changed ==> follow_closed(g, f, table_fn(table_view(t@))),
        decreases slack(t@, b) + if changed {
            1int
        } else {
            0int
        },
    {
        changed = false;
        let ghost t0 = t@;
        let mut r: usize = 0;
        while r < bnf.rules.len()
            invariant
                g == bnf@,
                b == universe(g).len(),
                f == table_fn(table_view(first@)),
                names_match(table_view(first@), g),
                rows_ok(first@, g),
                r <= g.len(),
                follow_inv(g, f, t@),
                changed ==> slack(t@, b) < slack(t0, b),
                !changed ==> t@ == t0,
                !changed ==> forall|r2: int, p2: int, i2: int|
                    0 <= r2 < r && 0 <= p2 < g[r2].1.len() && 0 <= i2 < g[r2].1[p2].len() ==> #[trigger] follow_closed_at(
                        g,
                        f,
                        table_fn(table_view(t@)),
                        r2,
                        p2,
                        i2,
                    ),
            decreases bnf.rules.len() - r,
        {
            let n_prods = bnf.rules[r].1.len();
            let mut p: usize = 0;
            while p < n_prods
                invariant
                    g == bnf@,
                    b == universe(g).len(),
                    f == table_fn(table_view(first@)),
                    names_match(table_view(first@), g),
                    rows_ok(first@, g),
                    r < g.len(),
                    n_prods == g[r as int].1.len(),
                    p <= n_prods,
                    follow_inv(g, f, t@),
                    changed ==> slack(t@, b) < slack(t0, b),
                    !changed ==> t@ == t0,
                    !changed ==> forall|r2: int, p2: int, i2: int|
                        0 <= r2 < r && 0 <= p2 < g[r2].1.len() && 0 <= i2 < g[r2].1[p2].len() ==> #[trigger] follow_closed_at(
                            g,
                            f,
                            table_fn(table_view(t@)),
                            r2,
                            p2,
                            i2,
                        ),
                    !changed ==> forall|p2: int, i2: int|
                        0 <= p2 < p && 0 <= i2 < g[r as int].1[p2].len() ==> #[trigger] follow_closed_at(
                            g,
                            f,
                            table_fn(table_view(t@)),
                            r as int,
                            p2,
                            i2,
                        ),
                decreases n_prods - p,
            {
                let c = follow_production(&mut t, first, bnf, r, p);
                if c {
                    changed = true;
                }
                p = p + 1;
            }
            r = r + 1;
        }
        proof {
            assert forall|i: int| 0 <= i < t@.len() implies (#[trigger] t@[i]).1@.len() <= b by {
                lemma_row_bound(g, t@[i].1@);
            }
            lemma_slack_nonneg(t@, b);
        }
    }
    t
}

/// FIRST and FOLLOW of every nonterminal of a grammar, one entry per rule
/// in rule order.
#[derive(Debug)]
pub struct Sets {
    pub first: Vec<(String, Vec<SetItem>)>,
    pub follow: Vec<(String, Vec<SetItem>)>,
}

/// FIRST and FOLLOW of a grammar: the least solutions of their equations.
pub fn extract_sets(bnf: &Bnf) -> (r: Sets)
    requires
        bnf.well_formed(),
    ensures
        least_first(bnf@, table_view(r.first@)),
        least_follow(bnf@, table_fn(table_view(r.first@)), table_view(r.follow@)),
        rows_ok(r.first@, bnf@),
        rows_ok(r.follow@, bnf@),
{
    let first = first_table(bnf);
    let follow = follow_table(bnf, &first);
    Sets { first, follow }
}

/// `f` is the least solution of the FIRST equations of `g`.
pub open spec fn is_least_first(g: GrammarView, f: spec_fn(Seq<char>) -> Set<SItem>) -> bool {
    first_closed(g, f) && forall|f2: spec_fn(Seq<char>) -> Set<SItem>| #[trigger] first_closed(g, f2) ==> below(f, f2)
}

/// `h` is the least solution of the FOLLOW equations of `g`, given FIRST `f`.
pub open spec fn is_least_follow(
    g: GrammarView,
    f: spec_fn(Seq<char>) -> Set<SItem>,
    h: spec_fn(Seq<char>) -> Set<SItem>,
) -> bool {
    follow_closed(g, f, h) && forall|h2: spec_fn(Seq<char>) -> Set<SItem>| #[trigger] follow_closed(g, f, h2) ==> below(h, h2)
}

/// FIRST of the nonterminals of `g`.
pub open spec fn grammar_first(g: GrammarView) -> spec_fn(Seq<char>) -> Set<SItem> {
    choose|f: spec_fn(Seq<char>) -> Set<SItem>| is_least_first(g, f)
}

/// FOLLOW of the nonterminals of `g`.
pub open spec fn grammar_follow(g: GrammarView) -> spec_fn(Seq<char>) -> Set<SItem> {
    choose|h: spec_fn(Seq<char>) -> Set<SItem>| is_least_follow(g, grammar_first(g), h)
}

/// Two tables hold the same set for every name.
pub open spec fn same_sets(f1: spec_fn(Seq<char>) -> Set<SItem>, f2: spec_fn(Seq<char>) -> Set<SItem>) -> bool {
    forall|n: Seq<char>| #[trigger] f1(n) == f2(n)
}

/// The least solution of the FIRST equations is unique: whatever order the
/// productions are visited in, the fixed point reached is the same.
pub proof fn least_first_unique(g: GrammarView, f1: spec_fn(Seq<char>) -> Set<SItem>, f2: spec_fn(Seq<char>) -> Set<SItem>)
    requires
        is_least_first(g, f1),
        is_least_first(g, f2),
    ensures
        same_sets(f1, f2),
{
    assert(below(f1, f2));
    assert(below(f2, f1));
    assert forall|n: Seq<char>| #[trigger] f1(n) == f2(n) by {
        assert(f1(n).subset_of(f2(n)));
        assert(f2(n).subset_of(f1(n)));
        assert(f1(n) =~= f2(n));
    }
}

/// The least solution of the FOLLOW equations is unique.
pub proof fn least_follow_unique(
    g: GrammarView,
    f: spec_fn(Seq<char>) -> Set<SItem>,
    h1: spec_fn(Seq<char>) -> Set<SItem>,
    h2: spec_fn(Seq<char>) -> Set<SItem>,
)
    requires
        is_least_follow(g, f, h1),
        is_least_follow(g, f, h2),
    ensures
        same_sets(h1, h2),
{
    assert(below(h1, h2));
    assert(below(h2, h1));
    assert forall|n: Seq<char>| #[trigger] h1(n) == h2(n) by {
        assert(h1(n).subset_of(h2(n)));
        assert(h2(n).subset_of(h1(n)));
        assert(h1(n) =~= h2(n));
    }
}

pub(crate) proof fn lemma_seq_first_same(alpha: Seq<Sym>, f1: spec_fn(Seq<char>) -> Set<SItem>, f2: spec_fn(Seq<char>) -> Set<SItem>)
    requires
        same_sets(f1, f2),
    ensures
        seq_first(alpha, f1) == seq_first(alpha, f2),
        seq_nullable(alpha, f1) == seq_nullable(alpha, f2),
{
    assert(below(f1, f2)) by {
        assert forall|n: Seq<char>| #[trigger] f1(n).subset_of(f2(n)) by {
            assert(f1(n) == f2(n));
        }
    }
    assert(below(f2, f1)) by {
        assert forall|n: Seq<char>| #[trigger] f2(n).subset_of(f1(n)) by {
            assert(f1(n) == f2(n));
        }
    }
    lemma_seq_first_monotone(alpha, f1, f2);
    lemma_seq_first_monotone(alpha, f2, f1);
    assert(seq_first(alpha, f1) =~= seq_first(alpha, f2));
}

proof fn lemma_follow_closed_same(
    g: GrammarView,
    f1: spec_fn(Seq<char>) -> Set<SItem>,
    f2: spec_fn(Seq<char>) -> Set<SItem>,
    h: spec_fn(Seq<char>) -> Set<SItem>,
)
    requires
        same_sets(f1, f2),
    ensures
        follow_closed(g, f1, h) == follow_closed(g, f2, h),
{
    assert forall|r: int, p: int, i: int|
        0 <= r < g.len() && 0 <= p < g[r].1.len() && 0 <= i < g[r].1[p].len() implies #[trigger] follow_closed_at(
        g,
        f1,
        h,
        r,
        p,
        i,
    ) == follow_closed_at(g, f2, h, r, p, i) by {
        let alpha = g[r].1[p];
        lemma_seq_first_same(alpha.subrange(i + 1, alpha.len() as int), f1, f2);
    }
    if follow_closed(g, f1, h) {
        assert forall|r: int, p: int, i: int|
            0 <= r < g.len() && 0 <= p < g[r].1.len() && 0 <= i < g[r].1[p].len() implies #[trigger] follow_closed_at(
            g,
            f2,
            h,
            r,
            p,
            i,
        ) by {
            assert(follow_closed_at(g, f1, h, r, p, i));
        }
    }
    if follow_closed(g, f2, h) {
        assert forall|r: int, p: int, i: int|
            0 <= r < g.len() && 0 <= p < g[r].1.len() && 0 <= i < g[r].1[p].len() implies #[trigger] follow_closed_at(
            g,
            f1,
            h,
            r,
            p,
            i,
        ) by {
            assert(follow_closed_at(g, f2, h, r, p, i));
        }
    }
}

/// The computed tables are FIRST and FOLLOW of the grammar.
pub(crate) proof fn lemma_computed_sets(g: GrammarView, first: TableView, follow: TableView)
    requires
        least_first(g, first),
        least_follow(g, table_fn(first), follow),
    ensures
        same_sets(table_fn(first), grammar_first(g)),
        same_sets(table_fn(follow), grammar_follow(g)),
{
    let f = table_fn(first);
    assert(is_least_first(g, f));
    let gf = grammar_first(g);
    assert(is_least_first(g, gf));
    least_first_unique(g, f, gf);
    let h = table_fn(follow);
    lemma_follow_closed_same(g, f, gf, h);
    assert forall|h2: spec_fn(Seq<char>) -> Set<SItem>| #[trigger] follow_closed(g, gf, h2) implies below(h, h2) by {
        lemma_follow_closed_same(g, f, gf, h2);
    }
    assert(is_least_follow(g, gf, h));
    let gh = grammar_follow(g);
    assert(is_least_follow(g, gf, gh));
    least_follow_unique(g, gf, h, gh);
}

proof fn lemma_overlaps_with_mem(x: SItem, s2: Seq<SItem>, q: (SItem, SItem))
    ensures
        overlaps_with(x, s2).contains(q) <==> q.0 == x && s2.contains(q.1) && items_overlap(x, q.1),
    decreases s2.len(),
{
    if s2.len() > 0 {
        lemma_overlaps_with_mem(x, s2.drop_last(), q);
        let pre = overlaps_with(x, s2.drop_last());
        let tail = if items_overlap(x, s2.last()) {
            seq![(x, s2.last())]
        } else {
            Seq::<(SItem, SItem)>::empty()
        };
        if (pre + tail).contains(q) {
            let k = choose|k: int| 0 <= k < (pre + tail).len() && (pre + tail)[k] == q;
            if k < pre.len() {
                assert(pre[k] == q);
            } else {
                assert(s2[s2.len() - 1] == s2.last());
            }
        }
        if q.0 == x && s2.contains(q.1) && items_overlap(x, q.1) {
            let k = choose|k: int| 0 <= k < s2.len() && s2[k] == q.1;
            if k < s2.len() - 1 {
                assert(s2.drop_last()[k] == q.1);
                let m = choose|m: int| 0 <= m < pre.len() && pre[m] == q;
                assert((pre + tail)[m] == q);
            } else {
                assert((pre + tail)[pre.len() as int] == q);
            }
        }
    }
}

proof fn lemma_overlap_pairs_mem(s1: Seq<SItem>, s2: Seq<SItem>, q: (SItem, SItem))
    ensures
        overlap_pairs(s1, s2).contains(q) <==> s1.contains(q.0) && s2.contains(q.1) && items_overlap(q.0, q.1),
    decreases s1.len(),
{
    if s1.len() > 0 {
        lemma_overlap_pairs_mem(s1.drop_last(), s2, q);
        lemma_overlaps_with_mem(s1.last(), s2, q);
        let pre = overlap_pairs(s1.drop_last(), s2);
        let tail = overlaps_with(s1.last(), s2);
        if (pre + tail).contains(q) {
            let k = choose|k: int| 0 <= k < (pre + tail).len() && (pre + tail)[k] == q;
            if k < pre.len() {
                assert(pre[k] == q);
                let a = choose|a: int| 0 <= a < s1.drop_last().len() && s1.drop_last()[a] == q.0;
                assert(s1[a] == q.0);
            } else {
                assert(tail[k - pre.len()] == q);
                assert(s1[s1.len() - 1] == q.0);
            }
        }
        if s1.contains(q.0) && s2.contains(q.1) && items_overlap(q.0, q.1) {
            let a = choose|a: int| 0 <= a < s1.len() && s1[a] == q.0;
            if a < s1.len() - 1 {
                assert(s1.drop_last()[a] == q.0);
                let m = choose|m: int| 0 <= m < pre.len() && pre[m] == q;
                assert((pre + tail)[m] == q);
            } else {
                let m = choose|m: int| 0 <= m < tail.len() && tail[m] == q;
                assert((pre + tail)[pre.len() + m] == q);
            }
        }
    }
}

proof fn lemma_overlaps_with_no_dup(x: SItem, s2: Seq<SItem>)
    requires
        s2.no_duplicates(),
    ensures
        overlaps_with(x, s2).no_duplicates(),
    decreases s2.len(),
{
    if s2.len() > 0 {
        let d = s2.drop_last();
        assert forall|i: int, j: int| 0 <= i < d.len() && 0 <= j < d.len() && i != j implies d[i] != d[j] by {
            assert(d[i] == s2[i] && d[j] == s2[j]);
        }
        lemma_overlaps_with_no_dup(x, d);
        let pre = overlaps_with(x, d);
        let all = overlaps_with(x, s2);
        if items_overlap(x, s2.last()) {
            assert forall|i: int, j: int| 0 <= i < all.len() && 0 <= j < all.len() && i != j implies all[i] != all[j] by {
                if i < pre.len() && j < pre.len() {
                    assert(all[i] == pre[i] && all[j] == pre[j]);
                } else {
                    let o = if i < pre.len() { i } else { j };
                    assert(all[o] == pre[o]);
                    assert(pre.contains(pre[o]));
                    lemma_overlaps_with_mem(x, d, pre[o]);
                    if pre[o] == (x, s2.last()) {
                        let m = choose|m: int| 0 <= m < d.len() && d[m] == s2.last();
                        assert(s2[m] == s2[s2.len() - 1]);
                    }
                }
            }
        } else {
            assert(all =~= pre);
        }
    }
}

proof fn lemma_overlap_pairs_no_dup(s1: Seq<SItem>, s2: Seq<SItem>)
    requires
        s1.no_duplicates(),
        s2.no_duplicates(),
    ensures
        overlap_pairs(s1, s2).no_duplicates(),
    decreases s1.len(),
{
    if s1.len() > 0 {
        let d = s1.drop_last();
        assert forall|i: int, j: int| 0 <= i < d.len() && 0 <= j < d.len() && i != j implies d[i] != d[j] by {
            assert(d[i] == s1[i] && d[j] == s1[j]);
        }
        lemma_overlap_pairs_no_dup(d, s2);
        lemma_overlaps_with_no_dup(s1.last(), s2);
        let pre = overlap_pairs(d, s2);
        let tail = overlaps_with(s1.last(), s2);
        let all = pre + tail;
        assert forall|i: int, j: int| 0 <= i < all.len() && 0 <= j < all.len() && i != j implies all[i] != all[j] by {
            if i < pre.len() && j < pre.len() {
                assert(all[i] == pre[i] && all[j] == pre[j]);
            } else if i >= pre.len() && j >= pre.len() {
                assert(all[i] == tail[i - pre.len()] && all[j] == tail[j - pre.len()]);
            } else {
                let (a, b) = if i < pre.len() { (i, j) } else { (j, i) };
                assert(all[a] == pre[a] && all[b] == tail[b - pre.len()]);
                assert(pre.contains(pre[a]));
                assert(tail.contains(tail[b - pre.len()]));
                lemma_overlap_pairs_mem(d, s2, pre[a]);
                lemma_overlaps_with_mem(s1.last(), s2, tail[b - pre.len()]);
                if pre[a] == tail[b - pre.len()] {
                    let m = choose|m: int| 0 <= m < d.len() && d[m] == s1.last();
                    assert(s1[m] == s1[s1.len() - 1]);
                }
            }
        }
    }
}

/// Some elements of `s1` and `s2` could denote the same token.
pub open spec fn sets_overlap(s1: Set<SItem>, s2: Set<SItem>) -> bool {
    exists|x: SItem, y: SItem| s1.contains(x) && s2.contains(y) && #[trigger] items_overlap(x, y)
}

/// Some pair of elements of `s1 × s2` cannot be decided.
pub open spec fn sets_fail(s1: Set<SItem>, s2: Set<SItem>) -> bool {
    exists|x: SItem, y: SItem| s1.contains(x) && s2.contains(y) && #[trigger] pair_fails(x, y)
}

/// The conflicts list exactly the overlapping pairs of `s1 × s2`, each
/// once, each with a correct witness.
pub open spec fn items_match(cs: Seq<SetItemConflict>, s1: Set<SItem>, s2: Set<SItem>) -> bool {
    &&& witnesses_ok(cs)
    &&& conflict_pairs(cs).no_duplicates()
    &&& forall|k: int|
        0 <= k < cs.len() ==> s1.contains((#[trigger] cs[k]).item1@) && s2.contains(cs[k].item2@) && items_overlap(
            cs[k].item1@,
            cs[k].item2@,
        )
    &&& forall|x: SItem, y: SItem|
        s1.contains(x) && s2.contains(y) && #[trigger] items_overlap(x, y) ==> exists|k: int|
            0 <= k < cs.len() && (#[trigger] cs[k]).item1@ == x && cs[k].item2@ == y
}

proof fn lemma_items_set_contains(v: Seq<SetItem>, x: SItem)
    ensures
        items_set(v).contains(x) == items_view(v).contains(x),
{
    if items_set(v).contains(x) {
        let i = choose|i: int| 0 <= i < v.len() && v[i]@ == x;
        assert(items_view(v)[i] == x);
    }
    if items_view(v).contains(x) {
        let i = choose|i: int| 0 <= i < items_view(v).len() && items_view(v)[i] == x;
        assert(v[i]@ == x);
    }
}

/// What the result of `find_set_conflicts` says of the two sets.
pub(crate) proof fn lemma_conflicts_match(cs: Seq<SetItemConflict>, v1: Seq<SetItem>, v2: Seq<SetItem>)
    requires
        conflict_pairs(cs) == overlap_pairs(items_view(v1), items_view(v2)),
        witnesses_ok(cs),
        items_view(v1).no_duplicates(),
        items_view(v2).no_duplicates(),
    ensures
        items_match(cs, items_set(v1), items_set(v2)),
        cs.len() > 0 <==> sets_overlap(items_set(v1), items_set(v2)),
{
    let s1 = items_set(v1);
    let s2 = items_set(v2);
    lemma_overlap_pairs_no_dup(items_view(v1), items_view(v2));
    assert forall|k: int| 0 <= k < cs.len() implies s1.contains((#[trigger] cs[k]).item1@) && s2.contains(cs[k].item2@)
        && items_overlap(cs[k].item1@, cs[k].item2@) by {
        let q = (cs[k].item1@, cs[k].item2@);
        assert(conflict_pairs(cs)[k] == q);
        lemma_overlap_pairs_mem(items_view(v1), items_view(v2), q);
        lemma_items_set_contains(v1, q.0);
        lemma_items_set_contains(v2, q.1);
    }
    assert forall|x: SItem, y: SItem| s1.contains(x) && s2.contains(y) && #[trigger] items_overlap(x, y) implies exists|k: int|
        0 <= k < cs.len() && (#[trigger] cs[k]).item1@ == x && cs[k].item2@ == y by {
        lemma_items_set_contains(v1, x);
        lemma_items_set_contains(v2, y);
        lemma_overlap_pairs_mem(items_view(v1), items_view(v2), (x, y));
        let k = choose|k: int| 0 <= k < conflict_pairs(cs).len() && conflict_pairs(cs)[k] == (x, y);
        assert(cs[k].item1@ == x);
    }
    if sets_overlap(s1, s2) {
        let (x, y) = choose|x: SItem, y: SItem| s1.contains(x) && s2.contains(y) && #[trigger] items_overlap(x, y);
        assert(exists|k: int| 0 <= k < cs.len() && (#[trigger] cs[k]).item1@ == x && cs[k].item2@ == y);
    }
    if cs.len() > 0 {
        assert(s1.contains(cs[0].item1@) && s2.contains(cs[0].item2@) && items_overlap(cs[0].item1@, cs[0].item2@));
    }
}

/// What a failure of `find_set_conflicts` says of the two sets.
pub(crate) proof fn lemma_fails_sets(v1: Seq<SetItem>, v2: Seq<SetItem>)
    ensures
        some_pair_fails(items_view(v1), items_view(v2)) == sets_fail(items_set(v1), items_set(v2)),
{
    if some_pair_fails(items_view(v1), items_view(v2)) {
        let (i, j) = choose|i: int, j: int|
            0 <= i < items_view(v1).len() && 0 <= j < items_view(v2).len() && #[trigger] pair_fails(items_view(v1)[i], items_view(v2)[j]);
        lemma_items_set_contains(v1, items_view(v1)[i]);
        lemma_items_set_contains(v2, items_view(v2)[j]);
    }
    if sets_fail(items_set(v1), items_set(v2)) {
        let (x, y) = choose|x: SItem, y: SItem| items_set(v1).contains(x) && items_set(v2).contains(y) && #[trigger] pair_fails(x, y);
        let i = choose|i: int| 0 <= i < v1.len() && v1[i]@ == x;
        let j = choose|j: int| 0 <= j < v2.len() && v2[j]@ == y;
        assert(items_view(v1)[i] == x && items_view(v2)[j] == y);
    }
}

/// The two productions of a conflict.
#[derive(Debug)]
pub enum Ll1ConflictKind {
    /// Two productions have overlapping FIRST sets.
    FirstFirst { production1: Vec<Item>, production2: Vec<Item> },
    /// A nullable production's FOLLOW set overlaps another production's FIRST set.
    FirstFollow { nullable_production: Vec<Item>, other_production: Vec<Item> },
}

/// An LL(1) conflict: the nonterminal, the competing productions, and the
/// pairs of elements that collide.
#[derive(Debug)]
pub struct Ll1Conflict {
    pub non_terminal: String,
    pub kind: Ll1ConflictKind,
    pub conflicts: Vec<SetItemConflict>,
}

/// The outcome of the LL(1) check.
#[derive(Debug)]
pub struct Ll1Result {
    pub conflicts: Vec<Ll1Conflict>,
}

impl Ll1Result {
    /// The grammar is LL(1) when no conflict was found.
    pub fn is_ll1(&self) -> (r: bool)
        ensures
            r == (self.conflicts@.len() == 0),
    {
        self.conflicts.len() == 0
    }
}

/// Where a conflict stands: the nonterminal, whether it is FIRST/FIRST (or
/// FIRST/FOLLOW), and the two productions (for FIRST/FOLLOW the nullable one
/// first).
pub type Site = (Seq<char>, bool, Seq<Sym>, Seq<Sym>);

/// The site of a conflict record.
pub open spec fn site_of(c: Ll1Conflict) -> Site {
    match c.kind {
        Ll1ConflictKind::FirstFirst { production1, production2 } => (
            c.non_terminal@,
            true,
            prod_view(production1@),
            prod_view(production2@),
        ),
        Ll1ConflictKind::FirstFollow { nullable_production, other_production } => (
            c.non_terminal@,
            false,
            prod_view(nullable_production@),
            prod_view(other_production@),
        ),
    }
}

/// FIRST of production `i` of rule `r`, without the empty word.
pub open spec fn prod_first(g: GrammarView, r: int, i: int) -> Set<SItem> {
    seq_first(g[r].1[i], grammar_first(g))
}

/// Production `i` of rule `r` derives the empty word.
pub open spec fn prod_nullable(g: GrammarView, r: int, i: int) -> bool {
    seq_nullable(g[r].1[i], grammar_first(g))
}

/// FOLLOW of rule `r`.
pub open spec fn rule_follow(g: GrammarView, r: int) -> Set<SItem> {
    grammar_follow(g)(g[r].0)
}

/// FIRST/FIRST sites of rule `r` for production `i` against productions
/// `i + 1 .. m`.
pub open spec fn ff_row(g: GrammarView, r: int, i: int, m: int) -> Seq<Site>
    decreases m - i,
{
    if m <= i + 1 {
        Seq::empty()
    } else {
        ff_row(g, r, i, m - 1) + if sets_overlap(prod_first(g, r, i), prod_first(g, r, m - 1)) {
            seq![(g[r].0, true, g[r].1[i], g[r].1[m - 1])]
        } else {
            Seq::empty()
        }
    }
}

/// FIRST/FIRST sites of rule `r` for productions `0 .. m` against later ones.
pub open spec fn ff_sites(g: GrammarView, r: int, m: int) -> Seq<Site>
    decreases m,
{
    if m <= 0 {
        Seq::empty()
    } else {
        ff_sites(g, r, m - 1) + ff_row(g, r, m - 1, g[r].1.len() as int)
    }
}

/// FIRST/FOLLOW sites of rule `r` for nullable production `i` against
/// productions `0 .. m` other than `i`.
pub open spec fn fo_row(g: GrammarView, r: int, i: int, m: int) -> Seq<Site>
    decreases m,
{
    if m <= 0 {
        Seq::empty()
    } else {
        fo_row(g, r, i, m - 1) + if m - 1 != i && sets_overlap(prod_first(g, r, m - 1), rule_follow(g, r)) {
            seq![(g[r].0, false, g[r].1[i], g[r].1[m - 1])]
        } else {
            Seq::empty()
        }
    }
}

/// FIRST/FOLLOW sites of rule `r` for the nullable ones of productions `0 .. m`.
pub open spec fn fo_sites(g: GrammarView, r: int, m: int) -> Seq<Site>
    decreases m,
{
    if m <= 0 {
        Seq::empty()
    } else {
        fo_sites(g, r, m - 1) + if prod_nullable(g, r, m - 1) {
            fo_row(g, r, m - 1, g[r].1.len() as int)
        } else {
            Seq::empty()
        }
    }
}

/// The conflict sites of rule `r`; none for a rule with a single production.
pub open spec fn rule_sites(g: GrammarView, r: int) -> Seq<Site> {
    if g[r].1.len() <= 1 {
        Seq::empty()
    } else {
        ff_sites(g, r, g[r].1.len() as int) + fo_sites(g, r, g[r].1.len() as int)
    }
}

/// The conflict sites of rules `0 .. m`, in order.
pub open spec fn ll1_sites(g: GrammarView, m: int) -> Seq<Site>
    decreases m,
{
    if m <= 0 {
        Seq::empty()
    } else {
        ll1_sites(g, m - 1) + rule_sites(g, m - 1)
    }
}

/// The check meets a pair of elements that it cannot decide.
pub open spec fn ll1_fails(g: GrammarView) -> bool {
    exists|r: int, i: int, j: int|
        0 <= r < g.len() && g[r].1.len() >= 2 && 0 <= i < g[r].1.len() && 0 <= j < g[r].1.len() && #[trigger] ll1_pair_fails(
            g,
            r,
            i,
            j,
        )
}

/// The FIRST/FIRST check of productions `i < j` of rule `r` meets a pair
/// that it cannot decide.
pub open spec fn ff_fails(g: GrammarView, r: int, i: int, j: int) -> bool {
    i < j && sets_fail(prod_first(g, r, i), prod_first(g, r, j))
}

/// The FIRST/FOLLOW check of nullable production `i` against production `j`
/// of rule `r` meets a pair that it cannot decide.
pub open spec fn fo_fails(g: GrammarView, r: int, i: int, j: int) -> bool {
    i != j && prod_nullable(g, r, i) && sets_fail(prod_first(g, r, j), rule_follow(g, r))
}

/// Productions `i` and `j` of rule `r` lead to a pair that cannot be decided.
pub open spec fn ll1_pair_fails(g: GrammarView, r: int, i: int, j: int) -> bool {
    ff_fails(g, r, i, j) || fo_fails(g, r, i, j)
}

/// The sites of a list of conflicts.
pub open spec fn conflict_sites(cs: Seq<Ll1Conflict>) -> Seq<Site> {
    cs.map_values(|c: Ll1Conflict| site_of(c))
}

/// The colliding pairs of a conflict are exactly those of its site.
pub open spec fn conflict_items_ok(c: Ll1Conflict, g: GrammarView) -> bool {
    let s = site_of(c);
    if s.1 {
        items_match(c.conflicts@, seq_first(s.2, grammar_first(g)), seq_first(s.3, grammar_first(g)))
    } else {
        items_match(c.conflicts@, seq_first(s.3, grammar_first(g)), grammar_follow(g)(s.0))
    }
}

/// Nonterminal `n` derives the empty word by expanding rules at most `k`
/// levels deep.
pub open spec fn derives_empty(g: GrammarView, n: Seq<char>, k: nat) -> bool
    decreases k,
{
    if k == 0 {
        false
    } else {
        exists|r: int, p: int|
            0 <= r < g.len() && g[r].0 == n && 0 <= p < g[r].1.len() && #[trigger] g[r].1[p].len() >= 0 && forall|i: int|
                #![trigger g[r].1[p][i]]
                0 <= i < g[r].1[p].len() ==> g[r].1[p][i] is NonTerminal && derives_empty(
                    g,
                    g[r].1[p][i]->NonTerminal_0,
                    (k - 1) as nat,
                )
    }
}

/// Every symbol of `alpha` is a nonterminal that derives the empty word
/// within `k` levels.
pub open spec fn all_derive_empty(g: GrammarView, alpha: Seq<Sym>, k: nat) -> bool {
    forall|i: int| #![trigger alpha[i]] 0 <= i < alpha.len() ==> alpha[i] is NonTerminal && derives_empty(
        g,
        alpha[i]->NonTerminal_0,
        k,
    )
}

proof fn lemma_derives_empty_mono(g: GrammarView, n: Seq<char>, k: nat, k2: nat)
    requires
        derives_empty(g, n, k),
        k <= k2,
    ensures
        derives_empty(g, n, k2),
    decreases k,
{
    let (r, p) = choose|r: int, p: int|
        0 <= r < g.len() && g[r].0 == n && 0 <= p < g[r].1.len() && #[trigger] g[r].1[p].len() >= 0 && forall|i: int|
            #![trigger g[r].1[p][i]]
            0 <= i < g[r].1[p].len() ==> g[r].1[p][i] is NonTerminal && derives_empty(
                g,
                g[r].1[p][i]->NonTerminal_0,
                (k - 1) as nat,
            );
    let alpha = g[r].1[p];
    assert forall|i: int| #![trigger alpha[i]] 0 <= i < alpha.len() implies alpha[i] is NonTerminal && derives_empty(
        g,
        alpha[i]->NonTerminal_0,
        (k2 - 1) as nat,
    ) by {
        lemma_derives_empty_mono(g, alpha[i]->NonTerminal_0, (k - 1) as nat, (k2 - 1) as nat);
    }
    assert(g[r].1[p].len() >= 0);
}

/// FIRST of a sequence never holds the empty word.
proof fn lemma_seq_first_no_epsilon(alpha: Seq<Sym>, f: spec_fn(Seq<char>) -> Set<SItem>)
    ensures
        !seq_first(alpha, f).contains(SItem::Epsilon),
    decreases alpha.len(),
{
    if alpha.len() > 0 {
        lemma_seq_first_no_epsilon(alpha.drop_first(), f);
    }
}

/// The table that holds every element but the empty word, and the empty
/// word for exactly the nonterminals that derive it.
pub open spec fn derivable_table(g: GrammarView) -> spec_fn(Seq<char>) -> Set<SItem> {
    |n: Seq<char>| Set::new(|x: SItem| x != SItem::Epsilon || exists|k: nat| derives_empty(g, n, k))
}

proof fn lemma_nullable_derives(g: GrammarView, alpha: Seq<Sym>)
    requires
        seq_nullable(alpha, derivable_table(g)),
    ensures
        exists|k: nat| all_derive_empty(g, alpha, k),
    decreases alpha.len(),
{
    let t = derivable_table(g);
    if alpha.len() == 0 {
        assert(all_derive_empty(g, alpha, 0));
    } else {
        let rest = alpha.drop_first();
        lemma_nullable_derives(g, rest);
        let k1 = choose|k: nat| all_derive_empty(g, rest, k);
        if let Sym::NonTerminal(m) = alpha[0] {
            assert(t(m).contains(SItem::Epsilon));
            let k0 = choose|k: nat| derives_empty(g, m, k);
            let big: nat = if k0 > k1 {
                k0
            } else {
                k1
            };
            assert forall|i: int| #![trigger alpha[i]] 0 <= i < alpha.len() implies alpha[i] is NonTerminal && derives_empty(
                g,
                alpha[i]->NonTerminal_0,
                big,
            ) by {
                if i == 0 {
                    lemma_derives_empty_mono(g, m, k0, big);
                } else {
                    assert(alpha[i] == rest[i - 1]);
                    lemma_derives_empty_mono(g, rest[i - 1]->NonTerminal_0, k1, big);
                }
            }
            assert(all_derive_empty(g, alpha, big));
        }
    }
}

/// If the empty word is in FIRST(N), then N derives the empty word.
pub proof fn first_epsilon_sound(g: GrammarView, f: spec_fn(Seq<char>) -> Set<SItem>, n: Seq<char>)
    requires
        is_least_first(g, f),
        f(n).contains(SItem::Epsilon),
    ensures
        exists|k: nat| derives_empty(g, n, k),
{
    let t = derivable_table(g);
    assert forall|r: int, p: int| 0 <= r < g.len() && 0 <= p < g[r].1.len() implies #[trigger] first_closed_at(
        g,
        t,
        r,
        p,
    ) by {
        let alpha = g[r].1[p];
        lemma_seq_first_no_epsilon(alpha, t);
        assert(seq_first(alpha, t).subset_of(t(g[r].0)));
        if seq_nullable(alpha, t) {
            lemma_nullable_derives(g, alpha);
            let k = choose|k: nat| all_derive_empty(g, alpha, k);
            assert(g[r].1[p].len() >= 0);
            assert(derives_empty(g, g[r].0, k + 1));
        }
    }
    assert(first_closed(g, t));
    assert(f(n).subset_of(t(n)));
}

/// FOLLOW of the start symbol holds the end of input.
pub proof fn start_follow_has_end(g: GrammarView, f: spec_fn(Seq<char>) -> Set<SItem>, h: spec_fn(Seq<char>) -> Set<SItem>)
    requires
        is_least_follow(g, f, h),
        g.len() > 0,
    ensures
        h(g[0].0).contains(SItem::EndOfInput),
{
}

/// A grammar in which every nonterminal has a single production has no
/// conflict and no undecidable pair: it is LL(1).
pub proof fn single_productions_are_ll1(g: GrammarView)
    requires
        forall|r: int| 0 <= r < g.len() ==> (#[trigger] g[r]).1.len() <= 1,
    ensures
        ll1_sites(g, g.len() as int) == Seq::<Site>::empty(),
        !ll1_fails(g),
{
    lemma_single_sites(g, g.len() as int);
}

proof fn lemma_single_sites(g: GrammarView, m: int)
    requires
        forall|r: int| 0 <= r < g.len() ==> (#[trigger] g[r]).1.len() <= 1,
        m <= g.len(),
    ensures
        ll1_sites(g, m) == Seq::<Site>::empty(),
    decreases m,
{
    if m > 0 {
        lemma_single_sites(g, m - 1);
        assert(g[m - 1].1.len() <= 1);
        assert(ll1_sites(g, m) =~= Seq::<Site>::empty());
    }
}

/// The text of a symbol.
pub open spec fn sym_text(s: Sym) -> Seq<char> {
    match s {
        Sym::NonTerminal(t) => t,
        Sym::Terminal(t) => t,
        Sym::Regex(t) => t,
    }
}

/// The texts of the symbols, separated by single spaces.
pub open spec fn joined(p: Seq<Sym>) -> Seq<char>
    decreases p.len(),
{
    if p.len() == 0 {
        Seq::empty()
    } else if p.len() == 1 {
        sym_text(p[0])
    } else {
        joined(p.drop_last()) + " "@ + sym_text(p.last())
    }
}

/// How a production is shown: its symbols separated by spaces, or `ε` when
/// it is empty.
pub open spec fn production_text(p: Seq<Sym>) -> Seq<char> {
    if p.len() == 0 {
        "ε"@
    } else {
        joined(p)
    }
}

/// The text of a production: its symbols separated by spaces, or `ε`.
pub fn format_production(items: &Vec<Item>) -> (r: String)
    ensures
        r@ == production_text(prod_view(items@)),
{
    proof {
        reveal_strlit("ε");
        reveal_strlit("");
    }
    if items.len() == 0 {
        return "ε".to_owned();
    }
    let ghost p = prod_view(items@);
    let mut acc = items[0].text();
    let mut i: usize = 1;
    proof {
        assert(p.subrange(0, 1).len() == 1);
        assert(p.subrange(0, 1)[0] == p[0]);
    }
    while i < items.len()
        invariant
            1 <= i <= items@.len(),
            p == prod_view(items@),
            acc@ == joined(p.subrange(0, i as int)),
        decreases items.len() - i,
    {
        let t = items[i].text();
        acc = concat3(acc.as_str(), " ", t.as_str());
        proof {
            assert(p.subrange(0, i + 1).drop_last() =~= p.subrange(0, i as int));
            assert(p.subrange(0, i + 1).last() == p[i as int]);
        }
        i = i + 1;
    }
    proof {
        assert(p.subrange(0, i as int) =~= p);
    }
    acc
}

/// How a set element is shown: a terminal without its quotes, a regular
/// expression with its slashes, `ε`, or `$`.
pub open spec fn set_item_text(x: SItem) -> Seq<char> {
    match x {
        SItem::Terminal(s) => strip_delims(s, '"'),
        SItem::Regex(s) => s,
        SItem::Epsilon => "ε"@,
        SItem::EndOfInput => "$"@,
    }
}

impl SetItem {
    /// The text of this element.
    pub fn text(&self) -> (r: String)
        ensures
            r@ == set_item_text(self@),
    {
        match self {
            SetItem::Terminal(s) => strip_terminal_quotes(s.as_str()),
            SetItem::Regex(s) => s.clone(),
            SetItem::Epsilon => "ε".to_owned(),
            SetItem::EndOfInput => "$".to_owned(),
        }
    }
}

} // verus!
