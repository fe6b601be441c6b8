use crate::bnf::{
    alternatives_eq, alts_view, copy_production, names_unique, prod_view, rules_view, Bnf,
    GrammarView, Item as BnfItem, Sym,
};
use crate::sebnf::{alts_eview, item_view, items_eview, EGrammarView, EItem, Item as EbnfItem, Sebnf};
use vstd::prelude::*;
use vstd::string::*;

verus! {

/// The decimal digit for `d < 10`.
pub open spec fn digit(d: nat) -> char {
    if d == 0 {
        '0'
    } else if d == 1 {
        '1'
    } else if d == 2 {
        '2'
    } else if d == 3 {
        '3'
    } else if d == 4 {
        '4'
    } else if d == 5 {
        '5'
    } else if d == 6 {
        '6'
    } else if d == 7 {
        '7'
    } else if d == 8 {
        '8'
    } else {
        '9'
    }
}

/// The decimal notation of `n`, without leading zeros.
pub open spec fn decimal(n: nat) -> Seq<char>
    decreases n,
{
    if n < 10 {
        seq![digit(n)]
    } else {
        decimal(n / 10).push(digit(n % 10))
    }
}

/// The name of helper number `n` of the given kind: `___<kind>_<n>`.
pub open spec fn helper_name(kind: Seq<char>, n: nat) -> Seq<char> {
    "___"@ + kind + "_"@ + decimal(n)
}

/// Names in the helper namespace start with three underscores.
pub open spec fn is_helper_name(n: Seq<char>) -> bool {
    n.len() >= 3 && n[0] == '_' && n[1] == '_' && n[2] == '_'
}

/// A helper name of the repetition kind.
pub open spec fn rep_name(n: Seq<char>) -> bool {
    n.len() >= 4 && n[3] == 'r'
}

proof fn lemma_decimal_len(n: nat)
    ensures
        decimal(n).len() >= 1,
        n >= 10 ==> decimal(n).len() >= 2,
    decreases n,
{
    if n >= 10 {
        lemma_decimal_len(n / 10);
    }
}

proof fn lemma_digit_injective(a: nat, b: nat)
    requires
        a < 10,
        b < 10,
        digit(a) == digit(b),
    ensures
        a == b,
{
}

/// Different numbers have different decimal notations.
proof fn lemma_decimal_injective(a: nat, b: nat)
    requires
        decimal(a) == decimal(b),
    ensures
        a == b,
    decreases a,
{
    lemma_decimal_len(a);
    lemma_decimal_len(b);
    if a < 10 && b < 10 {
        assert(decimal(a)[0] == digit(a));
        assert(decimal(b)[0] == digit(b));
        lemma_digit_injective(a, b);
    } else if a >= 10 && b >= 10 {
        assert(decimal(a).drop_last() =~= decimal(a / 10));
        assert(decimal(b).drop_last() =~= decimal(b / 10));
        lemma_decimal_injective(a / 10, b / 10);
        assert(decimal(a).last() == digit(a % 10));
        assert(decimal(b).last() == digit(b % 10));
        lemma_digit_injective(a % 10, b % 10);
        assert(a == 10 * (a / 10) + a % 10);
        assert(b == 10 * (b / 10) + b % 10);
    } else {
        lemma_decimal_len(a / 10);
        lemma_decimal_len(b / 10);
    }
}

/// The three kinds of helpers.
pub open spec fn kind_name(k: u8) -> Seq<char> {
    if k == 0 {
        "opt"@
    } else if k == 1 {
        "choice"@
    } else {
        "rep"@
    }
}

proof fn lemma_helper_name_facts(k: u8, n: nat)
    ensures
        is_helper_name(helper_name(kind_name(k), n)),
        rep_name(helper_name(kind_name(k), n)) == (k >= 2),
        helper_name(kind_name(k), n)[3] == kind_name(k)[0],
{
    reveal_strlit("___");
    reveal_strlit("opt");
    reveal_strlit("choice");
    reveal_strlit("rep");
    reveal_strlit("_");
    let s = helper_name(kind_name(k), n);
    assert(s[0] == '_' && s[1] == '_' && s[2] == '_');
    assert(s[3] == kind_name(k)[0]);
}

/// Helper names of different numbers differ, whatever their kinds.
proof fn lemma_helper_name_injective(k1: u8, n1: nat, k2: u8, n2: nat)
    requires
        helper_name(kind_name(k1), n1) == helper_name(kind_name(k2), n2),
    ensures
        n1 == n2,
{
    reveal_strlit("___");
    reveal_strlit("opt");
    reveal_strlit("choice");
    reveal_strlit("rep");
    reveal_strlit("_");
    lemma_helper_name_facts(k1, n1);
    lemma_helper_name_facts(k2, n2);
    let s = helper_name(kind_name(k1), n1);
    let kn1 = kind_name(k1);
    let kn2 = kind_name(k2);
    assert(kn1[0] == kn2[0]);
    assert(kn1 == kn2);
    let p = ("___"@ + kn1 + "_"@).len();
    assert(helper_name(kn1, n1).subrange(p as int, s.len() as int) =~= decimal(n1));
    assert(helper_name(kn2, n2).subrange(p as int, s.len() as int) =~= decimal(n2));
    lemma_decimal_injective(n1, n2);
}

/// Rule `k` of `g` is an optional or choice helper with alternatives `body`.
pub open spec fn body_helper(g: GrammarView, k: int, body: Seq<Seq<Sym>>) -> bool {
    0 <= k < g.len() && is_helper_name(g[k].0) && !rep_name(g[k].0) && g[k].1 == body
}

/// Rule `k` of `g` is the repetition helper of `beta`: `H := beta H | ε`.
pub open spec fn rep_helper(g: GrammarView, k: int, beta: Seq<Sym>) -> bool {
    0 <= k < g.len() && is_helper_name(g[k].0) && rep_name(g[k].0) && g[k].1 == seq![
        beta.push(Sym::NonTerminal(g[k].0)),
        Seq::<Sym>::empty(),
    ]
}

/// The alternatives of an optional helper: `beta | ε`.
pub open spec fn opt_body(beta: Seq<Sym>) -> Seq<Seq<Sym>> {
    seq![beta, Seq::<Sym>::empty()]
}

/// `g` has an optional or choice helper with alternatives `body`.
pub open spec fn has_body(g: GrammarView, body: Seq<Seq<Sym>>) -> bool {
    exists|k: int| #[trigger] body_helper(g, k, body)
}

/// `g` has the repetition helper of `beta`.
pub open spec fn has_rep(g: GrammarView, beta: Seq<Sym>) -> bool {
    exists|k: int| #[trigger] rep_helper(g, k, beta)
}

/// The name of the optional or choice helper with alternatives `body`.
pub open spec fn find_body(g: GrammarView, body: Seq<Seq<Sym>>) -> Seq<char> {
    g[choose|k: int| #[trigger] body_helper(g, k, body)].0
}

/// The name of the repetition helper of `beta`.
pub open spec fn find_rep(g: GrammarView, beta: Seq<Sym>) -> Seq<char> {
    g[choose|k: int| #[trigger] rep_helper(g, k, beta)].0
}

/// The symbol that stands for an EBNF item in `g`: the item itself for a
/// plain symbol, the helper nonterminal for a construct.
pub open spec fn lower_item(g: GrammarView, e: EItem) -> Sym
    decreases e,
{
    match e {
        EItem::NonTerminal(n) => Sym::NonTerminal(n),
        EItem::Terminal(n) => Sym::Terminal(n),
        EItem::Regex(n) => Sym::Regex(n),
        EItem::Optional(ch) => Sym::NonTerminal(find_body(g, opt_body(lower_seq(g, ch)))),
        EItem::AnyAmount(ch) => Sym::NonTerminal(find_rep(g, lower_seq(g, ch))),
        EItem::Choice(alts) => Sym::NonTerminal(find_body(g, lower_alts(g, alts))),
    }
}

/// The symbols that stand for a sequence of EBNF items.
pub open spec fn lower_seq(g: GrammarView, s: Seq<EItem>) -> Seq<Sym>
    decreases s,
{
    if s.len() == 0 {
        Seq::empty()
    } else {
        lower_seq(g, s.drop_last()).push(lower_item(g, s.last()))
    }
}

/// The productions that stand for a list of EBNF alternatives.
pub open spec fn lower_alts(g: GrammarView, a: Seq<Seq<EItem>>) -> Seq<Seq<Sym>>
    decreases a,
{
    if a.len() == 0 {
        Seq::empty()
    } else {
        lower_alts(g, a.drop_last()).push(lower_seq(g, a.last()))
    }
}

/// Every construct inside `e` has its helper in `g`.
pub open spec fn lowered(g: GrammarView, e: EItem) -> bool
    decreases e,
{
    match e {
        EItem::Optional(ch) => lowered_seq(g, ch) && has_body(g, opt_body(lower_seq(g, ch))),
        EItem::AnyAmount(ch) => lowered_seq(g, ch) && has_rep(g, lower_seq(g, ch)),
        EItem::Choice(alts) => lowered_alts(g, alts) && has_body(g, lower_alts(g, alts)),
        _ => true,
    }
}

/// Every construct inside the sequence has its helper in `g`.
pub open spec fn lowered_seq(g: GrammarView, s: Seq<EItem>) -> bool
    decreases s,
{
    if s.len() == 0 {
        true
    } else {
        lowered_seq(g, s.drop_last()) && lowered(g, s.last())
    }
}

/// Every construct inside the alternatives has its helper in `g`.
pub open spec fn lowered_alts(g: GrammarView, a: Seq<Seq<EItem>>) -> bool
    decreases a,
{
    if a.len() == 0 {
        true
    } else {
        lowered_alts(g, a.drop_last()) && lowered_seq(g, a.last())
    }
}

/// Structurally identical optional or choice constructs share one helper,
/// and so do structurally identical repetitions; a repetition helper has
/// the shape `H := beta H | ε`.
pub open spec fn helpers_dedup(g: GrammarView) -> bool {
    &&& forall|i: int, j: int|
        0 <= i < g.len() && 0 <= j < g.len() && i != j && is_helper_name(g[i].0) && is_helper_name(g[j].0)
            && !rep_name(g[i].0) && !rep_name(g[j].0) ==> #[trigger] g[i].1 != #[trigger] g[j].1
    &&& forall|k: int|
        0 <= k < g.len() && is_helper_name(g[k].0) && rep_name(g[k].0) ==> #[trigger] rep_shaped(g, k)
    &&& forall|i: int, j: int|
        0 <= i < g.len() && 0 <= j < g.len() && i != j && rep_shaped(g, i) && rep_shaped(g, j) && is_helper_name(g[i].0)
            && is_helper_name(g[j].0) && rep_name(g[i].0) && rep_name(g[j].0) ==> #[trigger] rep_beta(g, i)
            != #[trigger] rep_beta(g, j)
}

/// Rule `k` has the shape `H := beta H | ε`.
pub open spec fn rep_shaped(g: GrammarView, k: int) -> bool {
    g[k].1.len() == 2 && g[k].1[0].len() >= 1 && g[k].1[0].last() == Sym::NonTerminal(g[k].0) && g[k].1[1].len() == 0
}

/// The repeated body of repetition helper `k`, without the self-reference.
pub open spec fn rep_beta(g: GrammarView, k: int) -> Seq<Sym> {
    g[k].1[0].drop_last()
}

/// Every rule of `g1` is a rule of `g2`.
pub open spec fn rules_within(g1: GrammarView, g2: GrammarView) -> bool {
    forall|k: int| 0 <= k < g1.len() ==> g2.contains(#[trigger] g1[k])
}

proof fn lemma_find_body_stable(g1: GrammarView, g2: GrammarView, body: Seq<Seq<Sym>>)
    requires
        rules_within(g1, g2),
        helpers_dedup(g2),
        exists|k: int| #[trigger] body_helper(g1, k, body),
    ensures
        find_body(g1, body) == find_body(g2, body),
        exists|k: int| #[trigger] body_helper(g2, k, body),
{
    let k1 = choose|k: int| #[trigger] body_helper(g1, k, body);
    assert(g2.contains(g1[k1]));
    let k2 = choose|k2: int| 0 <= k2 < g2.len() && #[trigger] g2[k2] == g1[k1];
    assert(body_helper(g2, k2, body));
    let c2 = choose|k: int| #[trigger] body_helper(g2, k, body);
    assert(g2[c2].1 == g2[k2].1);
    assert(c2 == k2);
}

proof fn lemma_find_rep_stable(g1: GrammarView, g2: GrammarView, beta: Seq<Sym>)
    requires
        rules_within(g1, g2),
        helpers_dedup(g2),
        exists|k: int| #[trigger] rep_helper(g1, k, beta),
    ensures
        find_rep(g1, beta) == find_rep(g2, beta),
        exists|k: int| #[trigger] rep_helper(g2, k, beta),
{
    let k1 = choose|k: int| #[trigger] rep_helper(g1, k, beta);
    assert(g2.contains(g1[k1]));
    let k2 = choose|k2: int| 0 <= k2 < g2.len() && #[trigger] g2[k2] == g1[k1];
    assert(rep_helper(g2, k2, beta));
    let c2 = choose|k: int| #[trigger] rep_helper(g2, k, beta);
    assert(rep_shaped(g2, c2) && rep_shaped(g2, k2));
    assert(g2[c2].1[0].drop_last() =~= beta);
    assert(g2[k2].1[0].drop_last() =~= beta);
    assert(rep_beta(g2, c2) == rep_beta(g2, k2));
    assert(c2 == k2);
}

/// Lowering is unchanged when the grammar grows, once every helper it needs
/// is there.
proof fn lemma_lower_stable(g1: GrammarView, g2: GrammarView, e: EItem)
    requires
        rules_within(g1, g2),
        helpers_dedup(g2),
        lowered(g1, e),
    ensures
        lower_item(g1, e) == lower_item(g2, e),
        lowered(g2, e),
    decreases e,
{
    match e {
        EItem::Optional(ch) => {
            lemma_lower_seq_stable(g1, g2, ch);
            lemma_find_body_stable(g1, g2, opt_body(lower_seq(g1, ch)));
        },
        EItem::AnyAmount(ch) => {
            lemma_lower_seq_stable(g1, g2, ch);
            lemma_find_rep_stable(g1, g2, lower_seq(g1, ch));
        },
        EItem::Choice(alts) => {
            lemma_lower_alts_stable(g1, g2, alts);
            lemma_find_body_stable(g1, g2, lower_alts(g1, alts));
        },
        _ => {},
    }
}

proof fn lemma_lower_seq_stable(g1: GrammarView, g2: GrammarView, s: Seq<EItem>)
    requires
        rules_within(g1, g2),
        helpers_dedup(g2),
        lowered_seq(g1, s),
    ensures
        lower_seq(g1, s) == lower_seq(g2, s),
        lowered_seq(g2, s),
    decreases s,
{
    if s.len() > 0 {
        lemma_lower_seq_stable(g1, g2, s.drop_last());
        lemma_lower_stable(g1, g2, s.last());
    }
}

proof fn lemma_lower_alts_stable(g1: GrammarView, g2: GrammarView, a: Seq<Seq<EItem>>)
    requires
        rules_within(g1, g2),
        helpers_dedup(g2),
        lowered_alts(g1, a),
    ensures
        lower_alts(g1, a) == lower_alts(g2, a),
        lowered_alts(g2, a),
    decreases a,
{
    if a.len() > 0 {
        lemma_lower_alts_stable(g1, g2, a.drop_last());
        lemma_lower_seq_stable(g1, g2, a.last());
    }
}

/// Adds the optional or choice helper with alternatives `body` unless `h`
/// has it: the helpers afterwards and the helper's nonterminal.
pub open spec fn add_body(h: GrammarView, body: Seq<Seq<Sym>>, kind: Seq<char>) -> (GrammarView, Sym) {
    if has_body(h, body) {
        (h, Sym::NonTerminal(find_body(h, body)))
    } else {
        let n = helper_name(kind, h.len() as nat);
        (h.push((n, body)), Sym::NonTerminal(n))
    }
}

/// Adds the repetition helper of `beta` unless `h` has it.
pub open spec fn add_rep(h: GrammarView, beta: Seq<Sym>) -> (GrammarView, Sym) {
    if has_rep(h, beta) {
        (h, Sym::NonTerminal(find_rep(h, beta)))
    } else {
        let n = helper_name("rep"@, h.len() as nat);
        (h.push((n, seq![beta.push(Sym::NonTerminal(n)), Seq::<Sym>::empty()])), Sym::NonTerminal(n))
    }
}

/// Desugaring of one item, given the helpers made so far: the helpers
/// afterwards (new ones appended, inner constructs first) and the symbol
/// that stands for the item.
pub open spec fn dl_item(h: GrammarView, e: EItem) -> (GrammarView, Sym)
    decreases e,
{
    match e {
        EItem::NonTerminal(n) => (h, Sym::NonTerminal(n)),
        EItem::Terminal(n) => (h, Sym::Terminal(n)),
        EItem::Regex(n) => (h, Sym::Regex(n)),
        EItem::Optional(ch) => add_body(dl_seq(h, ch).0, opt_body(dl_seq(h, ch).1), "opt"@),
        EItem::AnyAmount(ch) => add_rep(dl_seq(h, ch).0, dl_seq(h, ch).1),
        EItem::Choice(alts) => add_body(dl_alts(h, alts).0, dl_alts(h, alts).1, "choice"@),
    }
}

/// Desugaring of a sequence of items, left to right.
pub open spec fn dl_seq(h: GrammarView, s: Seq<EItem>) -> (GrammarView, Seq<Sym>)
    decreases s,
{
    if s.len() == 0 {
        (h, Seq::empty())
    } else {
        let pre = dl_seq(h, s.drop_last());
        let x = dl_item(pre.0, s.last());
        (x.0, pre.1.push(x.1))
    }
}

/// Desugaring of a list of alternatives, left to right.
pub open spec fn dl_alts(h: GrammarView, a: Seq<Seq<EItem>>) -> (GrammarView, Seq<Seq<Sym>>)
    decreases a,
{
    if a.len() == 0 {
        (h, Seq::empty())
    } else {
        let pre = dl_alts(h, a.drop_last());
        let x = dl_seq(pre.0, a.last());
        (x.0, pre.1.push(x.1))
    }
}

/// Desugaring of the first `m` rules, from no helpers: the helpers and the
/// lowered alternatives of each rule.
pub open spec fn dl_rules(e: EGrammarView, m: int) -> (GrammarView, Seq<Seq<Seq<Sym>>>)
    decreases m,
{
    if m <= 0 {
        (Seq::empty(), Seq::empty())
    } else {
        let pre = dl_rules(e, m - 1);
        let x = dl_alts(pre.0, e[m - 1].1);
        (x.0, pre.1.push(x.1))
    }
}

/// The BNF grammar that desugaring `e` gives: the rules of `e` in order with
/// their lowered alternatives, then the helpers in the order they were made.
pub open spec fn desugar(e: EGrammarView) -> GrammarView {
    let d = dl_rules(e, e.len() as int);
    Seq::new(e.len(), |i: int| (e[i].0, d.1[i])) + d.0
}

proof fn lemma_dl_noop(h: GrammarView, e: EItem)
    requires
        helpers_dedup(h),
        lowered(h, e),
    ensures
        dl_item(h, e) == (h, lower_item(h, e)),
    decreases e,
{
    match e {
        EItem::Optional(ch) => {
            lemma_dl_seq_noop(h, ch);
        },
        EItem::AnyAmount(ch) => {
            lemma_dl_seq_noop(h, ch);
        },
        EItem::Choice(alts) => {
            lemma_dl_alts_noop(h, alts);
        },
        _ => {},
    }
}

proof fn lemma_dl_seq_noop(h: GrammarView, s: Seq<EItem>)
    requires
        helpers_dedup(h),
        lowered_seq(h, s),
    ensures
        dl_seq(h, s) == (h, lower_seq(h, s)),
    decreases s,
{
    if s.len() > 0 {
        lemma_dl_seq_noop(h, s.drop_last());
        lemma_dl_noop(h, s.last());
    }
}

proof fn lemma_dl_alts_noop(h: GrammarView, a: Seq<Seq<EItem>>)
    requires
        helpers_dedup(h),
        lowered_alts(h, a),
    ensures
        dl_alts(h, a) == (h, lower_alts(h, a)),
    decreases a,
{
    if a.len() > 0 {
        lemma_dl_alts_noop(h, a.drop_last());
        lemma_dl_seq_noop(h, a.last());
    }
}

/// Desugaring an item whose helpers all exist already adds nothing: a second
/// conversion of the same item leaves the helpers as they are and gives the
/// same symbol.
pub proof fn desugar_item_again(h: GrammarView, e: EItem)
    requires
        helpers_dedup(h),
        lowered(h, e),
    ensures
        dl_item(h, e).0 == h,
        dl_item(h, e).1 == lower_item(h, e),
{
    lemma_dl_noop(h, e);
}

proof fn lemma_find_body_at(g: GrammarView, k: int, body: Seq<Seq<Sym>>)
    requires
        helpers_dedup(g),
        body_helper(g, k, body),
    ensures
        find_body(g, body) == g[k].0,
        has_body(g, body),
{
    let c = choose|c: int| #[trigger] body_helper(g, c, body);
    assert(g[c].1 == g[k].1);
}

proof fn lemma_find_rep_at(g: GrammarView, k: int, beta: Seq<Sym>)
    requires
        helpers_dedup(g),
        rep_helper(g, k, beta),
    ensures
        find_rep(g, beta) == g[k].0,
        has_rep(g, beta),
{
    let c = choose|c: int| #[trigger] rep_helper(g, c, beta);
    assert(rep_shaped(g, c) && rep_shaped(g, k));
    assert(g[c].1[0].drop_last() =~= beta);
    assert(g[k].1[0].drop_last() =~= beta);
    assert(rep_beta(g, c) == rep_beta(g, k));
}

proof fn lemma_prefix_within(g1: GrammarView, g2: GrammarView)
    requires
        g1.len() <= g2.len(),
        g2.subrange(0, g1.len() as int) == g1,
    ensures
        rules_within(g1, g2),
{
    assert forall|k: int| 0 <= k < g1.len() implies g2.contains(#[trigger] g1[k]) by {
        assert(g2[k] == g2.subrange(0, g1.len() as int)[k]);
    }
}

/// Relies on `ToString` for `usize`: its decimal notation, without leading
/// zeros.
#[verifier::external_body]
fn decimal_text(n: usize) -> (r: String)
    ensures
        r@ == decimal(n as nat),
{
    n.to_string()
}

/// The helper name `___<kind>_<n>`.
fn format_helper_name(kind: &str, n: usize) -> (r: String)
    ensures
        r@ == helper_name(kind@, n as nat),
{
    let digits = decimal_text(n);
    let mut r = String::from_str("___");
    r.append(kind);
    r.append("_");
    r.append(digits.as_str());
    proof {
        reveal_strlit("___");
        reveal_strlit("_");
    }
    r
}

/// The state of a desugaring: the helper rules made so far, their kinds, and
/// the number of the next helper.
struct ConverterContext {
    bnf_rules: Vec<(String, Vec<Vec<BnfItem>>)>,
    kinds: Vec<u8>,
    uid_counter: usize,
}

impl ConverterContext {
    spec fn helpers(&self) -> GrammarView {
        rules_view(self.bnf_rules@)
    }

    /// Helper `k` is named `___<kind>_<k>`, and helpers are deduplicated.
    spec fn wf(&self) -> bool {
        &&& self.kinds@.len() == self.bnf_rules@.len()
        &&& self.uid_counter == self.bnf_rules@.len()
        &&& forall|k: int|
            0 <= k < self.kinds@.len() ==> #[trigger] self.kinds@[k] <= 2 && self.helpers()[k].0 == helper_name(
                kind_name(self.kinds@[k]),
                k as nat,
            )
        &&& helpers_dedup(self.helpers())
    }

    /// The helpers of `self` are those of `before`, maybe with more after them.
    spec fn extends(&self, before: GrammarView) -> bool {
        before.len() <= self.helpers().len() && self.helpers().subrange(0, before.len() as int) == before
    }

    fn new() -> (c: Self)
        ensures
            c.wf(),
            c.helpers().len() == 0,
    {
        ConverterContext { bnf_rules: Vec::new(), kinds: Vec::new(), uid_counter: 0 }
    }

    /// The optional or choice helper with alternatives `body`, if there is one.
    fn find_body_helper(&self, body: &Vec<Vec<BnfItem>>) -> (r: Option<usize>)
        requires
            self.wf(),
        ensures
            match r {
                Some(k) => body_helper(self.helpers(), k as int, alts_view(body@)),
                None => !has_body(self.helpers(), alts_view(body@)),
            },
    {
        let mut k: usize = 0;
        while k < self.bnf_rules.len()
            invariant
                self.wf(),
                k <= self.bnf_rules@.len(),
                forall|j: int| 0 <= j < k ==> !#[trigger] body_helper(self.helpers(), j, alts_view(body@)),
            decreases self.bnf_rules.len() - k,
        {
            proof {
                lemma_helper_name_facts(self.kinds@[k as int], k as nat);
            }
            if self.kinds[k] != 2 && alternatives_eq(&self.bnf_rules[k].1, body) {
                return Some(k);
            }
            k = k + 1;
        }
        None
    }

    /// The repetition helper of `beta`, if there is one.
    fn find_rep_helper(&self, beta: &Vec<BnfItem>) -> (r: Option<usize>)
        requires
            self.wf(),
        ensures
            match r {
                Some(k) => rep_helper(self.helpers(), k as int, prod_view(beta@)),
                None => !has_rep(self.helpers(), prod_view(beta@)),
            },
    {
        let mut k: usize = 0;
        while k < self.bnf_rules.len()
            invariant
                self.wf(),
                k <= self.bnf_rules@.len(),
                forall|j: int| 0 <= j < k ==> !#[trigger] rep_helper(self.helpers(), j, prod_view(beta@)),
            decreases self.bnf_rules.len() - k,
        {
            proof {
                lemma_helper_name_facts(self.kinds@[k as int], k as nat);
            }
            if self.kinds[k] == 2 {
                let mut candidate = copy_production(beta);
                candidate.push(BnfItem::NonTerminal(self.bnf_rules[k].0.clone()));
                let ghost cv = prod_view(candidate@);
                proof {
                    assert(cv =~= prod_view(beta@).push(Sym::NonTerminal(self.helpers()[k as int].0)));
                }
                let body = vec![candidate, Vec::new()];
                proof {
                    assert(alts_view(body@)[0] == cv);
                    assert(alts_view(body@)[1] =~= Seq::<Sym>::empty());
                    assert(alts_view(body@) =~= seq![
                        prod_view(beta@).push(Sym::NonTerminal(self.helpers()[k as int].0)),
                        Seq::<Sym>::empty(),
                    ]);
                }
                if alternatives_eq(&self.bnf_rules[k].1, &body) {
                    return Some(k);
                }
            }
            k = k + 1;
        }
        None
    }

    /// Appends a helper of the given kind, named after the counter.
    fn add_helper(&mut self, kind: u8, name: String, body: Vec<Vec<BnfItem>>)
        requires
            old(self).wf(),
            kind <= 2,
            name@ == helper_name(kind_name(kind), old(self).uid_counter as nat),
            kind < 2 ==> !has_body(old(self).helpers(), alts_view(body@)),
            kind == 2 ==> alts_view(body@).len() == 2 && alts_view(body@)[0].len() >= 1
                && alts_view(body@)[0].last() == Sym::NonTerminal(name@) && alts_view(body@)[1].len() == 0
                && !has_rep(old(self).helpers(), alts_view(body@)[0].drop_last()),
        ensures
            final(self).wf(),
            final(self).extends(old(self).helpers()),
            final(self).helpers() == old(self).helpers().push((name@, alts_view(body@))),
    {
        let ghost h0 = self.helpers();
        let ghost n = h0.len();
        self.bnf_rules.push((name, body));
        self.kinds.push(kind);
        self.uid_counter = self.bnf_rules.len();
        proof {
            let h = self.helpers();
            assert(h =~= h0.push((name@, alts_view(body@))));
            assert(h.subrange(0, n as int) =~= h0);
            lemma_helper_name_facts(kind, n as nat);
            assert forall|k: int| 0 <= k < self.kinds@.len() implies #[trigger] self.kinds@[k] <= 2 && self.helpers()[k].0
                == helper_name(kind_name(self.kinds@[k]), k as nat) by {
                if k < n {
                    assert(h[k] == h0[k]);
                }
            }
            assert forall|i: int, j: int|
                0 <= i < h.len() && 0 <= j < h.len() && i != j && is_helper_name(h[i].0) && is_helper_name(h[j].0)
                    && !rep_name(h[i].0) && !rep_name(h[j].0) implies #[trigger] h[i].1 != #[trigger] h[j].1 by {
                if i == n || j == n {
                    let o = if i == n { j } else { i };
                    assert(h[o] == h0[o]);
                    if h[i].1 == h[j].1 {
                        assert(body_helper(h0, o, alts_view(body@)));
                    }
                } else {
                    assert(h[i] == h0[i] && h[j] == h0[j]);
                }
            }
            assert forall|k: int|
                0 <= k < h.len() && is_helper_name(h[k].0) && rep_name(h[k].0) implies #[trigger] rep_shaped(h, k) by {
                if k < n {
                    assert(h[k] == h0[k]);
                    assert(rep_shaped(h0, k));
                }
            }
            assert forall|i: int, j: int|
                0 <= i < h.len() && 0 <= j < h.len() && i != j && rep_shaped(h, i) && rep_shaped(h, j) && is_helper_name(
                    h[i].0,
                ) && is_helper_name(h[j].0) && rep_name(h[i].0) && rep_name(h[j].0) implies #[trigger] rep_beta(h, i)
                != #[trigger] rep_beta(h, j) by {
                if i == n || j == n {
                    let o = if i == n { j } else { i };
                    assert(h[o] == h0[o]);
                    assert(rep_shaped(h0, o));
                    if rep_beta(h, i) == rep_beta(h, j) {
                        let beta = alts_view(body@)[0].drop_last();
                        assert(h[n as int] == (name@, alts_view(body@)));
                        assert(rep_beta(h, n as int) == beta);
                        assert(rep_beta(h, o) == h0[o].1[0].drop_last());
                        let a0 = h0[o].1[0];
                        assert(a0 =~= a0.drop_last().push(a0.last()));
                        assert(h0[o].1[1] =~= Seq::<Sym>::empty());
                        assert(h0[o].1 =~= seq![beta.push(Sym::NonTerminal(h0[o].0)), Seq::<Sym>::empty()]);
                        assert(rep_helper(h0, o, beta));
                    }
                } else {
                    assert(h[i] == h0[i] && h[j] == h0[j]);
                    assert(rep_beta(h, i) == rep_beta(h0, i));
                    assert(rep_beta(h, j) == rep_beta(h0, j));
                    assert(rep_shaped(h0, i) && rep_shaped(h0, j));
                }
            }
        }
    }
}

impl ConverterContext {
    /// A fresh helper name of the given kind.
    fn next_name(&self, kind: u8) -> (r: String)
        requires
            kind <= 2,
        ensures
            r@ == helper_name(kind_name(kind), self.uid_counter as nat),
    {
        let k = if kind == 0 {
            "opt"
        } else if kind == 1 {
            "choice"
        } else {
            "rep"
        };
        proof {
            reveal_strlit("opt");
            reveal_strlit("choice");
            reveal_strlit("rep");
        }
        format_helper_name(k, self.uid_counter)
    }

    /// Lowers one EBNF item, adding the helpers it needs.
    fn convert_item(&mut self, item: &EbnfItem) -> (r: BnfItem)
        requires
            old(self).wf(),
        ensures
            final(self).wf(),
            final(self).extends(old(self).helpers()),
            r@ == lower_item(final(self).helpers(), item_view(*item)),
            lowered(final(self).helpers(), item_view(*item)),
            (final(self).helpers(), r@) == dl_item(old(self).helpers(), item_view(*item)),
            lowered(old(self).helpers(), item_view(*item)) ==> final(self).helpers() == old(self).helpers(),
        decreases item,
    {
        proof {
            assert(self.helpers().subrange(0, self.helpers().len() as int) =~= self.helpers());
            if lowered(self.helpers(), item_view(*item)) {
                lemma_dl_noop(self.helpers(), item_view(*item));
            }
            reveal_strlit("opt");
            reveal_strlit("choice");
            reveal_strlit("rep");
        }
        match item {
            EbnfItem::NonTerminal(s) => BnfItem::NonTerminal(s.clone()),
            EbnfItem::Terminal(s) => BnfItem::Terminal(s.clone()),
            EbnfItem::Regex(s) => BnfItem::Regex(s.clone()),
            EbnfItem::Optional(children) => {
                let converted = self.convert_sequence(children);
                let ghost beta = prod_view(converted@);
                let body = vec![converted, Vec::new()];
                proof {
                    assert(body@.len() == 2);
                    assert(alts_view(body@)[0] == beta);
                    assert(prod_view(body@[1]@) =~= Seq::<Sym>::empty());
                    assert(alts_view(body@) =~= opt_body(beta));
                }
                let ghost h1 = self.helpers();
                match self.find_body_helper(&body) {
                    Some(k) => {
                        proof {
                            lemma_find_body_at(h1, k as int, opt_body(beta));
                        }
                        BnfItem::NonTerminal(self.bnf_rules[k].0.clone())
                    },
                    None => {
                        let name = self.next_name(0);
                        let ghost nm = name@;
                        self.add_helper(0, name.clone(), body);
                        proof {
                            let h2 = self.helpers();
                            lemma_prefix_within(h1, h2);
                            lemma_lower_seq_stable(h1, h2, items_eview(children@));
                            lemma_helper_name_facts(0, h1.len() as nat);
                            assert(body_helper(h2, h1.len() as int, opt_body(beta)));
                            lemma_find_body_at(h2, h1.len() as int, opt_body(beta));
                            assert(self.helpers().subrange(0, old(self).helpers().len() as int) =~= old(self).helpers()) by {
                                assert(h2.subrange(0, h1.len() as int) == h1);
                                assert(h1.subrange(0, old(self).helpers().len() as int) == old(self).helpers());
                            }
                        }
                        BnfItem::NonTerminal(name)
                    },
                }
            },
            EbnfItem::AnyAmount(children) => {
                let converted = self.convert_sequence(children);
                let ghost beta = prod_view(converted@);
                let ghost h1 = self.helpers();
                match self.find_rep_helper(&converted) {
                    Some(k) => {
                        proof {
                            lemma_find_rep_at(h1, k as int, beta);
                        }
                        BnfItem::NonTerminal(self.bnf_rules[k].0.clone())
                    },
                    None => {
                        let name = self.next_name(2);
                        let mut recursive_alt = converted;
                        recursive_alt.push(BnfItem::NonTerminal(name.clone()));
                        let body = vec![recursive_alt, Vec::new()];
                        proof {
                            assert(prod_view(body@[0]@) =~= beta.push(Sym::NonTerminal(name@)));
                            assert(prod_view(body@[0]@).drop_last() =~= beta);
                            assert(body@.len() == 2);
                            assert(prod_view(body@[1]@) =~= Seq::<Sym>::empty());
                            assert(alts_view(body@) =~= seq![beta.push(Sym::NonTerminal(name@)), Seq::<Sym>::empty()]);
                        }
                        self.add_helper(2, name.clone(), body);
                        proof {
                            let h2 = self.helpers();
                            lemma_prefix_within(h1, h2);
                            lemma_lower_seq_stable(h1, h2, items_eview(children@));
                            lemma_helper_name_facts(2, h1.len() as nat);
                            assert(rep_helper(h2, h1.len() as int, beta));
                            lemma_find_rep_at(h2, h1.len() as int, beta);
                            assert(self.helpers().subrange(0, old(self).helpers().len() as int) =~= old(self).helpers()) by {
                                assert(h2.subrange(0, h1.len() as int) == h1);
                                assert(h1.subrange(0, old(self).helpers().len() as int) == old(self).helpers());
                            }
                        }
                        BnfItem::NonTerminal(name)
                    },
                }
            },
            EbnfItem::Choice(alternatives) => {
                let body = self.convert_alternatives(alternatives);
                let ghost gamma = alts_view(body@);
                let ghost h1 = self.helpers();
                match self.find_body_helper(&body) {
                    Some(k) => {
                        proof {
                            lemma_find_body_at(h1, k as int, gamma);
                        }
                        BnfItem::NonTerminal(self.bnf_rules[k].0.clone())
                    },
                    None => {
                        let name = self.next_name(1);
                        self.add_helper(1, name.clone(), body);
                        proof {
                            let h2 = self.helpers();
                            lemma_prefix_within(h1, h2);
                            lemma_lower_alts_stable(h1, h2, alts_eview(alternatives@));
                            lemma_helper_name_facts(1, h1.len() as nat);
                            assert(body_helper(h2, h1.len() as int, gamma));
                            lemma_find_body_at(h2, h1.len() as int, gamma);
                            assert(self.helpers().subrange(0, old(self).helpers().len() as int) =~= old(self).helpers()) by {
                                assert(h2.subrange(0, h1.len() as int) == h1);
                                assert(h1.subrange(0, old(self).helpers().len() as int) == old(self).helpers());
                            }
                        }
                        BnfItem::NonTerminal(name)
                    },
                }
            },
        }
    }

    /// Lowers a sequence of EBNF items.
    fn convert_sequence(&mut self, items: &Vec<EbnfItem>) -> (r: Vec<BnfItem>)
        requires
            old(self).wf(),
        ensures
            final(self).wf(),
            final(self).extends(old(self).helpers()),
            prod_view(r@) == lower_seq(final(self).helpers(), items_eview(items@)),
            lowered_seq(final(self).helpers(), items_eview(items@)),
            (final(self).helpers(), prod_view(r@)) == dl_seq(old(self).helpers(), items_eview(items@)),
        decreases items,
    {
        let mut out: Vec<BnfItem> = Vec::new();
        let mut i: usize = 0;
        proof {
            assert(items@.subrange(0, 0) =~= Seq::<EbnfItem>::empty());
            assert(prod_view(out@) =~= Seq::<Sym>::empty());
            assert(self.helpers().subrange(0, self.helpers().len() as int) =~= self.helpers());
        }
        while i < items.len()
            invariant
                self.wf(),
                self.extends(old(self).helpers()),
                i <= items@.len(),
                prod_view(out@) == lower_seq(self.helpers(), items_eview(items@.subrange(0, i as int))),
                lowered_seq(self.helpers(), items_eview(items@.subrange(0, i as int))),
                (self.helpers(), prod_view(out@)) == dl_seq(old(self).helpers(), items_eview(items@.subrange(0, i as int))),
            decreases items.len() - i,
        {
            let ghost h1 = self.helpers();
            let ghost pre = items_eview(items@.subrange(0, i as int));
            proof {
                assert(decreases_to!(items => items@[i as int]));
            }
            let x = self.convert_item(&items[i]);
            proof {
                let h2 = self.helpers();
                lemma_prefix_within(h1, h2);
                lemma_lower_seq_stable(h1, h2, pre);
                assert(items@.subrange(0, i + 1).drop_last() =~= items@.subrange(0, i as int));
                assert(items_eview(items@.subrange(0, i + 1)) == pre.push(item_view(items@[i as int])));
                assert(pre.push(item_view(items@[i as int])).drop_last() =~= pre);
                assert(self.helpers().subrange(0, old(self).helpers().len() as int) =~= old(self).helpers()) by {
                    assert(h2.subrange(0, h1.len() as int) == h1);
                    assert(h1.subrange(0, old(self).helpers().len() as int) == old(self).helpers());
                }
            }
            let ghost before = out@;
            out.push(x);
            proof {
                assert(prod_view(out@) =~= prod_view(before).push(x@));
            }
            i = i + 1;
        }
        proof {
            assert(items@.subrange(0, i as int) =~= items@);
        }
        out
    }

    /// Lowers a list of EBNF alternatives.
    fn convert_alternatives(&mut self, alts: &Vec<Vec<EbnfItem>>) -> (r: Vec<Vec<BnfItem>>)
        requires
            old(self).wf(),
        ensures
            final(self).wf(),
            final(self).extends(old(self).helpers()),
            alts_view(r@) == lower_alts(final(self).helpers(), alts_eview(alts@)),
            lowered_alts(final(self).helpers(), alts_eview(alts@)),
            (final(self).helpers(), alts_view(r@)) == dl_alts(old(self).helpers(), alts_eview(alts@)),
        decreases alts,
    {
        let mut out: Vec<Vec<BnfItem>> = Vec::new();
        let mut i: usize = 0;
        proof {
            assert(alts@.subrange(0, 0) =~= Seq::<Vec<EbnfItem>>::empty());
            assert(alts_view(out@) =~= Seq::<Seq<Sym>>::empty());
            assert(self.helpers().subrange(0, self.helpers().len() as int) =~= self.helpers());
        }
        while i < alts.len()
            invariant
                self.wf(),
                self.extends(old(self).helpers()),
                i <= alts@.len(),
                alts_view(out@) == lower_alts(self.helpers(), alts_eview(alts@.subrange(0, i as int))),
                lowered_alts(self.helpers(), alts_eview(alts@.subrange(0, i as int))),
                (self.helpers(), alts_view(out@)) == dl_alts(old(self).helpers(), alts_eview(alts@.subrange(0, i as int))),
            decreases alts.len() - i,
        {
            let ghost h1 = self.helpers();
            let ghost pre = alts_eview(alts@.subrange(0, i as int));
            proof {
                assert(decreases_to!(alts => alts@[i as int]));
            }
            let x = self.convert_sequence(&alts[i]);
            proof {
                let h2 = self.helpers();
                lemma_prefix_within(h1, h2);
                lemma_lower_alts_stable(h1, h2, pre);
                assert(alts@.subrange(0, i + 1).drop_last() =~= alts@.subrange(0, i as int));
                assert(alts_eview(alts@.subrange(0, i + 1)) == pre.push(items_eview(alts@[i as int]@)));
                assert(pre.push(items_eview(alts@[i as int]@)).drop_last() =~= pre);
                assert(self.helpers().subrange(0, old(self).helpers().len() as int) =~= old(self).helpers()) by {
                    assert(h2.subrange(0, h1.len() as int) == h1);
                    assert(h1.subrange(0, old(self).helpers().len() as int) == old(self).helpers());
                }
            }
            let ghost before = out@;
            out.push(x);
            proof {
                assert(alts_view(out@) =~= alts_view(before).push(prod_view(x@)));
            }
            i = i + 1;
        }
        proof {
            assert(alts@.subrange(0, i as int) =~= alts@);
        }
        out
    }
}

/// The rule names of an EBNF grammar are unique and outside the helper
/// namespace.
pub open spec fn ebnf_names_ok(e: EGrammarView) -> bool {
    &&& ebnf_names_unique(e)
    &&& forall|i: int| 0 <= i < e.len() ==> !is_helper_name(#[trigger] e[i].0)
}

/// No two rules of `e` share a name.
pub open spec fn ebnf_names_unique(e: EGrammarView) -> bool {
    forall|i: int, j: int| 0 <= i < e.len() && 0 <= j < e.len() && i != j ==> e[i].0 != e[j].0
}

/// `name` is the name of helper number `n`, of one of the three kinds.
pub open spec fn numbered_helper(name: Seq<char>, n: nat) -> bool {
    name == helper_name("opt"@, n) || name == helper_name("choice"@, n) || name == helper_name("rep"@, n)
}

/// `g` is the BNF lowering of `e`: the rules of `e` first, in order, each
/// with its alternatives lowered, then the helpers numbered from 0,
/// deduplicated.
pub open spec fn desugared(e: EGrammarView, g: GrammarView) -> bool {
    &&& g.len() >= e.len()
    &&& forall|i: int|
        0 <= i < e.len() ==> (#[trigger] g[i]).0 == e[i].0 && g[i].1 == lower_alts(g, e[i].1) && lowered_alts(
            g,
            e[i].1,
        )
    &&& forall|k: int| e.len() <= k < g.len() ==> numbered_helper((#[trigger] g[k]).0, (k - e.len()) as nat)
    &&& helpers_dedup(g)
    &&& names_unique(g)
}

proof fn lemma_dedup_prepend(o: GrammarView, h: GrammarView)
    requires
        forall|i: int| 0 <= i < o.len() ==> !is_helper_name(#[trigger] o[i].0),
        helpers_dedup(h),
    ensures
        helpers_dedup(o + h),
{
    let g = o + h;
    let n = o.len() as int;
    assert forall|i: int, j: int|
        0 <= i < g.len() && 0 <= j < g.len() && i != j && is_helper_name(g[i].0) && is_helper_name(g[j].0)
            && !rep_name(g[i].0) && !rep_name(g[j].0) implies #[trigger] g[i].1 != #[trigger] g[j].1 by {
        if i < n {
            assert(g[i] == o[i]);
        } else if j < n {
            assert(g[j] == o[j]);
        } else {
            assert(g[i] == h[i - n] && g[j] == h[j - n]);
        }
    }
    assert forall|k: int| 0 <= k < g.len() && is_helper_name(g[k].0) && rep_name(g[k].0) implies #[trigger] rep_shaped(g, k) by {
        if k < n {
            assert(g[k] == o[k]);
        } else {
            assert(g[k] == h[k - n]);
            assert(rep_shaped(h, k - n));
        }
    }
    assert forall|i: int, j: int|
        0 <= i < g.len() && 0 <= j < g.len() && i != j && rep_shaped(g, i) && rep_shaped(g, j) && is_helper_name(g[i].0)
            && is_helper_name(g[j].0) && rep_name(g[i].0) && rep_name(g[j].0) implies #[trigger] rep_beta(g, i)
        != #[trigger] rep_beta(g, j) by {
        if i < n {
            assert(g[i] == o[i]);
        } else if j < n {
            assert(g[j] == o[j]);
        } else {
            assert(g[i] == h[i - n] && g[j] == h[j - n]);
            assert(rep_beta(g, i) == rep_beta(h, i - n));
            assert(rep_beta(g, j) == rep_beta(h, j - n));
            assert(rep_shaped(h, i - n) && rep_shaped(h, j - n));
        }
    }
}

/// Lowers an EBNF grammar to BNF. Each optional part, repetition and grouped
/// choice becomes a helper nonterminal; structurally identical constructs
/// share one helper.
pub fn sebnf_to_bnf(sebnf: &Sebnf) -> (r: Bnf)
    requires
        ebnf_names_ok(sebnf@),
    ensures
        r@ == desugar(sebnf@),
        desugared(sebnf@, r@),
        r.well_formed(),
        e_refs_closed(sebnf@) ==> grammar_in(rule_names(r@), r@),
{
    let ghost e = sebnf@;
    let mut ctx = ConverterContext::new();
    let mut original_rules: Vec<(String, Vec<Vec<BnfItem>>)> = Vec::new();
    let mut i: usize = 0;
    while i < sebnf.rules.len()
        invariant
            e == sebnf@,
            ctx.wf(),
            i <= e.len(),
            original_rules@.len() == i,
            forall|k: int|
                0 <= k < i ==> (#[trigger] rules_view(original_rules@)[k]).0 == e[k].0 && rules_view(original_rules@)[k].1
                    == lower_alts(ctx.helpers(), e[k].1) && lowered_alts(ctx.helpers(), e[k].1),
            ctx.helpers() == dl_rules(e, i as int).0,
            dl_rules(e, i as int).1.len() == i,
            forall|k: int| 0 <= k < i ==> (#[trigger] rules_view(original_rules@)[k]).1 == dl_rules(e, i as int).1[k],
        decreases sebnf.rules.len() - i,
    {
        let ghost h1 = ctx.helpers();
        let alts = ctx.convert_alternatives(&sebnf.rules[i].1);
        let ghost av = alts_view(alts@);
        let ghost before = original_rules@;
        proof {
            let h2 = ctx.helpers();
            lemma_prefix_within(h1, h2);
            assert forall|k: int| 0 <= k < i implies lower_alts(h1, e[k].1) == lower_alts(h2, e[k].1) && lowered_alts(
                h2,
                e[k].1,
            ) by {
                assert(rules_view(before)[k].1 == lower_alts(h1, e[k].1));
                lemma_lower_alts_stable(h1, h2, e[k].1);
            }
        }
        original_rules.push((sebnf.rules[i].0.clone(), alts));
        proof {
            assert forall|k: int|
                0 <= k < i + 1 implies (#[trigger] rules_view(original_rules@)[k]).0 == e[k].0 && rules_view(
                original_rules@,
            )[k].1 == lower_alts(ctx.helpers(), e[k].1) && lowered_alts(ctx.helpers(), e[k].1) by {
                if k < i {
                    assert(original_rules@[k] == before[k]);
                    assert(rules_view(original_rules@)[k] == rules_view(before)[k]);
                    assert(dl_rules(e, i + 1).1[k] == dl_rules(e, i as int).1[k]);
                } else {
                    assert(e[k] == (sebnf.rules@[k].0@, alts_eview(sebnf.rules@[k].1@)));
                    assert(dl_rules(e, i + 1).1[k] == av);
                }
            }
            assert forall|k: int| 0 <= k < i + 1 implies (#[trigger] rules_view(original_rules@)[k]).1 == dl_rules(
                e,
                i + 1,
            ).1[k] by {
                if k < i {
                    assert(original_rules@[k] == before[k]);
                    assert(rules_view(original_rules@)[k] == rules_view(before)[k]);
                    assert(dl_rules(e, i + 1).1[k] == dl_rules(e, i as int).1[k]);
                } else {
                    assert(e[k] == (sebnf.rules@[k].0@, alts_eview(sebnf.rules@[k].1@)));
                    assert(dl_rules(e, i + 1).1[k] == av);
                }
            }
        }
        i = i + 1;
    }
    let ghost o = rules_view(original_rules@);
    let ghost h = ctx.helpers();
    let ghost kinds = ctx.kinds@;
    let mut helpers = ctx.bnf_rules;
    let mut final_rules = original_rules;
    final_rules.append(&mut helpers);
    let r = Bnf { rules: final_rules };
    proof {
        let g = r@;
        assert(g =~= o + h);
        assert(o =~= Seq::new(e.len(), |k: int| (e[k].0, dl_rules(e, e.len() as int).1[k])));
        assert(g == desugar(e));
        if e_refs_closed(e) {
            desugar_refs_closed(e);
        }
        assert forall|k: int| 0 <= k < o.len() implies !is_helper_name(#[trigger] o[k].0) by {
            assert(o[k].0 == e[k].0);
        }
        lemma_dedup_prepend(o, h);
        assert(rules_within(h, g)) by {
            assert forall|k: int| 0 <= k < h.len() implies g.contains(#[trigger] h[k]) by {
                assert(g[o.len() + k] == h[k]);
            }
        }
        assert forall|k: int| 0 <= k < e.len() implies (#[trigger] g[k]).0 == e[k].0 && g[k].1 == lower_alts(g, e[k].1)
            && lowered_alts(g, e[k].1) by {
            assert(g[k] == o[k]);
            lemma_lower_alts_stable(h, g, e[k].1);
        }
        reveal_strlit("opt");
        reveal_strlit("choice");
        reveal_strlit("rep");
        assert forall|k: int| e.len() <= k < g.len() implies numbered_helper((#[trigger] g[k]).0, (k - e.len()) as nat) by {
            assert(g[k] == h[k - e.len()]);
            assert(kinds[k - e.len()] <= 2);
        }
        assert forall|a: int, b: int| 0 <= a < g.len() && 0 <= b < g.len() && a != b implies g[a].0 != g[b].0 by {
            let n = e.len() as int;
            if a < n && b < n {
                assert(g[a] == o[a] && g[b] == o[b]);
            } else if a < n {
                assert(g[b] == h[b - n]);
                lemma_helper_name_facts(kinds[b - n], (b - n) as nat);
                assert(!is_helper_name(e[a].0));
            } else if b < n {
                assert(g[a] == h[a - n]);
                lemma_helper_name_facts(kinds[a - n], (a - n) as nat);
                assert(!is_helper_name(e[b].0));
            } else {
                assert(g[a] == h[a - n] && g[b] == h[b - n]);
                if g[a].0 == g[b].0 {
                    lemma_helper_name_injective(kinds[a - n], (a - n) as nat, kinds[b - n], (b - n) as nat);
                }
            }
        }
    }
    r
}

/// Every occurrence of a construct is lowered to the one helper rule that
/// has its body: structurally identical `[…]` or `(…|…)` constructs, and
/// likewise structurally identical `{…}` constructs, share a single helper.
pub proof fn identical_constructs_share_helper(g: GrammarView, e: EItem, k: int)
    requires
        helpers_dedup(g),
        match e {
            EItem::Optional(ch) => body_helper(g, k, opt_body(lower_seq(g, ch))),
            EItem::AnyAmount(ch) => rep_helper(g, k, lower_seq(g, ch)),
            EItem::Choice(alts) => body_helper(g, k, lower_alts(g, alts)),
            _ => false,
        },
    ensures
        lower_item(g, e) == Sym::NonTerminal(g[k].0),
{
    match e {
        EItem::Optional(ch) => lemma_find_body_at(g, k, opt_body(lower_seq(g, ch))),
        EItem::AnyAmount(ch) => lemma_find_rep_at(g, k, lower_seq(g, ch)),
        EItem::Choice(alts) => lemma_find_body_at(g, k, lower_alts(g, alts)),
        _ => {},
    }
}

/// The names of the rules of `g`.
pub open spec fn rule_names(g: GrammarView) -> Set<Seq<char>> {
    Set::new(|n: Seq<char>| exists|k: int| 0 <= k < g.len() && #[trigger] g[k].0 == n)
}

/// A nonterminal symbol names one of `names`.
pub open spec fn sym_in(names: Set<Seq<char>>, x: Sym) -> bool {
    x is NonTerminal ==> names.contains(x->NonTerminal_0)
}

/// Every nonterminal in the sequence names one of `names`.
pub open spec fn prod_in(names: Set<Seq<char>>, p: Seq<Sym>) -> bool {
    forall|i: int| 0 <= i < p.len() ==> #[trigger] sym_in(names, p[i])
}

/// Every nonterminal in the alternatives names one of `names`.
pub open spec fn alts_in(names: Set<Seq<char>>, a: Seq<Seq<Sym>>) -> bool {
    forall|j: int| 0 <= j < a.len() ==> #[trigger] prod_in(names, a[j])
}

/// Every nonterminal in the rules of `g` names one of `names`.
pub open spec fn grammar_in(names: Set<Seq<char>>, g: GrammarView) -> bool {
    forall|k: int| 0 <= k < g.len() ==> #[trigger] alts_in(names, g[k].1)
}

/// Every nonterminal referenced in the EBNF item names one of `names`.
pub open spec fn e_item_in(names: Set<Seq<char>>, e: EItem) -> bool
    decreases e,
{
    match e {
        EItem::NonTerminal(n) => names.contains(n),
        EItem::Optional(ch) => e_seq_in(names, ch),
        EItem::AnyAmount(ch) => e_seq_in(names, ch),
        EItem::Choice(a) => e_alts_in(names, a),
        _ => true,
    }
}

/// Every nonterminal referenced in the EBNF sequence names one of `names`.
pub open spec fn e_seq_in(names: Set<Seq<char>>, s: Seq<EItem>) -> bool
    decreases s,
{
    if s.len() == 0 {
        true
    } else {
        e_seq_in(names, s.drop_last()) && e_item_in(names, s.last())
    }
}

/// Every nonterminal referenced in the EBNF alternatives names one of `names`.
pub open spec fn e_alts_in(names: Set<Seq<char>>, a: Seq<Seq<EItem>>) -> bool
    decreases a,
{
    if a.len() == 0 {
        true
    } else {
        e_alts_in(names, a.drop_last()) && e_seq_in(names, a.last())
    }
}

/// The names of the rules of an EBNF grammar.
pub open spec fn e_rule_names(e: EGrammarView) -> Set<Seq<char>> {
    Set::new(|n: Seq<char>| exists|k: int| 0 <= k < e.len() && #[trigger] e[k].0 == n)
}

/// Every nonterminal that the EBNF grammar references is one of its rules.
pub open spec fn e_refs_closed(e: EGrammarView) -> bool {
    forall|k: int| 0 <= k < e.len() ==> #[trigger] e_alts_in(e_rule_names(e), e[k].1)
}

/// `h2` starts with `h`.
pub open spec fn prefix_of(h: GrammarView, h2: GrammarView) -> bool {
    h.len() <= h2.len() && h2.subrange(0, h.len() as int) == h
}

proof fn lemma_names_grow(h: GrammarView, h2: GrammarView)
    requires
        prefix_of(h, h2),
    ensures
        rule_names(h).subset_of(rule_names(h2)),
{
    assert forall|n: Seq<char>| rule_names(h).contains(n) implies rule_names(h2).contains(n) by {
        let k = choose|k: int| 0 <= k < h.len() && #[trigger] h[k].0 == n;
        assert(h2[k] == h2.subrange(0, h.len() as int)[k]);
    }
}

proof fn lemma_prod_in_mono(n1: Set<Seq<char>>, n2: Set<Seq<char>>, p: Seq<Sym>)
    requires
        n1.subset_of(n2),
        prod_in(n1, p),
    ensures
        prod_in(n2, p),
{
    assert forall|i: int| 0 <= i < p.len() implies #[trigger] sym_in(n2, p[i]) by {
        assert(sym_in(n1, p[i]));
    }
}

proof fn lemma_alts_in_mono(n1: Set<Seq<char>>, n2: Set<Seq<char>>, a: Seq<Seq<Sym>>)
    requires
        n1.subset_of(n2),
        alts_in(n1, a),
    ensures
        alts_in(n2, a),
{
    assert forall|j: int| 0 <= j < a.len() implies #[trigger] prod_in(n2, a[j]) by {
        lemma_prod_in_mono(n1, n2, a[j]);
    }
}

proof fn lemma_grammar_in_mono(n1: Set<Seq<char>>, n2: Set<Seq<char>>, g: GrammarView)
    requires
        n1.subset_of(n2),
        grammar_in(n1, g),
    ensures
        grammar_in(n2, g),
{
    assert forall|k: int| 0 <= k < g.len() implies #[trigger] alts_in(n2, g[k].1) by {
        lemma_alts_in_mono(n1, n2, g[k].1);
    }
}

/// Adding a helper whose body refers to known names keeps every reference
/// known, and names the helper.
proof fn lemma_push_in(nm: Set<Seq<char>>, h: GrammarView, n: Seq<char>, body: Seq<Seq<Sym>>)
    requires
        grammar_in(nm.union(rule_names(h)), h),
        alts_in(nm.union(rule_names(h.push((n, body)))), body),
    ensures
        grammar_in(nm.union(rule_names(h.push((n, body)))), h.push((n, body))),
        rule_names(h.push((n, body))).contains(n),
        prefix_of(h, h.push((n, body))),
{
    let h2 = h.push((n, body));
    assert(h2.subrange(0, h.len() as int) =~= h);
    lemma_names_grow(h, h2);
    lemma_grammar_in_mono(nm.union(rule_names(h)), nm.union(rule_names(h2)), h);
    assert(h2[h.len() as int].0 == n);
    assert forall|k: int| 0 <= k < h2.len() implies #[trigger] alts_in(nm.union(rule_names(h2)), h2[k].1) by {
        if k < h.len() {
            assert(h2[k] == h[k]);
        }
    }
}

proof fn lemma_dl_item_in(nm: Set<Seq<char>>, h: GrammarView, e: EItem)
    requires
        grammar_in(nm.union(rule_names(h)), h),
        e_item_in(nm, e),
    ensures
        prefix_of(h, dl_item(h, e).0),
        grammar_in(nm.union(rule_names(dl_item(h, e).0)), dl_item(h, e).0),
        sym_in(nm.union(rule_names(dl_item(h, e).0)), dl_item(h, e).1),
    decreases e,
{
    assert(h.subrange(0, h.len() as int) =~= h);
    match e {
        EItem::Optional(ch) => {
            lemma_dl_seq_in(nm, h, ch);
            let (h1, beta) = dl_seq(h, ch);
            lemma_add_body_in(nm, h, h1, opt_body(beta), "opt"@);
        },
        EItem::AnyAmount(ch) => {
            lemma_dl_seq_in(nm, h, ch);
            let (h1, beta) = dl_seq(h, ch);
            if has_rep(h1, beta) {
                let k = choose|k: int| #[trigger] rep_helper(h1, k, beta);
                assert(rule_names(h1).contains(h1[k].0));
            } else {
                let n = helper_name("rep"@, h1.len() as nat);
                let body = seq![beta.push(Sym::NonTerminal(n)), Seq::<Sym>::empty()];
                let h2 = h1.push((n, body));
                let big = nm.union(rule_names(h2));
                assert(h2.subrange(0, h1.len() as int) =~= h1);
                lemma_names_grow(h1, h2);
                assert(h2[h1.len() as int].0 == n);
                assert(rule_names(h2).contains(n));
                lemma_prod_in_mono(nm.union(rule_names(h1)), big, beta);
                assert(prod_in(big, body[0])) by {
                    assert forall|i: int| 0 <= i < body[0].len() implies #[trigger] sym_in(big, body[0][i]) by {
                        if i < beta.len() {
                            assert(body[0][i] == beta[i]);
                        }
                    }
                }
                assert(alts_in(big, body)) by {
                    assert forall|j: int| 0 <= j < body.len() implies #[trigger] prod_in(big, body[j]) by {}
                }
                lemma_push_in(nm, h1, n, body);
                lemma_prefix_trans(h, h1, h2);
            }
        },
        EItem::Choice(alts) => {
            lemma_dl_alts_in(nm, h, alts);
            let (h1, gamma) = dl_alts(h, alts);
            lemma_add_body_in(nm, h, h1, gamma, "choice"@);
        },
        _ => {
            if let EItem::NonTerminal(n) = e {
                assert(nm.union(rule_names(h)).contains(n));
            }
        },
    }
}

proof fn lemma_prefix_trans(a: GrammarView, b: GrammarView, c: GrammarView)
    requires
        prefix_of(a, b),
        prefix_of(b, c),
    ensures
        prefix_of(a, c),
{
    assert(c.subrange(0, a.len() as int) =~= b.subrange(0, a.len() as int));
}

proof fn lemma_add_body_in(nm: Set<Seq<char>>, h: GrammarView, h1: GrammarView, body: Seq<Seq<Sym>>, kind: Seq<char>)
    requires
        prefix_of(h, h1),
        grammar_in(nm.union(rule_names(h1)), h1),
        alts_in(nm.union(rule_names(h1)), body),
    ensures
        prefix_of(h, add_body(h1, body, kind).0),
        grammar_in(nm.union(rule_names(add_body(h1, body, kind).0)), add_body(h1, body, kind).0),
        sym_in(nm.union(rule_names(add_body(h1, body, kind).0)), add_body(h1, body, kind).1),
{
    if has_body(h1, body) {
        let k = choose|k: int| #[trigger] body_helper(h1, k, body);
        assert(rule_names(h1).contains(h1[k].0));
    } else {
        let n = helper_name(kind, h1.len() as nat);
        let h2 = h1.push((n, body));
        assert(h2.subrange(0, h1.len() as int) =~= h1);
        lemma_names_grow(h1, h2);
        lemma_alts_in_mono(nm.union(rule_names(h1)), nm.union(rule_names(h2)), body);
        lemma_push_in(nm, h1, n, body);
        lemma_prefix_trans(h, h1, h2);
    }
}

proof fn lemma_dl_seq_in(nm: Set<Seq<char>>, h: GrammarView, s: Seq<EItem>)
    requires
        grammar_in(nm.union(rule_names(h)), h),
        e_seq_in(nm, s),
    ensures
        prefix_of(h, dl_seq(h, s).0),
        grammar_in(nm.union(rule_names(dl_seq(h, s).0)), dl_seq(h, s).0),
        prod_in(nm.union(rule_names(dl_seq(h, s).0)), dl_seq(h, s).1),
    decreases s,
{
    assert(h.subrange(0, h.len() as int) =~= h);
    if s.len() > 0 {
        lemma_dl_seq_in(nm, h, s.drop_last());
        let pre = dl_seq(h, s.drop_last());
        lemma_dl_item_in(nm, pre.0, s.last());
        let x = dl_item(pre.0, s.last());
        lemma_prefix_trans(h, pre.0, x.0);
        lemma_names_grow(pre.0, x.0);
        lemma_prod_in_mono(nm.union(rule_names(pre.0)), nm.union(rule_names(x.0)), pre.1);
        let out = pre.1.push(x.1);
        assert forall|i: int| 0 <= i < out.len() implies #[trigger] sym_in(nm.union(rule_names(x.0)), out[i]) by {
            if i < pre.1.len() {
                assert(out[i] == pre.1[i]);
            }
        }
    }
}

proof fn lemma_dl_alts_in(nm: Set<Seq<char>>, h: GrammarView, a: Seq<Seq<EItem>>)
    requires
        grammar_in(nm.union(rule_names(h)), h),
        e_alts_in(nm, a),
    ensures
        prefix_of(h, dl_alts(h, a).0),
        grammar_in(nm.union(rule_names(dl_alts(h, a).0)), dl_alts(h, a).0),
        alts_in(nm.union(rule_names(dl_alts(h, a).0)), dl_alts(h, a).1),
    decreases a,
{
    assert(h.subrange(0, h.len() as int) =~= h);
    if a.len() > 0 {
        lemma_dl_alts_in(nm, h, a.drop_last());
        let pre = dl_alts(h, a.drop_last());
        lemma_dl_seq_in(nm, pre.0, a.last());
        let x = dl_seq(pre.0, a.last());
        lemma_prefix_trans(h, pre.0, x.0);
        lemma_names_grow(pre.0, x.0);
        lemma_alts_in_mono(nm.union(rule_names(pre.0)), nm.union(rule_names(x.0)), pre.1);
        let out = pre.1.push(x.1);
        assert forall|j: int| 0 <= j < out.len() implies #[trigger] prod_in(nm.union(rule_names(x.0)), out[j]) by {
            if j < pre.1.len() {
                assert(out[j] == pre.1[j]);
            }
        }
    }
}

proof fn lemma_dl_rules_in(e: EGrammarView, m: int)
    requires
        e_refs_closed(e),
        0 <= m <= e.len(),
    ensures
        grammar_in(e_rule_names(e).union(rule_names(dl_rules(e, m).0)), dl_rules(e, m).0),
        dl_rules(e, m).1.len() == m,
        forall|k: int|
            0 <= k < m ==> #[trigger] alts_in(e_rule_names(e).union(rule_names(dl_rules(e, m).0)), dl_rules(e, m).1[k]),
    decreases m,
{
    let nm = e_rule_names(e);
    if m > 0 {
        lemma_dl_rules_in(e, m - 1);
        let pre = dl_rules(e, m - 1);
        assert(e_alts_in(nm, e[m - 1].1));
        lemma_dl_alts_in(nm, pre.0, e[m - 1].1);
        let x = dl_alts(pre.0, e[m - 1].1);
        lemma_names_grow(pre.0, x.0);
        assert forall|k: int| 0 <= k < m implies #[trigger] alts_in(nm.union(rule_names(x.0)), pre.1.push(x.1)[k]) by {
            if k < m - 1 {
                lemma_alts_in_mono(nm.union(rule_names(pre.0)), nm.union(rule_names(x.0)), pre.1[k]);
            }
        }
    } else {
        assert forall|k: int| 0 <= k < 0 implies #[trigger] alts_in(nm, Seq::<Seq<Seq<Sym>>>::empty()[k]) by {}
    }
}

/// When every nonterminal the EBNF grammar references is one of its rules,
/// every nonterminal in its desugaring is a rule of the desugaring.
pub proof fn desugar_refs_closed(e: EGrammarView)
    requires
        e_refs_closed(e),
    ensures
        grammar_in(rule_names(desugar(e)), desugar(e)),
{
    let d = dl_rules(e, e.len() as int);
    lemma_dl_rules_in(e, e.len() as int);
    let o = Seq::new(e.len(), |i: int| (e[i].0, d.1[i]));
    let g = desugar(e);
    assert(g == o + d.0);
    let big = e_rule_names(e).union(rule_names(d.0));
    assert(big.subset_of(rule_names(g))) by {
        assert forall|n: Seq<char>| big.contains(n) implies rule_names(g).contains(n) by {
            if e_rule_names(e).contains(n) {
                let k = choose|k: int| 0 <= k < e.len() && #[trigger] e[k].0 == n;
                assert(g[k].0 == n);
            } else {
                let k = choose|k: int| 0 <= k < d.0.len() && #[trigger] d.0[k].0 == n;
                assert(g[o.len() + k].0 == n);
            }
        }
    }
    assert forall|k: int| 0 <= k < g.len() implies #[trigger] alts_in(rule_names(g), g[k].1) by {
        if k < o.len() {
            assert(g[k] == o[k]);
            lemma_alts_in_mono(big, rule_names(g), d.1[k]);
        } else {
            assert(g[k] == d.0[k - o.len()]);
            assert(alts_in(big, d.0[k - o.len()].1));
            lemma_alts_in_mono(big, rule_names(g), d.0[k - o.len()].1);
        }
    }
}

} // verus!
