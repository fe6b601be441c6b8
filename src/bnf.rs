use crate::sets::{
    conflict_items_ok, conflict_sites, error_ok, extract_sets, ff_fails, ff_row, ff_sites,
    find_set_conflicts, first_of_sequence, fo_fails, fo_row, fo_sites, grammar_first,
    grammar_follow, items_set, items_view, least_first, least_follow, ll1_fails, ll1_pair_fails, ll1_sites,
    pair_fails, prod_first, prod_nullable, rows_ok, rule_follow, same_sets, site_of, table_fn,
    table_view, Ll1Conflict, Ll1ConflictKind, Ll1Error, Ll1Result, SItem, SetItem, Sets,
};
use vstd::prelude::*;

verus! {

/// The mathematical value of a BNF symbol: its kind and its text.
pub enum Sym {
    NonTerminal(Seq<char>),
    Terminal(Seq<char>),
    Regex(Seq<char>),
}

/// A BNF symbol. Terminals keep their surrounding double quotes and regular
/// expressions their surrounding slashes.
#[derive(Debug)]
pub enum Item {
    NonTerminal(String),
    Terminal(String),
    Regex(String),
}

impl View for Item {
    type V = Sym;

    open spec fn view(&self) -> Sym {
        match self {
            Item::NonTerminal(s) => Sym::NonTerminal(s@),
            Item::Terminal(s) => Sym::Terminal(s@),
            Item::Regex(s) => Sym::Regex(s@),
        }
    }
}

impl Item {
    /// The text of this symbol.
    pub fn text(&self) -> (r: String)
        ensures
            r@ == crate::sets::sym_text(self@),
    {
        match self {
            Item::NonTerminal(s) => s.clone(),
            Item::Terminal(s) => s.clone(),
            Item::Regex(s) => s.clone(),
        }
    }

    /// A copy of this symbol.
    pub fn copy(&self) -> (r: Item)
        ensures
            r@ == self@,
    {
        match self {
            Item::NonTerminal(s) => Item::NonTerminal(s.clone()),
            Item::Terminal(s) => Item::Terminal(s.clone()),
            Item::Regex(s) => Item::Regex(s.clone()),
        }
    }
}

/// The value of a production.
pub open spec fn prod_view(p: Seq<Item>) -> Seq<Sym> {
    p.map_values(|i: Item| i@)
}

/// The value of a list of alternatives.
pub open spec fn alts_view(a: Seq<Vec<Item>>) -> Seq<Seq<Sym>> {
    a.map_values(|p: Vec<Item>| prod_view(p@))
}

/// The value of a grammar: rule names with their alternatives, in order.
pub type GrammarView = Seq<(Seq<char>, Seq<Seq<Sym>>)>;

/// A copy of a production.
pub fn copy_production(p: &Vec<Item>) -> (r: Vec<Item>)
    ensures
        prod_view(r@) == prod_view(p@),
{
    let mut r: Vec<Item> = Vec::new();
    let mut i: usize = 0;
    while i < p.len()
        invariant
            i <= p.len(),
            r@.len() == i,
            forall|k: int| 0 <= k < i ==> #[trigger] r@[k]@ == p@[k]@,
        decreases p.len() - i,
    {
        r.push(p[i].copy());
        i = i + 1;
    }
    proof {
        assert(prod_view(r@) =~= prod_view(p@));
    }
    r
}

/// A grammar in plain BNF: an insertion-ordered list of rules, each a
/// nonterminal name with its alternative productions. The first rule names
/// the start symbol.
#[derive(Debug)]
pub struct Bnf {
    pub rules: Vec<(String, Vec<Vec<Item>>)>,
}

/// The value of a list of rules.
pub open spec fn rules_view(rules: Seq<(String, Vec<Vec<Item>>)>) -> GrammarView {
    rules.map_values(|r: (String, Vec<Vec<Item>>)| (r.0@, alts_view(r.1@)))
}

impl View for Bnf {
    type V = GrammarView;

    open spec fn view(&self) -> GrammarView {
        rules_view(self.rules@)
    }
}

/// Whether two symbols are equal.
pub fn item_eq(a: &Item, b: &Item) -> (r: bool)
    ensures
        r == (a@ == b@),
{
    match (a, b) {
        (Item::NonTerminal(x), Item::NonTerminal(y)) => *x == *y,
        (Item::Terminal(x), Item::Terminal(y)) => *x == *y,
        (Item::Regex(x), Item::Regex(y)) => *x == *y,
        _ => false,
    }
}

/// Whether two productions are equal.
pub fn production_eq(a: &Vec<Item>, b: &Vec<Item>) -> (r: bool)
    ensures
        r == (prod_view(a@) == prod_view(b@)),
{
    if a.len() != b.len() {
        proof {
            assert(prod_view(a@).len() != prod_view(b@).len());
        }
        return false;
    }
    let mut i: usize = 0;
    while i < a.len()
        invariant
            a@.len() == b@.len(),
            i <= a@.len(),
            forall|k: int| 0 <= k < i ==> a@[k]@ == b@[k]@,
        decreases a.len() - i,
    {
        if !item_eq(&a[i], &b[i]) {
            proof {
                assert(prod_view(a@)[i as int] != prod_view(b@)[i as int]);
            }
            return false;
        }
        i = i + 1;
    }
    proof {
        assert(prod_view(a@) =~= prod_view(b@));
    }
    true
}

/// Whether two lists of alternatives are equal.
pub fn alternatives_eq(a: &Vec<Vec<Item>>, b: &Vec<Vec<Item>>) -> (r: bool)
    ensures
        r == (alts_view(a@) == alts_view(b@)),
{
    if a.len() != b.len() {
        proof {
            assert(alts_view(a@).len() != alts_view(b@).len());
        }
        return false;
    }
    let mut i: usize = 0;
    while i < a.len()
        invariant
            a@.len() == b@.len(),
            i <= a@.len(),
            forall|k: int| 0 <= k < i ==> prod_view(a@[k]@) == prod_view(b@[k]@),
        decreases a.len() - i,
    {
        if !production_eq(&a[i], &b[i]) {
            proof {
                assert(alts_view(a@)[i as int] != alts_view(b@)[i as int]);
            }
            return false;
        }
        i = i + 1;
    }
    proof {
        assert(alts_view(a@) =~= alts_view(b@));
    }
    true
}

/// No two rules of `g` share a name.
pub open spec fn names_unique(g: GrammarView) -> bool {
    forall|i: int, j: int| 0 <= i < g.len() && 0 <= j < g.len() && i != j ==> g[i].0 != g[j].0
}

impl Bnf {
    /// Rules are keyed by name: no name occurs twice.
    pub open spec fn well_formed(&self) -> bool {
        names_unique(self@)
    }

    /// FIRST and FOLLOW of every nonterminal, one entry per rule in order.
    pub fn first_and_follow_sets(&self) -> (r: Sets)
        requires
            self.well_formed(),
        ensures
            least_first(self@, table_view(r.first@)),
            least_follow(self@, table_fn(table_view(r.first@)), table_view(r.follow@)),
            same_sets(table_fn(table_view(r.first@)), grammar_first(self@)),
            same_sets(table_fn(table_view(r.follow@)), grammar_follow(self@)),
            rows_ok(r.first@, self@),
            rows_ok(r.follow@, self@),
    {
        let r = extract_sets(self);
        proof {
            crate::sets::lemma_computed_sets(self@, table_view(r.first@), table_view(r.follow@));
        }
        r
    }

    /// FIRST (without the empty word) and nullability of each production of
    /// rule `r`.
    fn production_firsts(&self, r: usize, sets: &Sets) -> (pf: Vec<(Vec<SetItem>, bool)>)
        requires
            self.well_formed(),
            r < self@.len(),
            crate::sets::names_match(table_view(sets.first@), self@),
            same_sets(table_fn(table_view(sets.first@)), grammar_first(self@)),
        ensures
            pf@.len() == self@[r as int].1.len(),
            forall|k: int|
                0 <= k < pf@.len() ==> items_set((#[trigger] pf@[k]).0@) == prod_first(self@, r as int, k)
                    && pf@[k].1 == prod_nullable(self@, r as int, k) && items_view(pf@[k].0@).no_duplicates(),
    {
        let prods = &self.rules[r].1;
        let mut pf: Vec<(Vec<SetItem>, bool)> = Vec::new();
        let mut k: usize = 0;
        proof {
            assert(crate::sets::table_keys_unique(table_view(sets.first@)));
        }
        while k < prods.len()
            invariant
                self.well_formed(),
                r < self@.len(),
                prods == &self.rules@[r as int].1,
                k <= prods@.len(),
                pf@.len() == k,
                crate::sets::names_match(table_view(sets.first@), self@),
                crate::sets::table_keys_unique(table_view(sets.first@)),
                same_sets(table_fn(table_view(sets.first@)), grammar_first(self@)),
                forall|k2: int|
                    0 <= k2 < k ==> items_set((#[trigger] pf@[k2]).0@) == prod_first(self@, r as int, k2)
                        && pf@[k2].1 == prod_nullable(self@, r as int, k2) && items_view(pf@[k2].0@).no_duplicates(),
            decreases prods.len() - k,
        {
            let e = first_of_sequence(prods[k].as_slice(), &sets.first);
            proof {
                assert(self@[r as int].1[k as int] == prod_view(prods@[k as int]@));
                crate::sets::lemma_seq_first_same(
                    self@[r as int].1[k as int],
                    table_fn(table_view(sets.first@)),
                    grammar_first(self@),
                );
            }
            pf.push(e);
            k = k + 1;
        }
        pf
    }

    /// The LL(1) check: for each rule with two productions or more, every
    /// FIRST/FIRST collision between two of its productions and every
    /// FIRST/FOLLOW collision between a nullable production and another one,
    /// in rule order; an error when a regular expression met on the way does
    /// not compile.
    pub fn is_ll1(&self) -> (r: Result<Ll1Result, Ll1Error>)
        requires
            self.well_formed(),
        ensures
            r is Err <==> ll1_fails(self@),
            r matches Err(e) ==> exists|x: SItem, y: SItem| #[trigger] error_ok(e, x, y) && pair_fails(x, y),
            r matches Ok(res) ==> conflict_sites(res.conflicts@) == ll1_sites(self@, self@.len() as int),
            r matches Ok(res) ==> forall|k: int|
                0 <= k < res.conflicts@.len() ==> conflict_items_ok(#[trigger] res.conflicts@[k], self@),
    {
        let ghost g = self@;
        let sets = self.first_and_follow_sets();
        let mut conflicts: Vec<Ll1Conflict> = Vec::new();
        let mut r: usize = 0;
        while r < self.rules.len()
            invariant
                g == self@,
                self.well_formed(),
                r <= g.len(),
                crate::sets::names_match(table_view(sets.first@), g),
                crate::sets::names_match(table_view(sets.follow@), g),
                same_sets(table_fn(table_view(sets.first@)), grammar_first(g)),
                same_sets(table_fn(table_view(sets.follow@)), grammar_follow(g)),
                rows_ok(sets.follow@, g),
                conflict_sites(conflicts@) == ll1_sites(g, r as int),
                forall|k: int| 0 <= k < conflicts@.len() ==> conflict_items_ok(#[trigger] conflicts@[k], g),
                forall|r2: int, i: int, j: int|
                    0 <= r2 < r && g[r2].1.len() >= 2 && 0 <= i < g[r2].1.len() && 0 <= j < g[r2].1.len()
                        ==> !#[trigger] ll1_pair_fails(g, r2, i, j),
            decreases self.rules.len() - r,
        {
            let prods = &self.rules[r].1;
            let n = prods.len();
            let ghost base = conflict_sites(conflicts@);
            if n > 1 {
                let pf = self.production_firsts(r, &sets);
                let mut i: usize = 0;
                while i < n
                    invariant
                        g == self@,
                        self.well_formed(),
                        r < g.len(),
                        prods == &self.rules@[r as int].1,
                        n == g[r as int].1.len(),
                        n > 1,
                        i <= n,
                        pf@.len() == n,
                        forall|k: int|
                            0 <= k < pf@.len() ==> items_set((#[trigger] pf@[k]).0@) == prod_first(g, r as int, k)
                                && pf@[k].1 == prod_nullable(g, r as int, k) && items_view(pf@[k].0@).no_duplicates(),
                        base == ll1_sites(g, r as int),
                        conflict_sites(conflicts@) == base + ff_sites(g, r as int, i as int),
                        forall|k: int| 0 <= k < conflicts@.len() ==> conflict_items_ok(#[trigger] conflicts@[k], g),
                        forall|i2: int, j2: int| 0 <= i2 < i && 0 <= j2 < n ==> !#[trigger] ff_fails(g, r as int, i2, j2),
                    decreases n - i,
                {
                    let mut j: usize = i + 1;
                    proof {
                        assert(ff_row(g, r as int, i as int, j as int) == Seq::<crate::sets::Site>::empty());
                        assert(conflict_sites(conflicts@) =~= base + ff_sites(g, r as int, i as int) + ff_row(g, r as int, i as int, j as int));
                    }
                    while j < n
                        invariant
                            g == self@,
                            self.well_formed(),
                            r < g.len(),
                            prods == &self.rules@[r as int].1,
                            n == g[r as int].1.len(),
                            i < j <= n,
                            pf@.len() == n,
                            forall|k: int|
                                0 <= k < pf@.len() ==> items_set((#[trigger] pf@[k]).0@) == prod_first(g, r as int, k)
                                    && pf@[k].1 == prod_nullable(g, r as int, k) && items_view(pf@[k].0@).no_duplicates(),
                            conflict_sites(conflicts@) == base + ff_sites(g, r as int, i as int) + ff_row(g, r as int, i as int, j as int),
                            forall|k: int| 0 <= k < conflicts@.len() ==> conflict_items_ok(#[trigger] conflicts@[k], g),
                            forall|i2: int, j2: int| 0 <= i2 < i && 0 <= j2 < n ==> !#[trigger] ff_fails(g, r as int, i2, j2),
                            forall|j2: int| 0 <= j2 < j ==> !#[trigger] ff_fails(g, r as int, i as int, j2),
                        decreases n - j,
                    {
                        let ghost before = conflict_sites(conflicts@);
                        let res = find_set_conflicts(&pf[i].0, &pf[j].0);
                        proof {
                            crate::sets::lemma_fails_sets(pf@[i as int].0@, pf@[j as int].0@);
                        }
                        match res {
                            Err(e) => {
                                proof {
                                    assert(ll1_pair_fails(g, r as int, i as int, j as int));
                                }
                                return Err(e);
                            },
                            Ok(item_conflicts) => {
                                proof {
                                    crate::sets::lemma_conflicts_match(item_conflicts@, pf@[i as int].0@, pf@[j as int].0@);
                                }
                                if item_conflicts.len() > 0 {
                                    let c = Ll1Conflict {
                                        non_terminal: self.rules[r].0.clone(),
                                        kind: Ll1ConflictKind::FirstFirst {
                                            production1: copy_production(&prods[i]),
                                            production2: copy_production(&prods[j]),
                                        },
                                        conflicts: item_conflicts,
                                    };
                                    proof {
                                        assert(site_of(c) == (g[r as int].0, true, g[r as int].1[i as int], g[r as int].1[j as int]));
                                        assert(conflict_items_ok(c, g));
                                    }
                                    conflicts.push(c);
                                    proof {
                                        assert(conflict_sites(conflicts@) =~= before.push(site_of(c)));
                                    }
                                }
                            },
                        }
                        proof {
                            assert(ff_row(g, r as int, i as int, j + 1) == ff_row(g, r as int, i as int, j as int) + if crate::sets::sets_overlap(
                                prod_first(g, r as int, i as int),
                                prod_first(g, r as int, j as int),
                            ) {
                                seq![(g[r as int].0, true, g[r as int].1[i as int], g[r as int].1[j as int])]
                            } else {
                                Seq::empty()
                            });
                            assert(conflict_sites(conflicts@) =~= base + ff_sites(g, r as int, i as int) + ff_row(g, r as int, i as int, j + 1));
                        }
                        j = j + 1;
                    }
                    proof {
                        assert(conflict_sites(conflicts@) =~= base + ff_sites(g, r as int, i + 1));
                    }
                    i = i + 1;
                }
                let ghost mid = base + ff_sites(g, r as int, n as int);
                let follow_row = &sets.follow[r].1;
                proof {
                    let tv = table_view(sets.follow@);
                    assert(crate::sets::table_keys_unique(tv));
                    crate::sets::lemma_lookup_at(tv, r as int);
                    assert(tv[r as int].0 == g[r as int].0);
                    assert(tv[r as int].1 == items_set(follow_row@));
                    assert(table_fn(tv)(g[r as int].0) == items_set(follow_row@));
                    assert(table_fn(tv)(g[r as int].0) == grammar_follow(g)(g[r as int].0));
                    assert(items_set(follow_row@) == rule_follow(g, r as int));
                    assert(items_view(sets.follow@[r as int].1@).no_duplicates());
                    assert(conflict_sites(conflicts@) =~= mid + fo_sites(g, r as int, 0));
                }
                let mut i: usize = 0;
                while i < n
                    invariant
                        g == self@,
                        self.well_formed(),
                        r < g.len(),
                        prods == &self.rules@[r as int].1,
                        n == g[r as int].1.len(),
                        n > 1,
                        i <= n,
                        pf@.len() == n,
                        forall|k: int|
                            0 <= k < pf@.len() ==> items_set((#[trigger] pf@[k]).0@) == prod_first(g, r as int, k)
                                && pf@[k].1 == prod_nullable(g, r as int, k) && items_view(pf@[k].0@).no_duplicates(),
                        items_set(follow_row@) == rule_follow(g, r as int),
                        items_view(follow_row@).no_duplicates(),
                        mid == base + ff_sites(g, r as int, n as int),
                        base == ll1_sites(g, r as int),
                        conflict_sites(conflicts@) == mid + fo_sites(g, r as int, i as int),
                        forall|k: int| 0 <= k < conflicts@.len() ==> conflict_items_ok(#[trigger] conflicts@[k], g),
                        forall|i2: int, j2: int| 0 <= i2 < n && 0 <= j2 < n ==> !#[trigger] ff_fails(g, r as int, i2, j2),
                        forall|i2: int, j2: int| 0 <= i2 < i && 0 <= j2 < n ==> !#[trigger] fo_fails(g, r as int, i2, j2),
                    decreases n - i,
                {
                    let ghost before_i = conflict_sites(conflicts@);
                    if pf[i].1 {
                        let mut j: usize = 0;
                        proof {
                            assert(conflict_sites(conflicts@) =~= before_i + fo_row(g, r as int, i as int, 0));
                        }
                        while j < n
                            invariant
                                g == self@,
                                self.well_formed(),
                                r < g.len(),
                                prods == &self.rules@[r as int].1,
                                n == g[r as int].1.len(),
                                i < n,
                                j <= n,
                                pf@.len() == n,
                                forall|k: int|
                                    0 <= k < pf@.len() ==> items_set((#[trigger] pf@[k]).0@) == prod_first(g, r as int, k)
                                        && pf@[k].1 == prod_nullable(g, r as int, k) && items_view(pf@[k].0@).no_duplicates(),
                                prod_nullable(g, r as int, i as int),
                                items_set(follow_row@) == rule_follow(g, r as int),
                                items_view(follow_row@).no_duplicates(),
                                conflict_sites(conflicts@) == before_i + fo_row(g, r as int, i as int, j as int),
                                forall|k: int| 0 <= k < conflicts@.len() ==> conflict_items_ok(#[trigger] conflicts@[k], g),
                                forall|j2: int| 0 <= j2 < j ==> !#[trigger] fo_fails(g, r as int, i as int, j2),
                            decreases n - j,
                        {
                            let ghost before = conflict_sites(conflicts@);
                            if i != j {
                                let res = find_set_conflicts(&pf[j].0, follow_row);
                                proof {
                                    crate::sets::lemma_fails_sets(pf@[j as int].0@, follow_row@);
                                }
                                match res {
                                    Err(e) => {
                                        proof {
                                            assert(ll1_pair_fails(g, r as int, i as int, j as int));
                                        }
                                        return Err(e);
                                    },
                                    Ok(item_conflicts) => {
                                        proof {
                                            crate::sets::lemma_conflicts_match(item_conflicts@, pf@[j as int].0@, follow_row@);
                                        }
                                        if item_conflicts.len() > 0 {
                                            let c = Ll1Conflict {
                                                non_terminal: self.rules[r].0.clone(),
                                                kind: Ll1ConflictKind::FirstFollow {
                                                    nullable_production: copy_production(&prods[i]),
                                                    other_production: copy_production(&prods[j]),
                                                },
                                                conflicts: item_conflicts,
                                            };
                                            proof {
                                                assert(site_of(c) == (g[r as int].0, false, g[r as int].1[i as int], g[r as int].1[j as int]));
                                                assert(conflict_items_ok(c, g));
                                            }
                                            conflicts.push(c);
                                            proof {
                                                assert(conflict_sites(conflicts@) =~= before.push(site_of(c)));
                                            }
                                        }
                                    },
                                }
                            }
                            proof {
                                assert(conflict_sites(conflicts@) =~= before_i + fo_row(g, r as int, i as int, j + 1));
                            }
                            j = j + 1;
                        }
                        proof {
                            assert(conflict_sites(conflicts@) =~= mid + fo_sites(g, r as int, i + 1));
                        }
                    } else {
                        proof {
                            assert(conflict_sites(conflicts@) =~= mid + fo_sites(g, r as int, i + 1));
                        }
                    }
                    i = i + 1;
                }
                proof {
                    assert(conflict_sites(conflicts@) =~= ll1_sites(g, r + 1));
                    assert forall|r2: int, i2: int, j2: int|
                        0 <= r2 < r + 1 && g[r2].1.len() >= 2 && 0 <= i2 < g[r2].1.len() && 0 <= j2 < g[r2].1.len()
                            implies !#[trigger] ll1_pair_fails(g, r2, i2, j2) by {
                        if r2 == r {
                            assert(!ff_fails(g, r as int, i2, j2));
                            assert(!fo_fails(g, r as int, i2, j2));
                        }
                    }
                }
            } else {
                proof {
                    assert(conflict_sites(conflicts@) =~= ll1_sites(g, r + 1));
                }
            }
            r = r + 1;
        }
        proof {
            if ll1_fails(g) {
                let (r2, i2, j2) = choose|r2: int, i2: int, j2: int|
                    0 <= r2 < g.len() && g[r2].1.len() >= 2 && 0 <= i2 < g[r2].1.len() && 0 <= j2 < g[r2].1.len()
                        && #[trigger] ll1_pair_fails(g, r2, i2, j2);
            }
        }
        Ok(Ll1Result { conflicts })
    }
}

} // verus!
