use crate::bnf::Bnf;
use crate::converter::{ebnf_names_ok, is_helper_name, sebnf_to_bnf, desugared};
use crate::lex::{token_view, Token};
use vstd::prelude::*;
use vstd::string::*;

verus! {

/// The mathematical value of an EBNF item.
pub enum EItem {
    NonTerminal(Seq<char>),
    Terminal(Seq<char>),
    Regex(Seq<char>),
    Optional(Seq<EItem>),
    AnyAmount(Seq<EItem>),
    Choice(Seq<Seq<EItem>>),
}

/// An item of an EBNF production: a symbol, an optional part `[ … ]`, a
/// repetition `{ … }`, or a grouped choice `( … | … )`.
#[derive(Debug)]
pub enum Item {
    NonTerminal(String),
    Terminal(String),
    Regex(String),
    Optional(Vec<Item>),
    AnyAmount(Vec<Item>),
    Choice(Vec<Vec<Item>>),
}

/// The value of an item.
pub open spec fn item_view(it: Item) -> EItem
    decreases it,
{
    match it {
        Item::NonTerminal(s) => EItem::NonTerminal(s@),
        Item::Terminal(s) => EItem::Terminal(s@),
        Item::Regex(s) => EItem::Regex(s@),
        Item::Optional(v) => EItem::Optional(items_eview(v@)),
        Item::AnyAmount(v) => EItem::AnyAmount(items_eview(v@)),
        Item::Choice(v) => EItem::Choice(alts_eview(v@)),
    }
}

/// The value of a sequence of items.
pub open spec fn items_eview(s: Seq<Item>) -> Seq<EItem>
    decreases s,
{
    if s.len() == 0 {
        Seq::empty()
    } else {
        items_eview(s.drop_last()).push(item_view(s.last()))
    }
}

/// The value of a list of alternatives.
pub open spec fn alts_eview(s: Seq<Vec<Item>>) -> Seq<Seq<EItem>>
    decreases s,
{
    if s.len() == 0 {
        Seq::empty()
    } else {
        alts_eview(s.drop_last()).push(items_eview(s.last()@))
    }
}

/// A grammar in EBNF: an insertion-ordered list of rules, each a nonterminal
/// name with its alternatives.
#[derive(Debug)]
pub struct Sebnf {
    pub rules: Vec<(String, Vec<Vec<Item>>)>,
}

/// The value of an EBNF grammar.
pub type EGrammarView = Seq<(Seq<char>, Seq<Seq<EItem>>)>;

impl View for Sebnf {
    type V = EGrammarView;

    open spec fn view(&self) -> EGrammarView {
        erules_view(self.rules@)
    }
}

/// The value of a list of EBNF rules.
pub open spec fn erules_view(rules: Seq<(String, Vec<Vec<Item>>)>) -> EGrammarView {
    rules.map_values(|r: (String, Vec<Vec<Item>>)| (r.0@, alts_eview(r.1@)))
}

/// A parse failure, with the byte range of the offending place.
#[derive(Debug)]
pub enum ParseError {
    UnexpectedToken { expected: String, found: String, span: (usize, usize) },
    UnexpectedEof { expected: String, span: (usize, usize) },
    ExpectedNonTerminal { found: String, span: (usize, usize) },
    LexError { span: (usize, usize) },
}

/// A recursive-descent parser over a token list; each token comes with its
/// byte range in the source.
struct Parser {
    tokens: Vec<(Token, (usize, usize))>,
    pos: usize,
    source_len: usize,
}

/// What an item parse gives, by its first token: nothing at the end or
/// before a token that cannot start an item; the symbol itself for a symbol;
/// an optional part for `[`, a repetition for `{`; for `(`, the single item
/// itself when the group holds one alternative of one item, else a choice.
pub open spec fn group_result_ok(
    tokens: Seq<(Token, (usize, usize))>,
    pos: int,
    r: Result<Option<Item>, ParseError>,
) -> bool {
    if pos >= tokens.len() {
        r matches Ok(None)
    } else {
        let tv = token_view(tokens[pos].0);
        if tv.0 == 10 {
            r matches Ok(Some(Item::NonTerminal(t))) && t@ == tv.1
        } else if tv.0 == 11 {
            r matches Ok(Some(Item::Terminal(t))) && t@ == tv.1
        } else if tv.0 == 12 {
            r matches Ok(Some(Item::Regex(t))) && t@ == tv.1
        } else if tv.0 == 4 {
            r is Err || r matches Ok(Some(Item::Optional(_)))
        } else if tv.0 == 6 {
            r is Err || r matches Ok(Some(Item::AnyAmount(_)))
        } else if tv.0 == 2 {
            r is Err || (r matches Ok(Some(it)) && tidy(item_view(it)))
        } else {
            r matches Ok(None)
        }
    }
}

/// No choice in the item is a group of a single alternative of a single
/// item: such a group stands for its item.
pub open spec fn tidy(e: EItem) -> bool
    decreases e,
{
    match e {
        EItem::Optional(ch) => tidy_seq(ch),
        EItem::AnyAmount(ch) => tidy_seq(ch),
        EItem::Choice(a) => !(a.len() == 1 && a[0].len() == 1) && tidy_alts(a),
        _ => true,
    }
}

/// Every item of the sequence is tidy.
pub open spec fn tidy_seq(s: Seq<EItem>) -> bool
    decreases s,
{
    if s.len() == 0 {
        true
    } else {
        tidy_seq(s.drop_last()) && tidy(s.last())
    }
}

/// Every alternative is tidy.
pub open spec fn tidy_alts(a: Seq<Seq<EItem>>) -> bool
    decreases a,
{
    if a.len() == 0 {
        true
    } else {
        tidy_alts(a.drop_last()) && tidy_seq(a.last())
    }
}

proof fn lemma_tidy_seq_push(v: Seq<Item>, x: Item)
    requires
        tidy_seq(items_eview(v)),
        tidy(item_view(x)),
    ensures
        tidy_seq(items_eview(v.push(x))),
{
    assert(v.push(x).drop_last() =~= v);
    assert(items_eview(v.push(x)) == items_eview(v).push(item_view(x)));
    assert(items_eview(v).push(item_view(x)).drop_last() =~= items_eview(v));
}

proof fn lemma_tidy_alts_push(a: Seq<Vec<Item>>, x: Vec<Item>)
    requires
        tidy_alts(alts_eview(a)),
        tidy_seq(items_eview(x@)),
    ensures
        tidy_alts(alts_eview(a.push(x))),
{
    assert(a.push(x).drop_last() =~= a);
    assert(alts_eview(a.push(x)) == alts_eview(a).push(items_eview(x@)));
    assert(alts_eview(a).push(items_eview(x@)).drop_last() =~= alts_eview(a));
}

proof fn lemma_tidy_single(v: Seq<Item>)
    requires
        tidy_seq(items_eview(v)),
        v.len() == 1,
    ensures
        tidy(item_view(v[0])),
{
    assert(v.drop_last() =~= Seq::<Item>::empty());
}

proof fn lemma_tidy_alt_single(a: Seq<Vec<Item>>)
    requires
        tidy_alts(alts_eview(a)),
        a.len() == 1,
    ensures
        tidy_seq(items_eview(a[0]@)),
        items_eview(a[0]@).len() == a[0]@.len(),
{
    assert(a.drop_last() =~= Seq::<Vec<Item>>::empty());
    lemma_items_eview_len(a[0]@);
}

proof fn lemma_items_eview_len(v: Seq<Item>)
    ensures
        items_eview(v).len() == v.len(),
    decreases v.len(),
{
    if v.len() > 0 {
        lemma_items_eview_len(v.drop_last());
    }
}

proof fn lemma_alts_eview_len(a: Seq<Vec<Item>>)
    ensures
        alts_eview(a).len() == a.len(),
        forall|k: int| 0 <= k < a.len() ==> #[trigger] alts_eview(a)[k] == items_eview(a[k]@),
    decreases a.len(),
{
    if a.len() > 0 {
        lemma_alts_eview_len(a.drop_last());
        assert forall|k: int| 0 <= k < a.len() implies #[trigger] alts_eview(a)[k] == items_eview(a[k]@) by {
            if k < a.len() - 1 {
                assert(a.drop_last()[k] == a[k]);
            }
        }
    }
}

/// The kind of token `i` (see `token_view`).
pub open spec fn tkind(tokens: Seq<(Token, (usize, usize))>, i: int) -> u8 {
    token_view(tokens[i].0).0
}

/// From token `i` on, the tokens are rules `Name := body .` whose bodies
/// hold only nonterminals, terminals, regular expressions and `|`.
pub open spec fn simple_rules(tokens: Seq<(Token, (usize, usize))>, i: int) -> bool
    decreases tokens.len() - i, 1int,
{
    if i < 0 || i >= tokens.len() {
        true
    } else {
        tkind(tokens, i) == 10 && i + 1 < tokens.len() && tkind(tokens, i + 1) == 1 && simple_body(tokens, i + 2)
    }
}

/// From token `k` on: the rest of a simple rule body, its `.`, then simple
/// rules.
pub open spec fn simple_body(tokens: Seq<(Token, (usize, usize))>, k: int) -> bool
    decreases tokens.len() - k, 0int,
{
    if k < 0 || k >= tokens.len() {
        false
    } else if tkind(tokens, k) == 0 {
        simple_rules(tokens, k + 1)
    } else {
        (tkind(tokens, k) == 8 || tkind(tokens, k) == 10 || tkind(tokens, k) == 11 || tkind(tokens, k) == 12)
            && simple_body(tokens, k + 1)
    }
}

/// `t` is a newline token.
pub open spec fn is_newline(t: Token) -> bool {
    t is NewLine
}

impl Parser {
    spec fn wf(&self) -> bool {
        self.pos <= self.tokens@.len()
    }

    /// The parser moved forward over the same tokens.
    spec fn moved_on(&self, before: &Parser) -> bool {
        &&& self.tokens@ == before.tokens@
        &&& self.source_len == before.source_len
        &&& before.pos <= self.pos <= self.tokens@.len()
    }

    fn new(tokens: Vec<(Token, (usize, usize))>, source_len: usize) -> (p: Parser)
        ensures
            p.wf(),
            p.pos == 0,
            p.tokens@ == tokens@,
    {
        Parser { tokens, pos: 0, source_len }
    }

    /// The byte range of the next token, or the empty range at the end.
    fn current_span(&self) -> (r: (usize, usize))
        requires
            self.wf(),
        ensures
            r == if self.pos < self.tokens@.len() {
                self.tokens@[self.pos as int].1
            } else {
                (self.source_len, self.source_len)
            },
    {
        if self.pos < self.tokens.len() {
            self.tokens[self.pos].1
        } else {
            (self.source_len, self.source_len)
        }
    }

    /// The next token, if any.
    fn peek(&self) -> (r: Option<&Token>)
        requires
            self.wf(),
        ensures
            match r {
                Some(t) => self.pos < self.tokens@.len() && *t == self.tokens@[self.pos as int].0,
                None => self.pos == self.tokens@.len(),
            },
    {
        if self.pos < self.tokens.len() {
            Some(&self.tokens[self.pos].0)
        } else {
            None
        }
    }

    /// Takes the next token, if any.
    fn advance(&mut self) -> (r: Option<(Token, (usize, usize))>)
        requires
            old(self).wf(),
        ensures
            final(self).wf(),
            final(self).moved_on(old(self)),
            match r {
                Some(e) => old(self).pos < old(self).tokens@.len() && final(self).pos == old(self).pos + 1
                    && token_view(e.0) == token_view(old(self).tokens@[old(self).pos as int].0) && e.1 == old(
                    self,
                ).tokens@[old(self).pos as int].1,
                None => old(self).pos == old(self).tokens@.len() && final(self).pos == old(self).pos,
            },
    {
        if self.pos < self.tokens.len() {
            let t = self.tokens[self.pos].0.copy();
            let span = self.tokens[self.pos].1;
            self.pos = self.pos + 1;
            Some((t, span))
        } else {
            None
        }
    }

    /// Takes the next token, which must be `expected`.
    fn expect(&mut self, expected: &Token) -> (r: Result<(), ParseError>)
        requires
            old(self).wf(),
        ensures
            final(self).wf(),
            final(self).moved_on(old(self)),
            r is Ok <==> old(self).pos < old(self).tokens@.len() && token_view(old(self).tokens@[old(self).pos as int].0)
                == token_view(*expected),
            r is Ok ==> final(self).pos == old(self).pos + 1,
    {
        match self.advance() {
            Some((tok, span)) => {
                if tok.same(expected) {
                    Ok(())
                } else {
                    Err(ParseError::UnexpectedToken { expected: expected.describe(), found: tok.describe(), span })
                }
            },
            None => Err(ParseError::UnexpectedEof { expected: expected.describe(), span: self.current_span() }),
        }
    }

    /// Skips newline tokens.
    fn skip_newlines(&mut self)
        requires
            old(self).wf(),
        ensures
            final(self).wf(),
            final(self).moved_on(old(self)),
            forall|k: int| old(self).pos <= k < final(self).pos ==> is_newline(#[trigger] final(self).tokens@[k].0),
            final(self).pos < final(self).tokens@.len() ==> !is_newline(final(self).tokens@[final(self).pos as int].0),
            (old(self).pos >= old(self).tokens@.len() || !is_newline(old(self).tokens@[old(self).pos as int].0))
                ==> final(self).pos == old(self).pos,
    {
        let ghost start = self.pos;
        while self.pos < self.tokens.len() && matches!(self.tokens[self.pos].0, Token::NewLine)
            invariant
                self.wf(),
                self.moved_on(old(self)),
                start == old(self).pos,
                forall|k: int| start <= k < self.pos ==> is_newline(#[trigger] self.tokens@[k].0),
            decreases self.tokens@.len() - self.pos,
        {
            self.pos = self.pos + 1;
        }
    }

    /// One item, or `None` when the next token cannot start one.
    fn parse_item(&mut self) -> (r: Result<Option<Item>, ParseError>)
        requires
            old(self).wf(),
        ensures
            final(self).wf(),
            final(self).moved_on(old(self)),
            r matches Ok(Some(_)) ==> final(self).pos > old(self).pos,
            r matches Ok(Some(it)) ==> tidy(item_view(it)),
            group_result_ok(old(self).tokens@, old(self).pos as int, r),
            r matches Ok(None) ==> final(self).pos == old(self).pos,
            old(self).pos < old(self).tokens@.len() && 10 <= tkind(old(self).tokens@, old(self).pos as int) <= 12
                ==> final(self).pos == old(self).pos + 1,
        decreases old(self).tokens@.len() - old(self).pos, 0int,
    {
        let kind: u8 = match self.peek() {
            None => return Ok(None),
            Some(Token::NonTerminal(_)) => 0,
            Some(Token::Terminal(_)) => 1,
            Some(Token::Regex(_)) => 2,
            Some(Token::BracketSquareOpen) => 3,
            Some(Token::BracketCurlyOpen) => 4,
            Some(Token::BracketRoundOpen) => 5,
            Some(_) => return Ok(None),
        };
        let ghost p0 = self.pos;
        let first = self.advance();
        let tok = match first {
            Some((t, _)) => t,
            None => return Ok(None),
        };
        proof {
            assert(token_view(tok) == token_view(self.tokens@[p0 as int].0));
        }
        if kind < 3 {
            proof {
                let tv = token_view(self.tokens@[p0 as int].0);
                assert(kind == 0 ==> tv.0 == 10);
                assert(kind == 1 ==> tv.0 == 11);
                assert(kind == 2 ==> tv.0 == 12);
            }
            return match tok {
                Token::NonTerminal(s) => Ok(Some(Item::NonTerminal(s))),
                Token::Terminal(s) => Ok(Some(Item::Terminal(s))),
                Token::Regex(s) => Ok(Some(Item::Regex(s))),
                _ => Ok(None),
            };
        }
        self.skip_newlines();
        if kind == 3 {
            let items = self.parse_items()?;
            self.skip_newlines();
            self.expect(&Token::BracketSquareClose)?;
            Ok(Some(Item::Optional(items)))
        } else if kind == 4 {
            let items = self.parse_items()?;
            self.skip_newlines();
            self.expect(&Token::BracketCurlyClose)?;
            Ok(Some(Item::AnyAmount(items)))
        } else {
            let mut alts = self.parse_alternatives()?;
            self.skip_newlines();
            self.expect(&Token::BracketRoundClose)?;
            if alts.len() == 1 {
                proof {
                    assert(alts@.drop_last() =~= Seq::<Vec<Item>>::empty());
                }
                proof {
                    lemma_tidy_alt_single(alts@);
                }
                let mut items = alts.pop().unwrap();
                if items.len() == 1 {
                    proof {
                        lemma_tidy_single(items@);
                    }
                    Ok(Some(items.pop().unwrap()))
                } else {
                    proof {
                        assert(alts_eview(Seq::<Vec<Item>>::empty()) =~= Seq::<Seq<EItem>>::empty());
                        lemma_tidy_alts_push(Seq::<Vec<Item>>::empty(), items);
                        assert(seq![items] =~= Seq::<Vec<Item>>::empty().push(items));
                        lemma_alts_eview_len(seq![items]);
                        lemma_items_eview_len(items@);
                    }
                    let ghost iv = items;
                    let group = vec![items];
                    proof {
                        assert(group@ =~= seq![iv]);
                        assert(tidy(item_view(Item::Choice(group))));
                    }
                    Ok(Some(Item::Choice(group)))
                }
            } else {
                proof {
                    lemma_alts_eview_len(alts@);
                    assert(tidy(item_view(Item::Choice(alts))));
                }
                Ok(Some(Item::Choice(alts)))
            }
        }
    }

    /// Items up to the first token that cannot start one.
    fn parse_items(&mut self) -> (r: Result<Vec<Item>, ParseError>)
        requires
            old(self).wf(),
        ensures
            final(self).wf(),
            final(self).moved_on(old(self)),
            r matches Ok(v) ==> tidy_seq(items_eview(v@)),
            simple_body(old(self).tokens@, old(self).pos as int) ==> r is Ok && simple_body(
                final(self).tokens@,
                final(self).pos as int,
            ) && (tkind(final(self).tokens@, final(self).pos as int) == 0 || tkind(
                final(self).tokens@,
                final(self).pos as int,
            ) == 8),
        decreases old(self).tokens@.len() - old(self).pos, 1int,
    {
        let mut items: Vec<Item> = Vec::new();
        proof {
            assert(items_eview(items@) =~= Seq::<EItem>::empty());
        }
        loop
            invariant
                self.wf(),
                self.moved_on(old(self)),
                tidy_seq(items_eview(items@)),
                simple_body(old(self).tokens@, old(self).pos as int) ==> simple_body(self.tokens@, self.pos as int),
            ensures
                self.wf(),
                self.moved_on(old(self)),
                tidy_seq(items_eview(items@)),
                simple_body(old(self).tokens@, old(self).pos as int) ==> simple_body(self.tokens@, self.pos as int) && (
                tkind(self.tokens@, self.pos as int) == 0 || tkind(self.tokens@, self.pos as int) == 8),
            decreases self.tokens@.len() - self.pos,
        {
            proof {
                if simple_body(self.tokens@, self.pos as int) {
                    assert(!is_newline(self.tokens@[self.pos as int].0));
                }
            }
            self.skip_newlines();
            match self.parse_item()? {
                Some(item) => {
                    proof {
                        lemma_tidy_seq_push(items@, item);
                    }
                    items.push(item);
                },
                None => break,
            }
        }
        Ok(items)
    }

    /// Alternatives separated by `|`.
    fn parse_alternatives(&mut self) -> (r: Result<Vec<Vec<Item>>, ParseError>)
        requires
            old(self).wf(),
        ensures
            final(self).wf(),
            final(self).moved_on(old(self)),
            r matches Ok(a) ==> a@.len() >= 1,
            r matches Ok(a) ==> tidy_alts(alts_eview(a@)),
            simple_body(old(self).tokens@, old(self).pos as int) ==> r is Ok && final(self).pos < final(self).tokens@.len()
                && tkind(final(self).tokens@, final(self).pos as int) == 0 && simple_rules(
                final(self).tokens@,
                final(self).pos + 1,
            ),
        decreases old(self).tokens@.len() - old(self).pos, 2int,
    {
        proof {
            if simple_body(self.tokens@, self.pos as int) {
                assert(!is_newline(self.tokens@[self.pos as int].0));
            }
        }
        self.skip_newlines();
        let first = self.parse_items()?;
        proof {
            assert(alts_eview(Seq::<Vec<Item>>::empty()) =~= Seq::<Seq<EItem>>::empty());
            lemma_tidy_alts_push(Seq::<Vec<Item>>::empty(), first);
        }
        let ghost fv = first;
        let mut alternatives: Vec<Vec<Item>> = vec![first];
        proof {
            assert(alternatives@ =~= Seq::<Vec<Item>>::empty().push(fv));
        }
        proof {
            if simple_body(old(self).tokens@, old(self).pos as int) {
                assert(!is_newline(self.tokens@[self.pos as int].0));
            }
        }
        self.skip_newlines();
        while self.pos < self.tokens.len() && matches!(self.tokens[self.pos].0, Token::Separator)
            invariant
                self.wf(),
                self.moved_on(old(self)),
                alternatives@.len() >= 1,
                tidy_alts(alts_eview(alternatives@)),
                simple_body(old(self).tokens@, old(self).pos as int) ==> simple_body(self.tokens@, self.pos as int) && (
                tkind(self.tokens@, self.pos as int) == 0 || tkind(self.tokens@, self.pos as int) == 8),
            decreases self.tokens@.len() - self.pos,
        {
            self.advance();
            proof {
                if simple_body(old(self).tokens@, old(self).pos as int) {
                    assert(simple_body(self.tokens@, self.pos as int));
                    assert(!is_newline(self.tokens@[self.pos as int].0));
                }
            }
            self.skip_newlines();
            let next = self.parse_items()?;
            proof {
                lemma_tidy_alts_push(alternatives@, next);
            }
            alternatives.push(next);
            proof {
                if simple_body(old(self).tokens@, old(self).pos as int) {
                    assert(!is_newline(self.tokens@[self.pos as int].0));
                }
            }
            self.skip_newlines();
        }
        Ok(alternatives)
    }

    /// One rule: `Name := alternatives .`
    fn parse_rule(&mut self) -> (r: Result<(String, Vec<Vec<Item>>), ParseError>)
        requires
            old(self).wf(),
        ensures
            final(self).wf(),
            final(self).moved_on(old(self)),
            r is Ok ==> final(self).pos > old(self).pos,
            r matches Ok(rule) ==> names_token(final(self).tokens@, rule.0@),
            simple_rules(old(self).tokens@, old(self).pos as int) && old(self).pos < old(self).tokens@.len() ==> r is Ok
                && simple_rules(final(self).tokens@, final(self).pos as int),
    {
        proof {
            if simple_rules(self.tokens@, self.pos as int) && self.pos < self.tokens@.len() {
                assert(!is_newline(self.tokens@[self.pos as int].0));
            }
        }
        self.skip_newlines();
        let ghost at = self.pos;
        let name = match self.advance() {
            Some((Token::NonTerminal(s), _)) => s,
            Some((tok, span)) => {
                return Err(ParseError::ExpectedNonTerminal { found: tok.describe(), span });
            },
            None => {
                return Err(
                    ParseError::UnexpectedEof { expected: "non-terminal".to_owned(), span: self.current_span() },
                );
            },
        };
        proof {
            if simple_rules(old(self).tokens@, old(self).pos as int) && old(self).pos < old(self).tokens@.len() {
                assert(!is_newline(self.tokens@[self.pos as int].0));
            }
        }
        self.skip_newlines();
        self.expect(&Token::Assign)?;
        proof {
            if simple_rules(old(self).tokens@, old(self).pos as int) && old(self).pos < old(self).tokens@.len() {
                assert(simple_body(self.tokens@, self.pos as int));
                assert(!is_newline(self.tokens@[self.pos as int].0));
            }
        }
        self.skip_newlines();
        let alts = self.parse_alternatives()?;
        proof {
            if simple_rules(old(self).tokens@, old(self).pos as int) && old(self).pos < old(self).tokens@.len() {
                assert(!is_newline(self.tokens@[self.pos as int].0));
            }
        }
        self.skip_newlines();
        self.expect(&Token::Dot)?;
        proof {
            assert(token_view(self.tokens@[at as int].0) == (10u8, name@));
        }
        Ok((name, alts))
    }

    /// Rules until the end of the tokens. A rule whose name was already
    /// defined replaces the alternatives of the earlier one, in its place.
    fn parse_grammar(&mut self) -> (r: Result<Sebnf, ParseError>)
        requires
            old(self).wf(),
        ensures
            final(self).wf(),
            r matches Ok(g) ==> crate::converter::ebnf_names_unique(g@),
            r matches Ok(g) ==> final(self).pos == final(self).tokens@.len(),
            r matches Ok(g) ==> forall|k: int| 0 <= k < g@.len() ==> names_token(old(self).tokens@, #[trigger] g@[k].0),
            only_newlines(old(self).tokens@, old(self).pos as int) ==> (r matches Ok(g) && g@.len() == 0),
            simple_rules(old(self).tokens@, old(self).pos as int) ==> r is Ok,
    {
        let mut rules: Vec<(String, Vec<Vec<Item>>)> = Vec::new();
        proof {
            if simple_rules(self.tokens@, self.pos as int) && self.pos < self.tokens@.len() {
                assert(!is_newline(self.tokens@[self.pos as int].0));
            }
        }
        self.skip_newlines();
        proof {
            if only_newlines(old(self).tokens@, old(self).pos as int) && self.pos < self.tokens@.len() {
                assert(is_newline(self.tokens@[self.pos as int].0));
            }
        }
        while self.pos < self.tokens.len()
            invariant
                self.wf(),
                self.tokens@ == old(self).tokens@,
                only_newlines(old(self).tokens@, old(self).pos as int) ==> self.pos == self.tokens@.len() && rules@.len() == 0,
                simple_rules(old(self).tokens@, old(self).pos as int) ==> simple_rules(self.tokens@, self.pos as int),
                forall|k: int| 0 <= k < rules@.len() ==> names_token(old(self).tokens@, #[trigger] erules_view(rules@)[k].0),
                crate::converter::ebnf_names_unique(erules_view(rules@)),
            decreases self.tokens@.len() - self.pos,
        {
            let (name, alts) = self.parse_rule()?;
            insert_rule(&mut rules, name, alts);
            proof {
                if simple_rules(old(self).tokens@, old(self).pos as int) && self.pos < self.tokens@.len() {
                    assert(!is_newline(self.tokens@[self.pos as int].0));
                }
            }
            self.skip_newlines();
        }
        Ok(Sebnf { rules })
    }
}

/// Some token of the list is the nonterminal `name`.
pub open spec fn names_token(tokens: Seq<(Token, (usize, usize))>, name: Seq<char>) -> bool {
    exists|j: int| 0 <= j < tokens.len() && #[trigger] token_view(tokens[j].0) == (10u8, name)
}

/// The tokens from position `from` on are all newlines.
pub open spec fn only_newlines(tokens: Seq<(Token, (usize, usize))>, from: int) -> bool {
    forall|j: int| from <= j < tokens.len() ==> is_newline(#[trigger] tokens[j].0)
}

/// Puts a rule into the list: in place of the rule of the same name if there
/// is one, else at the end.
fn insert_rule(rules: &mut Vec<(String, Vec<Vec<Item>>)>, name: String, alts: Vec<Vec<Item>>)
    requires
        crate::converter::ebnf_names_unique(erules_view(old(rules)@)),
    ensures
        crate::converter::ebnf_names_unique(erules_view(final(rules)@)),
        forall|k: int|
            0 <= k < final(rules)@.len() ==> #[trigger] erules_view(final(rules)@)[k].0 == name@ || (k < old(
                rules,
            )@.len() && erules_view(old(rules)@)[k].0 == erules_view(final(rules)@)[k].0),
        final(rules)@.len() >= 1,
{
    let ghost before = rules@;
    let mut i: usize = 0;
    while i < rules.len()
        invariant
            rules@ == before,
            before == old(rules)@,
            crate::converter::ebnf_names_unique(erules_view(before)),
            i <= rules@.len(),
            forall|k: int| 0 <= k < i ==> rules@[k].0@ != name@,
        decreases rules.len() - i,
    {
        if rules[i].0 == name {
            let ghost old_rules = rules@;
            rules.set(i, (name, alts));
            proof {
                let v = erules_view(rules@);
                let v0 = erules_view(old_rules);
                assert(old_rules == old(rules)@);
                assert(crate::converter::ebnf_names_unique(v0));
                assert forall|a: int, b: int| 0 <= a < v.len() && 0 <= b < v.len() && a != b implies v[a].0 != v[b].0 by {
                    assert(v[a].0 == v0[a].0);
                    assert(v[b].0 == v0[b].0);
                }
                assert forall|k: int| 0 <= k < v.len() implies #[trigger] v[k].0 == name@ || (k < v0.len() && v0[k].0 == v[k].0) by {
                    assert(v[k].0 == v0[k].0);
                }
            }
            return;
        }
        i = i + 1;
    }
    rules.push((name, alts));
    proof {
        let v = erules_view(rules@);
        let v0 = erules_view(before);
        assert forall|a: int, b: int| 0 <= a < v.len() && 0 <= b < v.len() && a != b implies v[a].0 != v[b].0 by {
            if a < before.len() {
                assert(v[a].0 == v0[a].0);
            }
            if b < before.len() {
                assert(v[b].0 == v0[b].0);
            }
        }
        assert forall|k: int| 0 <= k < v.len() implies #[trigger] v[k].0 == name@ || (k < v0.len() && v0[k].0 == v[k].0) by {
            if k < before.len() {
                assert(v[k].0 == v0[k].0);
            }
        }
    }
}

impl Sebnf {
    /// Parses a token list, each token with its byte range in a source of
    /// `source_len` bytes. Rule names come out unique.
    pub fn parse(tokens: Vec<(Token, (usize, usize))>, source_len: usize) -> (r: Result<Sebnf, ParseError>)
        ensures
            r matches Ok(g) ==> crate::converter::ebnf_names_unique(g@),
            r matches Ok(g) ==> forall|k: int| 0 <= k < g@.len() ==> names_token(tokens@, #[trigger] g@[k].0),
            only_newlines(tokens@, 0) ==> (r matches Ok(g) && g@.len() == 0),
            simple_rules(tokens@, 0) ==> r is Ok,
    {
        let mut parser = Parser::new(tokens, source_len);
        parser.parse_grammar()
    }

    /// Whether the rule names are unique and none lies in the helper
    /// namespace (three leading underscores), as lowering to BNF requires.
    pub fn names_ok(&self) -> (r: bool)
        ensures
            r == ebnf_names_ok(self@),
    {
        let mut i: usize = 0;
        while i < self.rules.len()
            invariant
                i <= self.rules@.len(),
                forall|k: int| 0 <= k < i ==> !is_helper_name(#[trigger] self@[k].0),
                forall|a: int, b: int| 0 <= a < i && 0 <= b < self@.len() && a != b ==> self@[a].0 != self@[b].0,
            decreases self.rules.len() - i,
        {
            if has_helper_prefix(&self.rules[i].0) {
                proof {
                    assert(is_helper_name(self@[i as int].0));
                }
                return false;
            }
            let mut j: usize = 0;
            while j < self.rules.len()
                invariant
                    i < self.rules@.len(),
                    j <= self.rules@.len(),
                    forall|b: int| 0 <= b < j && b != i ==> self@[i as int].0 != self@[b].0,
                decreases self.rules.len() - j,
            {
                if j != i && self.rules[i].0 == self.rules[j].0 {
                    proof {
                        assert(self@[i as int].0 == self@[j as int].0);
                    }
                    return false;
                }
                j = j + 1;
            }
            i = i + 1;
        }
        true
    }

    /// Lowers the grammar to BNF.
    pub fn to_bnf(&self) -> (r: Bnf)
        requires
            ebnf_names_ok(self@),
        ensures
            desugared(self@, r@),
            r.well_formed(),
    {
        sebnf_to_bnf(self)
    }
}

/// Whether the name starts with three underscores.
fn has_helper_prefix(s: &String) -> (r: bool)
    ensures
        r == is_helper_name(s@),
{
    let t = s.as_str();
    if t.unicode_len() < 3 {
        return false;
    }
    t.get_char(0) == '_' && t.get_char(1) == '_' && t.get_char(2) == '_'
}

} // verus!
