//! Production rules: one non-terminal and its alternatives, and the parser
//! of the textual notation `LEFT->ALT|ALT|...`.

use vstd::prelude::*;
use vstd::string::*;
use crate::symbol::{symbol_views, Symbol, SymbolChain, SymbolView};
use crate::text::{remove_char, split, split_text, views, without};

verus! {

/// What a `CfgRule` stands for: its left symbol and its alternatives.
pub struct RuleView {
    pub left: SymbolView,
    pub outcomes: Seq<Seq<SymbolView>>,
}

/// A rule of a context-free grammar: a non-terminal and the non-empty list of
/// chains it may be replaced by.
pub struct CfgRule {
    left: Symbol,
    outcomes: Vec<SymbolChain>,
}

/// The views of a sequence of chains.
pub open spec fn chain_views(v: Seq<SymbolChain>) -> Seq<Seq<SymbolView>> {
    v.map_values(|c: SymbolChain| c@)
}

impl View for CfgRule {
    type V = RuleView;

    closed spec fn view(&self) -> RuleView {
        RuleView { left: self.left@, outcomes: chain_views(self.outcomes@) }
    }
}

/// The separator between the two sides of a rule.
pub open spec fn arrow() -> Seq<char> {
    seq!['-', '>']
}

/// The separator between alternatives.
pub open spec fn bar() -> Seq<char> {
    seq!['|']
}

/// The symbol a token stands for: a token starting with `!` is a non-terminal
/// labelled by the token without its `!` characters; any other token is a
/// terminal labelled by the token as it is.
pub open spec fn token_symbol(w: Seq<char>) -> SymbolView {
    if w.len() > 0 && w[0] == '!' {
        SymbolView { terminal: false, start: false, label: without(w, '!') }
    } else {
        SymbolView { terminal: true, start: false, label: w }
    }
}

/// The tokens of one alternative.
pub open spec fn alt_tokens(alt: Seq<char>, sep: Seq<char>) -> Seq<Seq<char>> {
    split(alt, sep)
}

/// The chain that one alternative stands for.
pub open spec fn alt_chain(alt: Seq<char>, sep: Seq<char>) -> Seq<SymbolView> {
    alt_tokens(alt, sep).map_values(|w: Seq<char>| token_symbol(w))
}

/// Whether every token of every alternative is non-empty.
pub open spec fn tokens_ok(alts: Seq<Seq<char>>, sep: Seq<char>) -> bool {
    forall|i: int, j: int|
        0 <= i < alts.len() && 0 <= j < alt_tokens(alts[i], sep).len() ==> (#[trigger] alt_tokens(
            alts[i],
            sep,
        )[j]).len() > 0
}

/// The rule that `expr` denotes with tokens separated by `sep`, if any.
///
/// The separator must be neither `|` nor `->` and must not be empty; `expr`
/// must contain `->`; the left side is the text before the first `->`, the
/// right side the text between it and the next `->` (or the end); the right
/// side is cut at each `|` into alternatives, and each alternative at each
/// `sep` into tokens, none of which may be empty.
pub open spec fn parse_rule(expr: Seq<char>, sep: Seq<char>, is_start: bool) -> Option<RuleView> {
    let sides = split(expr, arrow());
    let alts = split(sides[1], bar());
    if sep == bar() || sep == arrow() || sep.len() == 0 || sides.len() < 2 {
        None
    } else if !tokens_ok(alts, sep) {
        None
    } else {
        Some(
            RuleView {
                left: SymbolView { terminal: false, start: is_start, label: sides[0] },
                outcomes: alts.map_values(|a: Seq<char>| alt_chain(a, sep)),
            },
        )
    }
}

/// The views of an optional rule.
pub open spec fn rule_option_view(r: Option<CfgRule>) -> Option<RuleView> {
    match r {
        Some(x) => Some(x@),
        None => None,
    }
}

/// Whether `s` is exactly the character `c`.
fn is_char(s: &str, c: char) -> (r: bool)
    ensures
        r == (s@ == seq![c]),
{
    if s.unicode_len() == 1 && s.get_char(0) == c {
        assert(s@ =~= seq![c]);
        true
    } else {
        false
    }
}

/// Whether `s` is exactly `->`.
fn is_arrow(s: &str) -> (r: bool)
    ensures
        r == (s@ == arrow()),
{
    if s.unicode_len() == 2 && s.get_char(0) == '-' && s.get_char(1) == '>' {
        assert(s@ =~= arrow());
        true
    } else {
        false
    }
}

/// The symbol that token `w` stands for.
fn token_to_symbol(w: &String) -> (r: Symbol)
    ensures
        r@ == token_symbol(w@),
{
    let s = w.as_str();
    if s.unicode_len() > 0 && s.get_char(0) == '!' {
        Symbol { terminal: false, start: false, label: remove_char(s, '!') }
    } else {
        Symbol { terminal: true, start: false, label: w.clone() }
    }
}

/// Splitting always yields at least one piece.
pub proof fn lemma_split_from_nonempty(s: Seq<char>, p: Seq<char>, start: int, i: int)
    ensures
        crate::text::split_from(s, p, start, i).len() >= 1,
    decreases s.len() - i,
{
    if p.len() == 0 || i < 0 || i + p.len() > s.len() {
    } else if crate::text::occurs_at(s, p, i) {
    } else {
        lemma_split_from_nonempty(s, p, start, i + 1);
    }
}

impl Clone for CfgRule {
    fn clone(&self) -> Self {
        self.copy()
    }
}

impl CfgRule {
    #[verifier::type_invariant]
    spec fn has_outcomes(self) -> bool {
        self.outcomes.len() > 0
    }

    /// A rule from its left symbol and its alternatives; `None` when there
    /// are no alternatives.
    pub fn new(left: Symbol, outcomes: Vec<SymbolChain>) -> (r: Option<CfgRule>)
        ensures
            r is None <==> outcomes@.len() == 0,
            r matches Some(x) ==> x@ == (RuleView { left: left@, outcomes: chain_views(outcomes@) }),
    {
        if outcomes.len() == 0 {
            None
        } else {
            Some(CfgRule { left, outcomes })
        }
    }

    /// A copy of this rule, chain for chain.
    pub fn copy(&self) -> (r: CfgRule)
        ensures
            r@ == self@,
    {
        proof {
            use_type_invariant(self);
        }
        let mut outcomes: Vec<SymbolChain> = Vec::new();
        let mut i: usize = 0;
        while i < self.outcomes.len()
            invariant
                i <= self.outcomes@.len(),
                chain_views(outcomes@) == chain_views(self.outcomes@.take(i as int)),
            decreases self.outcomes@.len() - i,
        {
            let ghost before = outcomes@;
            outcomes.push(self.outcomes[i].copy());
            assert(chain_views(outcomes@) =~= chain_views(before).push(self.outcomes@[i as int]@));
            assert(self.outcomes@.take(i + 1) =~= self.outcomes@.take(i as int).push(
                self.outcomes@[i as int],
            ));
            i = i + 1;
        }
        assert(self.outcomes@.take(i as int) =~= self.outcomes@);
        CfgRule { left: self.left.copy(), outcomes }
    }

    /// Parses a rule written `LEFT->ALT|ALT|...`, the tokens of each
    /// alternative separated by `sym_separator`; `None` where the text or
    /// the separator is not valid (see `parse_rule`).
    pub fn from_expression(expr: String, sym_separator: String, starting_rule: bool) -> (r:
        Option<CfgRule>)
        ensures
            rule_option_view(r) == parse_rule(expr@, sym_separator@, starting_rule),
            (sym_separator@ == bar() || sym_separator@ == arrow()) ==> r is None,
            r matches Some(x) ==> x@.outcomes.len() >= 1,
    {
        let sep = sym_separator.as_str();
        let ghost sepv = sep@;
        if is_char(sep, '|') || is_arrow(sep) || sep.unicode_len() == 0 {
            return None;
        }
        let arrow_text = "->";
        let bar_text = "|";
        proof {
            reveal_strlit("->");
            reveal_strlit("|");
            assert(arrow_text@ =~= arrow());
            assert(bar_text@ =~= bar());
        }
        let sides = split_text(expr.as_str(), arrow_text);
        if sides.len() < 2 {
            return None;
        }
        assert(views(sides@)[1] == sides@[1]@);
        let alts = split_text(sides[1].as_str(), bar_text);
        let ghost alts_v = views(alts@);
        proof {
            lemma_split_from_nonempty(sides@[1]@, bar(), 0, 0);
        }
        let mut outcomes: Vec<SymbolChain> = Vec::new();
        let mut i: usize = 0;
        while i < alts.len()
            invariant
                alts_v == views(alts@),
                views(sides@) == split(expr@, arrow()),
                sides@.len() >= 2,
                sepv == sym_separator@,
                sepv != bar(),
                sepv != arrow(),
                alts_v == split(sides@[1]@, bar()),
                sepv == sep@,
                sepv.len() > 0,
                i <= alts@.len(),
                forall|a: int, j: int|
                    0 <= a < i && 0 <= j < alt_tokens(alts_v[a], sepv).len() ==> (
                    #[trigger] alt_tokens(alts_v[a], sepv)[j]).len() > 0,
                chain_views(outcomes@) == alts_v.take(i as int).map_values(
                    |a: Seq<char>| alt_chain(a, sepv),
                ),
                outcomes@.len() == i,
            decreases alts@.len() - i,
        {
            let words = split_text(alts[i].as_str(), sep);
            let ghost words_v = views(words@);
            assert(words_v == alt_tokens(alts_v[i as int], sepv));
            let mut symbols: Vec<Symbol> = Vec::new();
            let mut j: usize = 0;
            while j < words.len()
                invariant
                    words_v == views(words@),
                    words_v == alt_tokens(alts_v[i as int], sepv),
                    alts_v == views(alts@),
                    views(sides@) == split(expr@, arrow()),
                    sides@.len() >= 2,
                    sepv == sym_separator@,
                    sepv != bar(),
                    sepv != arrow(),
                    alts_v == split(sides@[1]@, bar()),
                    sepv.len() > 0,
                    i < alts@.len(),
                    j <= words@.len(),
                    forall|k: int| 0 <= k < j ==> (#[trigger] words_v[k]).len() > 0,
                    symbol_views(symbols@) == words_v.take(j as int).map_values(
                        |w: Seq<char>| token_symbol(w),
                    ),
                decreases words@.len() - j,
            {
                assert(words_v[j as int] == words@[j as int]@);
                if words[j].as_str().unicode_len() == 0 {
                    assert(!tokens_ok(alts_v, sepv)) by {
                        assert(alt_tokens(alts_v[i as int], sepv)[j as int].len() == 0);
                    }
                    return None;
                }
                let ghost before = symbols@;
                symbols.push(token_to_symbol(&words[j]));
                assert(symbol_views(symbols@) =~= symbol_views(before).push(
                    token_symbol(words_v[j as int]),
                ));
                assert(words_v.take(j + 1) =~= words_v.take(j as int).push(words_v[j as int]));
                j = j + 1;
            }
            assert(words_v.take(j as int) =~= words_v);
            let ghost before = outcomes@;
            outcomes.push(SymbolChain::new(symbols));
            assert(chain_views(outcomes@) =~= chain_views(before).push(alt_chain(alts_v[i as int], sepv)));
            assert(alts_v.take(i + 1) =~= alts_v.take(i as int).push(alts_v[i as int]));
            i = i + 1;
        }
        assert(alts_v.take(i as int) =~= alts_v);
        assert(tokens_ok(alts_v, sepv));
        let left = Symbol { terminal: false, start: starting_rule, label: sides[0].clone() };
        assert(views(sides@)[0] == sides@[0]@);
        let r = CfgRule { left, outcomes };
        assert(r@.outcomes.len() >= 1);
        assert(r@.outcomes =~= alts_v.map_values(|a: Seq<char>| alt_chain(a, sepv)));
        Some(r)
    }

    /// Marks the left symbol as the start symbol of its grammar.
    pub fn make_starting_rule(&mut self)
        ensures
            final(self)@ == (RuleView {
                left: SymbolView { start: true, ..old(self)@.left },
                outcomes: old(self)@.outcomes,
            }),
    {
        proof {
            use_type_invariant(&*self);
        }
        self.left.start = true;
    }

    /// The alternative at `idx`, taken modulo the number of alternatives.
    pub fn get_outcome(&self, idx: usize) -> (r: SymbolChain)
        ensures
            self@.outcomes.len() >= 1,
            r@ == outcome_at(self@, idx as nat),
    {
        proof {
            use_type_invariant(self);
        }
        let act_idx = idx % self.outcomes.len();
        self.outcomes[act_idx].copy()
    }

    /// The number of alternatives, never below one.
    pub fn num_of_outcomes(&self) -> (r: usize)
        ensures
            r == self@.outcomes.len(),
            r >= 1,
    {
        proof {
            use_type_invariant(self);
        }
        self.outcomes.len()
    }

    /// A copy of the left symbol.
    pub fn get_left(&self) -> (r: Symbol)
        ensures
            r@ == self@.left,
    {
        self.left.copy()
    }
}

/// The alternative of `rule` at `idx`, wrapping around.
pub open spec fn outcome_at(rule: RuleView, idx: nat) -> Seq<SymbolView> {
    rule.outcomes[(idx % rule.outcomes.len()) as int]
}

/// Indices into the alternatives of a rule wrap around: `idx` and
/// `idx + k * n` name the same alternative, `n` being their number.
/// (Every rule has an alternative: see `CfgRule::num_of_outcomes`.)
pub proof fn lemma_outcome_wraps(rule: RuleView, idx: nat, k: nat)
    requires
        rule.outcomes.len() >= 1,
    ensures
        outcome_at(rule, idx) == outcome_at(rule, idx + k * rule.outcomes.len()),
{
    let n = rule.outcomes.len();
    assert((idx + k * n) % n == idx % n) by (nonlinear_arith)
        requires
            n > 0,
    {
        vstd::arithmetic::div_mod::lemma_mod_multiples_vanish(k as int, idx as int, n as int);
    }
}

} // verus!
