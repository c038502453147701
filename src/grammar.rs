//! A context-free grammar: its rules, its start symbol, and the generation
//! of strings from it.

use vstd::prelude::*;
use vstd::string::*;
use crate::rule::{outcome_at, CfgRule, RuleView};
use crate::symbol::{
    advance, ascending_order, descend, init_idx, new_order, next_order, Order, Symbol,
    SymbolChain, SymbolView,
};
use crate::text::views;

verus! {

/// What a `ContextFreeGrammar` stands for.
pub struct GrammarView {
    pub rules: Seq<RuleView>,
    pub non_terminals: Seq<SymbolView>,
    pub start: Option<SymbolView>,
    pub order: Order,
    pub num: u32,
    pub max_depth: u32,
}

/// A context-free grammar holding a set of rules, which generates strings
/// of its language.
#[derive(Clone)]
pub struct ContextFreeGrammar {
    rules: Vec<CfgRule>,
    non_terminals: Vec<Symbol>,
    start: Option<Symbol>,
    order: Order,
    num: u32,
    max_depth: u32,
}

/// The views of a sequence of rules.
pub open spec fn rule_views(v: Seq<CfgRule>) -> Seq<RuleView> {
    v.map_values(|r: CfgRule| r@)
}

/// The labels of a sequence of symbols.
pub open spec fn labels(v: Seq<SymbolView>) -> Seq<Seq<char>> {
    v.map_values(|s: SymbolView| s.label)
}

impl View for ContextFreeGrammar {
    type V = GrammarView;

    closed spec fn view(&self) -> GrammarView {
        GrammarView {
            rules: rule_views(self.rules@),
            non_terminals: self.non_terminals@.map_values(|s: Symbol| s@),
            start: match self.start {
                Some(s) => Some(s@),
                None => None,
            },
            order: self.order,
            num: self.num,
            max_depth: self.max_depth,
        }
    }
}

/// The index of the first rule, from `k` on, whose left label is `label`.
pub open spec fn find_rule_from(rules: Seq<RuleView>, label: Seq<char>, k: int) -> Option<int>
    decreases rules.len() - k,
{
    if k < 0 || k >= rules.len() {
        None
    } else if rules[k].left.label == label {
        Some(k)
    } else {
        find_rule_from(rules, label, k + 1)
    }
}

/// The index of the first rule whose left label is `label`.
pub open spec fn find_rule(rules: Seq<RuleView>, label: Seq<char>) -> Option<int> {
    find_rule_from(rules, label, 0)
}

/// The expansion of the non-terminal `label` with `depth` replacements left,
/// the alternatives chosen by `order`; in random order each choice takes
/// the next of `draws` (modulo the number of alternatives). The result is
/// the string and the draws left over, or `None` when a non-terminal that
/// is met has no rule.
pub open spec fn expand(
    rules: Seq<RuleView>,
    label: Seq<char>,
    depth: nat,
    order: Order,
    draws: Seq<nat>,
) -> Option<(Seq<char>, Seq<nat>)>
    decreases depth, 0nat,
{
    if depth == 0 {
        Some((seq![], draws))
    } else {
        match find_rule(rules, label) {
            None => None,
            Some(k) => {
                let rule = rules[k];
                let n = rule.outcomes.len();
                let (idx, rest) = match order {
                    Order::ASCENDING { count } => (count as nat, draws),
                    Order::RANDOM => if draws.len() > 0 {
                        (draws[0], draws.drop_first())
                    } else {
                        (0nat, draws)
                    },
                };
                expand_chain(rules, outcome_at(rule, idx), (depth - 1) as nat, descend(order, n), rest)
            },
        }
    }
}

/// The concatenated expansions of the symbols of `chain`, left to right:
/// a terminal gives its label, a non-terminal its expansion.
pub open spec fn expand_chain(
    rules: Seq<RuleView>,
    chain: Seq<SymbolView>,
    depth: nat,
    order: Order,
    draws: Seq<nat>,
) -> Option<(Seq<char>, Seq<nat>)>
    decreases depth, chain.len() + 1,
{
    if chain.len() == 0 {
        Some((seq![], draws))
    } else {
        let sym = chain[0];
        let first = if sym.terminal {
            Some((sym.label, draws))
        } else {
            expand(rules, sym.label, depth, order, draws)
        };
        match first {
            None => None,
            Some((s1, d1)) => match expand_chain(rules, chain.drop_first(), depth, order, d1) {
                None => None,
                Some((s2, d2)) => Some((s1 + s2, d2)),
            },
        }
    }
}

/// Whether a grammar takes `rule`: no rule for its label was added before,
/// and it is no second start rule.
pub open spec fn accepts(g: GrammarView, rule: RuleView) -> bool {
    !(labels(g.non_terminals).contains(rule.left.label) || (rule.left.start && g.start is Some))
}

/// The grammar after an attempt to add `rule`: unchanged when refused, else
/// with the rule and its label appended, and its left symbol as start symbol
/// if it is a start rule.
pub open spec fn with_rule(g: GrammarView, rule: RuleView) -> GrammarView {
    if !accepts(g, rule) {
        g
    } else {
        GrammarView {
            rules: g.rules.push(rule),
            non_terminals: g.non_terminals.push(rule.left),
            start: if rule.left.start {
                Some(rule.left)
            } else {
                g.start
            },
            ..g
        }
    }
}

/// Once a rule is added, a second rule for the same label is refused and
/// leaves the grammar unchanged.
pub proof fn lemma_duplicate_label_refused(g: GrammarView, first: RuleView, second: RuleView)
    requires
        accepts(g, first),
        second.left.label == first.left.label,
    ensures
        !accepts(with_rule(g, first), second),
        with_rule(with_rule(g, first), second) == with_rule(g, first),
{
    let g1 = with_rule(g, first);
    assert(labels(g1.non_terminals) =~= labels(g.non_terminals).push(first.left.label));
    assert(labels(g1.non_terminals)[g.non_terminals.len() as int] == second.left.label);
}

/// Once a start rule is added, a second start rule is refused and leaves the
/// grammar unchanged.
pub proof fn lemma_second_start_refused(g: GrammarView, first: RuleView, second: RuleView)
    requires
        accepts(g, first),
        first.left.start,
        second.left.start,
    ensures
        !accepts(with_rule(g, first), second),
        with_rule(with_rule(g, first), second) == with_rule(g, first),
{
}

/// The give-up threshold on successive duplicates: `max(num, 20)`.
pub open spec fn dupe_limit(num: nat) -> nat {
    if num > 20 {
        num
    } else {
        20
    }
}

/// The strings that generation collects, from the state `acc` (accepted so
/// far), `n` (candidates counted), `dupes` (successive duplicates) on:
/// candidates are expanded from `start` with `order`, which advances after
/// each; with `allow` every candidate is taken, else one equal to an
/// accepted string is dropped, and `dupe_limit(num)` duplicates in a row end
/// the run early. `None` when a candidate meets a non-terminal without rule.
pub open spec fn run(
    rules: Seq<RuleView>,
    start: Seq<char>,
    depth: nat,
    num: nat,
    allow: bool,
    order: Order,
    acc: Seq<Seq<char>>,
    n: nat,
    dupes: nat,
    draws: Seq<nat>,
) -> Option<Seq<Seq<char>>>
    decreases num - n, dupe_limit(num) - dupes,
{
    if n >= num {
        Some(acc)
    } else {
        match expand(rules, start, depth, order, draws) {
            None => None,
            Some((cand, rest)) => if allow {
                run(rules, start, depth, num, allow, advance(order), acc.push(cand), n + 1, dupes, rest)
            } else if !acc.contains(cand) {
                run(rules, start, depth, num, allow, advance(order), acc.push(cand), n + 1, 0, rest)
            } else if dupes + 1 >= dupe_limit(num) {
                Some(acc)
            } else {
                run(rules, start, depth, num, allow, advance(order), acc, n, dupes + 1, rest)
            },
        }
    }
}

/// What generation from grammar `g` gives, the random choices being `draws`:
/// nothing to generate without a start symbol, else `run` from its start.
pub open spec fn generation(
    g: GrammarView,
    order: Order,
    num: nat,
    depth: nat,
    allow: bool,
    draws: Seq<nat>,
) -> Option<Seq<Seq<char>>> {
    match g.start {
        None => Some(seq![]),
        Some(s) => run(g.rules, s.label, depth, num, allow, order, seq![], 0, 0, draws),
    }
}

/// The views of an optional list of strings.
pub open spec fn list_view(r: Option<Vec<String>>) -> Option<Seq<Seq<char>>> {
    match r {
        Some(v) => Some(views(v@)),
        None => None,
    }
}

/// Whether `v` holds a string equal to `s`.
fn contains_text(v: &Vec<String>, s: &String) -> (r: bool)
    ensures
        r == views(v@).contains(s@),
{
    let mut i: usize = 0;
    while i < v.len()
        invariant
            i <= v@.len(),
            forall|j: int| 0 <= j < i ==> v@[j]@ != s@,
        decreases v@.len() - i,
    {
        if v[i] == *s {
            assert(views(v@)[i as int] == s@);
            return true;
        }
        i = i + 1;
    }
    assert forall|j: int| 0 <= j < views(v@).len() implies views(v@)[j] != s@ by {
        assert(views(v@)[j] == v@[j]@);
    }
    false
}

/// An optional string paired with the draws left over.
pub open spec fn with_rest(r: Option<String>, t: Seq<nat>) -> Option<(Seq<char>, Seq<nat>)> {
    match r {
        Some(s) => Some((s@, t)),
        None => None,
    }
}

impl ContextFreeGrammar {
    /// An empty grammar: no rules, no start symbol, ascending order, no
    /// strings requested, a depth bound of ten.
    pub fn new() -> (r: ContextFreeGrammar)
        ensures
            r@ == (GrammarView {
                rules: seq![],
                non_terminals: seq![],
                start: None,
                order: Order::ASCENDING { count: 0 },
                num: 0,
                max_depth: 10,
            }),
    {
        let r = ContextFreeGrammar {
            rules: Vec::new(),
            non_terminals: Vec::new(),
            start: None,
            order: ascending_order(),
            num: 0,
            max_depth: 10,
        };
        assert(r@.rules =~= seq![]);
        assert(r@.non_terminals =~= seq![]);
        r
    }

    /// The index of the first rule whose left label is `label`.
    fn rule_index(&self, label: &String) -> (r: Option<usize>)
        ensures
            match r {
                Some(k) => find_rule(self@.rules, label@) == Some(k as int) && k < self.rules@.len(),
                None => find_rule(self@.rules, label@) is None,
            },
    {
        let mut k: usize = 0;
        while k < self.rules.len()
            invariant
                k <= self.rules@.len(),
                self@.rules == rule_views(self.rules@),
                find_rule_from(self@.rules, label@, k as int) == find_rule(self@.rules, label@),
            decreases self.rules@.len() - k,
        {
            let left = self.rules[k].get_left();
            if left.label == *label {
                return Some(k);
            }
            k = k + 1;
        }
        None
    }

    /// Expands the non-terminal `label` with `rem` replacements left. Also
    /// gives, as a ghost value, the indices drawn at random on the way.
    fn generate(&self, order: Order, label: &String, rem: u32) -> (r: (
        Option<String>,
        Ghost<Seq<nat>>,
    ))
        ensures
            forall|t: Seq<nat>|
                #[trigger] expand(self@.rules, label@, rem as nat, order, r.1@ + t) == with_rest(
                    r.0,
                    t,
                ),
            order is ASCENDING ==> r.1@.len() == 0,
            rem == 0 ==> r.0 is Some,
        decreases rem, 0nat,
    {
        if rem == 0 {
            let e = String::from_str("");
            proof {
                reveal_strlit("");
                assert forall|t: Seq<nat>|
                    #[trigger] expand(self@.rules, label@, rem as nat, order, Seq::<nat>::empty() + t)
                        == with_rest(Some(e), t) by {
                    assert(Seq::<nat>::empty() + t =~= t);
                    assert(e@ =~= seq![]);
                }
            }
            return (Some(e), Ghost(Seq::empty()));
        }
        let k = match self.rule_index(label) {
            None => {
                proof {
                    assert forall|t: Seq<nat>|
                        #[trigger] expand(self@.rules, label@, rem as nat, order, Seq::<nat>::empty() + t)
                            == with_rest(None, t) by {}
                }
                return (None, Ghost(Seq::empty()));
            },
            Some(k) => k,
        };
        let rule = &self.rules[k];
        assert(self@.rules[k as int] == rule@);
        let n = rule.num_of_outcomes();
        let idx = init_idx(order, n);
        let chain = rule.get_outcome(idx);
        let next = new_order(order, n);
        let (res, Ghost(used)) = self.expand_chain(&chain, 0, next, rem - 1);
        assert(chain@.skip(0) =~= chain@);
        let ghost mine = match order {
            Order::ASCENDING { .. } => used,
            Order::RANDOM => seq![idx as nat] + used,
        };
        proof {
            assert forall|t: Seq<nat>|
                #[trigger] expand(self@.rules, label@, rem as nat, order, mine + t) == with_rest(
                    res,
                    t,
                ) by {
                assert(expand_chain(self@.rules, chain@.skip(0), (rem - 1) as nat, next, used + t)
                    == with_rest(res, t));
                assert(find_rule(self@.rules, label@) == Some(k as int));
                match order {
                    Order::ASCENDING { count } => {
                        vstd::arithmetic::div_mod::lemma_mod_twice(count as int, n as int);
                        assert(outcome_at(rule@, idx as nat) == outcome_at(rule@, count as nat));
                    },
                    Order::RANDOM => {
                        vstd::arithmetic::div_mod::lemma_small_mod(idx as nat, n as nat);
                        assert((mine + t)[0] == idx as nat);
                        assert((mine + t).drop_first() =~= used + t);
                    },
                }
            }
        }
        (res, Ghost(mine))
    }

    /// Expands the symbols of `chain` from index `i` on, left to right.
    fn expand_chain(&self, chain: &SymbolChain, i: usize, order: Order, rem: u32) -> (r: (
        Option<String>,
        Ghost<Seq<nat>>,
    ))
        requires
            i <= chain@.len(),
        ensures
            forall|t: Seq<nat>|
                #[trigger] expand_chain(self@.rules, chain@.skip(i as int), rem as nat, order, r.1@ + t)
                    == with_rest(r.0, t),
            order is ASCENDING ==> r.1@.len() == 0,
        decreases rem, chain@.len() - i + 1,
    {
        if i == chain.symbols.len() {
            let e = String::from_str("");
            proof {
                reveal_strlit("");
                assert forall|t: Seq<nat>|
                    #[trigger] expand_chain(
                        self@.rules,
                        chain@.skip(i as int),
                        rem as nat,
                        order,
                        Seq::<nat>::empty() + t,
                    ) == with_rest(Some(e), t) by {
                    assert(Seq::<nat>::empty() + t =~= t);
                    assert(e@ =~= seq![]);
                    assert(chain@.skip(i as int) =~= seq![]);
                }
            }
            return (Some(e), Ghost(Seq::empty()));
        }
        let sym = &chain.symbols[i];
        assert(chain@.skip(i as int)[0] == sym@);
        assert(chain@.skip(i as int).drop_first() =~= chain@.skip(i + 1));
        let (first, Ghost(u1)) = if sym.is_terminal() {
            (Some(sym.label.clone()), Ghost(Seq::<nat>::empty()))
        } else {
            self.generate(order, &sym.label, rem)
        };
        match first {
            None => {
                proof {
                    assert forall|t: Seq<nat>|
                        #[trigger] expand_chain(
                            self@.rules,
                            chain@.skip(i as int),
                            rem as nat,
                            order,
                            u1 + t,
                        ) == with_rest(None, t) by {
                        assert(expand(self@.rules, sym@.label, rem as nat, order, u1 + t) == with_rest(None, t));
                    }
                }
                (None, Ghost(u1))
            },
            Some(s1) => {
                let (rest, Ghost(u2)) = self.expand_chain(chain, i + 1, order, rem);
                let out = match rest {
                    None => None,
                    Some(s2) => Some(s1.concat(s2.as_str())),
                };
                proof {
                    assert forall|t: Seq<nat>|
                        #[trigger] expand_chain(
                            self@.rules,
                            chain@.skip(i as int),
                            rem as nat,
                            order,
                            (u1 + u2) + t,
                        ) == with_rest(out, t) by {
                        assert((u1 + u2) + t =~= u1 + (u2 + t));
                        if sym.terminal {
                            assert(u1 + (u2 + t) =~= u2 + t);
                        } else {
                            assert(expand(self@.rules, sym@.label, rem as nat, order, u1 + (u2 + t))
                                == with_rest(Some(s1), u2 + t));
                        }
                        assert(expand_chain(self@.rules, chain@.skip(i + 1), rem as nat, order, u2 + t)
                            == with_rest(rest, t));
                    }
                }
                (out, Ghost(u1 + u2))
            },
        }
    }

    pub fn set_order(&mut self, order: Order)
        ensures
            final(self)@ == (GrammarView { order, ..old(self)@ }),
    {
        self.order = order;
    }

    pub fn set_num(&mut self, n: u32)
        ensures
            final(self)@ == (GrammarView { num: n, ..old(self)@ }),
    {
        self.num = n;
    }

    pub fn set_max_depth(&mut self, md: u32)
        ensures
            final(self)@ == (GrammarView { max_depth: md, ..old(self)@ }),
    {
        self.max_depth = md;
    }

    /// Adds a rule. Refused, leaving the grammar as it was, when a rule for
    /// the same label was added before, or when the rule is a start rule and
    /// the grammar has a start symbol already.
    pub fn add_rule(&mut self, rule: CfgRule) -> (r: bool)
        ensures
            r == accepts(old(self)@, rule@),
            final(self)@ == with_rule(old(self)@, rule@),
    {
        let new_left = rule.get_left();
        let mut nt: usize = 0;
        while nt < self.non_terminals.len()
            invariant
                nt <= self.non_terminals@.len(),
                self@.non_terminals == self.non_terminals@.map_values(|s: Symbol| s@),
                forall|j: int| 0 <= j < nt ==> self@.non_terminals[j].label != new_left@.label,
                new_left@ == rule@.left,
            decreases self.non_terminals@.len() - nt,
        {
            if self.non_terminals[nt].label == new_left.label {
                assert(self@.non_terminals[nt as int] == self.non_terminals@[nt as int]@);
                assert(labels(self@.non_terminals)[nt as int] == rule@.left.label);
                return false;
            }
            nt = nt + 1;
        }
        assert(!labels(self@.non_terminals).contains(rule@.left.label)) by {
            assert forall|j: int| 0 <= j < labels(self@.non_terminals).len() implies labels(
                self@.non_terminals,
            )[j] != rule@.left.label by {
                assert(labels(self@.non_terminals)[j] == self@.non_terminals[j].label);
            }
        }
        if new_left.start {
            if self.start.is_some() {
                return false;
            }
            self.start = Some(new_left.copy());
        }
        let ghost before = *self;
        self.non_terminals.push(new_left);
        self.rules.push(rule);
        assert(self@.non_terminals =~= before@.non_terminals.push(rule@.left));
        assert(self@.rules =~= before@.rules.push(rule@));
        true
    }

    /// Generates up to `num` strings from the start symbol, each with at most
    /// `max_depth` replacements, choosing alternatives by `order`. Without
    /// `allow_dupes` a string equal to one already generated is dropped, and
    /// `max(num, 20)` such strings in a row end the generation early. `None`
    /// when a non-terminal is met for which the grammar has no rule.
    pub fn generate_strings_with(&self, order: Order, num: u32, max_depth: u32, allow_dupes: bool)
        -> (r: Option<Vec<String>>)
        ensures
            exists|d: Seq<nat>|
                #[trigger] generation(self@, order, num as nat, max_depth as nat, allow_dupes, d)
                    == list_view(r),
            order is ASCENDING ==> generation(
                self@,
                order,
                num as nat,
                max_depth as nat,
                allow_dupes,
                Seq::empty(),
            ) == list_view(r),
            self@.start is None ==> (r matches Some(v) && v@.len() == 0),
            allow_dupes && r is Some ==> r->0@.len() == num || self@.start is None,
            max_depth == 0 ==> r is Some,
            max_depth == 0 && r is Some ==> forall|i: int|
                0 <= i < r->0@.len() ==> (#[trigger] r->0@[i])@.len() == 0,
    {
        let start = match &self.start {
            None => {
                let v: Vec<String> = Vec::new();
                assert(views(v@) =~= seq![]);
                assert(generation(self@, order, num as nat, max_depth as nat, allow_dupes, Seq::empty())
                    == list_view(Some(v)));
                return Some(v);
            },
            Some(s) => s,
        };
        let ghost g = self@;
        let ghost limit = dupe_limit(num as nat);
        let mut results: Vec<String> = Vec::new();
        let mut cur = order;
        let mut successive_dupes: u32 = 0;
        let mut n: u32 = 0;
        let ghost mut used: Seq<nat> = Seq::empty();
        assert(views(results@) =~= seq![]);
        assert forall|t: Seq<nat>|
            #[trigger] generation(g, order, num as nat, max_depth as nat, allow_dupes, used + t)
                == run(g.rules, start@.label, max_depth as nat, num as nat, allow_dupes, cur, views(results@), n as nat, successive_dupes as nat, t) by {
            assert(used + t =~= t);
        }
        while n < num
            invariant
                g == self@,
                g.start == Some(start@),
                limit == dupe_limit(num as nat),
                n <= num,
                successive_dupes < limit,
                forall|t: Seq<nat>|
                    #[trigger] generation(g, order, num as nat, max_depth as nat, allow_dupes, used + t)
                        == run(g.rules, start@.label, max_depth as nat, num as nat, allow_dupes, cur, views(results@), n as nat, successive_dupes as nat, t),
                order is ASCENDING ==> cur is ASCENDING && used.len() == 0,
                allow_dupes ==> results@.len() == n,
                max_depth == 0 ==> forall|i: int|
                    0 <= i < results@.len() ==> (#[trigger] results@[i])@.len() == 0,
            decreases num - n, limit - successive_dupes,
        {
            let (cand, Ghost(u)) = self.generate(cur, &start.label, max_depth);
            let ghost before = results@;
            let result = match cand {
                None => {
                    proof {
                        assert(generation(g, order, num as nat, max_depth as nat, allow_dupes, (used + u) + Seq::empty())
                            == list_view(None)) by {
                            assert((used + u) + Seq::empty() =~= used + (u + Seq::<nat>::empty()));
                            assert(expand(g.rules, start@.label, max_depth as nat, cur, u + Seq::<nat>::empty()) == with_rest(None, Seq::empty()));
                        }
                    }
                    return None;
                },
                Some(x) => x,
            };
            assert forall|t: Seq<nat>|
                expand(g.rules, start@.label, max_depth as nat, cur, u + t) == Some((result@, t)) by {
                assert(expand(g.rules, start@.label, max_depth as nat, cur, u + t) == with_rest(Some(result), t));
            }
            assert forall|t: Seq<nat>| (used + u) + t =~= used + (u + t) by {}
            if max_depth == 0 {
                assert(expand(g.rules, start@.label, 0, cur, u + Seq::<nat>::empty()) == Some((result@, Seq::<nat>::empty())));
            }
            if !allow_dupes {
                let redundant = contains_text(&results, &result);
                if !redundant {
                    results.push(result);
                    n = n + 1;
                    successive_dupes = 0;
                } else {
                    successive_dupes = successive_dupes + 1;
                    if successive_dupes >= num.max(20) {
                        proof {
                            let d = used + u;
                            assert(generation(g, order, num as nat, max_depth as nat, allow_dupes, d + Seq::empty())
                                == list_view(Some(results)));
                            assert(d + Seq::<nat>::empty() =~= d);
                            if order is ASCENDING {
                                assert(d =~= Seq::<nat>::empty());
                            }
                        }
                        return Some(results);
                    }
                }
            } else {
                results.push(result);
                n = n + 1;
            }
            assert(views(results@) =~= if results@.len() > before.len() { views(before).push(result@) } else { views(before) });
            cur = next_order(cur);
            proof {
                used = used + u;
            }
        }
        proof {
            assert(used + Seq::<nat>::empty() =~= used);
            assert(generation(g, order, num as nat, max_depth as nat, allow_dupes, used + Seq::empty())
                == list_view(Some(results)));
        }
        Some(results)
    }

    /// Generates strings with the order, count and depth bound stored in the
    /// grammar (see `generate_strings_with`).
    pub fn generate_strings(&self, allow_dupes: bool) -> (r: Option<Vec<String>>)
        ensures
            exists|d: Seq<nat>|
                #[trigger] generation(self@, self@.order, self@.num as nat, self@.max_depth as nat, allow_dupes, d)
                    == list_view(r),
            self@.order is ASCENDING ==> generation(
                self@,
                self@.order,
                self@.num as nat,
                self@.max_depth as nat,
                allow_dupes,
                Seq::empty(),
            ) == list_view(r),
            self@.start is None ==> (r matches Some(v) && v@.len() == 0),
            allow_dupes && r is Some ==> r->0@.len() == self@.num || self@.start is None,
            self@.max_depth == 0 ==> r is Some,
            self@.max_depth == 0 && r is Some ==> forall|i: int|
                0 <= i < r->0@.len() ==> (#[trigger] r->0@[i])@.len() == 0,
    {
        self.generate_strings_with(self.order, self.num, self.max_depth, allow_dupes)
    }
}

} // verus!
