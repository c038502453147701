//! The line-oriented grammar definition format: settings lines
//! (`order = ...`, `separator = ...`, `words = ...`, `maxdepth = ...`),
//! comments, and rule lines.

use vstd::prelude::*;
use vstd::string::*;
use crate::grammar::{with_rule, ContextFreeGrammar, GrammarView};
use crate::rule::{parse_rule, CfgRule, RuleView};
use crate::symbol::{ascending_order, random_order, Order, SymbolView};
use crate::text::{
    begins_with, contains_text, holds_text, parse_u32, parse_u32_text, split, split_text,
    starts_with_text, trim, trim_text, views, without, remove_char,
};

verus! {

/// What a `CfgData` stands for.
pub struct DataView {
    pub order: Order,
    pub num: u32,
    pub max_depth: u32,
    pub separator: Seq<char>,
    pub rules: Seq<Seq<char>>,
}

/// The settings and rule lines read from a grammar definition.
pub struct CfgData {
    pub order: Order,
    pub num: u32,
    pub max_depth: u32,
    pub separator: String,
    pub rules: Vec<String>,
}

impl View for CfgData {
    type V = DataView;

    open spec fn view(&self) -> DataView {
        DataView {
            order: self.order,
            num: self.num,
            max_depth: self.max_depth,
            separator: self.separator@,
            rules: views(self.rules@),
        }
    }
}

/// The settings before any line is read: ascending order, no strings
/// requested, a depth bound of ten, `;` as separator, no rules.
pub open spec fn initial_data() -> DataView {
    DataView {
        order: Order::ASCENDING { count: 0 },
        num: 0,
        max_depth: 10,
        separator: seq![';'],
        rules: seq![],
    }
}

pub open spec fn kw_order() -> Seq<char> {
    seq!['o', 'r', 'd', 'e', 'r']
}

pub open spec fn kw_ascending() -> Seq<char> {
    seq!['a', 's', 'c', 'e', 'n', 'd', 'i', 'n', 'g']
}

pub open spec fn kw_random() -> Seq<char> {
    seq!['r', 'a', 'n', 'd', 'o', 'm']
}

pub open spec fn kw_separator() -> Seq<char> {
    seq!['s', 'e', 'p', 'a', 'r', 'a', 't', 'o', 'r']
}

pub open spec fn kw_words() -> Seq<char> {
    seq!['w', 'o', 'r', 'd', 's']
}

pub open spec fn kw_maxdepth() -> Seq<char> {
    seq!['m', 'a', 'x', 'd', 'e', 'p', 't', 'h']
}

/// Whether the UTF-8 encoding of `t` is under two bytes long: `t` is empty
/// or a single ASCII character.
pub open spec fn under_two_bytes(t: Seq<char>) -> bool {
    t.len() == 0 || (t.len() == 1 && (t[0] as u32) < 0x80)
}

/// Whether the UTF-8 encoding of `t` is under two bytes long.
fn is_under_two_bytes(t: &str) -> (r: bool)
    ensures
        r == under_two_bytes(t@),
{
    let n = t.unicode_len();
    n == 0 || (n == 1 && (t.get_char(0) as u32) < 0x80)
}

/// The pieces of a settings line between its `=` signs, trimmed.
pub open spec fn value_parts(line: Seq<char>) -> Seq<Seq<char>> {
    split(line, seq!['=']).map_values(|p: Seq<char>| trim(p))
}

/// The settings after reading line `l`. Newlines are dropped first. A line
/// whose trimmed text starts with `#` or is under two bytes long is ignored;
/// a line starting with a setting's key sets it from the text after the
/// first `=` (ignored when there is none, or when the value is not valid);
/// any other line is a rule line.
pub open spec fn line_effect(l: Seq<char>, d: DataView) -> DataView {
    let line = without(l, '\n');
    let t = trim(line);
    let parts = value_parts(line);
    if begins_with(t, seq!['#']) || under_two_bytes(t) {
        d
    } else if begins_with(line, kw_order()) {
        if parts.len() < 2 {
            d
        } else if holds_text(parts[1], kw_ascending()) {
            DataView { order: Order::ASCENDING { count: 0 }, ..d }
        } else if holds_text(parts[1], kw_random()) {
            DataView { order: Order::RANDOM, ..d }
        } else {
            d
        }
    } else if begins_with(line, kw_separator()) {
        if parts.len() < 2 {
            d
        } else {
            DataView { separator: parts[1], ..d }
        }
    } else if begins_with(line, kw_words()) {
        if parts.len() < 2 {
            d
        } else {
            match parse_u32(parts[1]) {
                Some(n) => DataView { num: n, ..d },
                None => d,
            }
        }
    } else if begins_with(line, kw_maxdepth()) {
        if parts.len() < 2 {
            d
        } else {
            match parse_u32(parts[1]) {
                Some(n) => DataView { max_depth: n, ..d },
                None => d,
            }
        }
    } else {
        DataView { rules: d.rules.push(line), ..d }
    }
}

/// The pieces of `line` between its `=` signs, trimmed.
fn split_value_parts(line: &String) -> (r: Vec<String>)
    ensures
        views(r@) == value_parts(line@),
{
    let eq = "=";
    proof {
        reveal_strlit("=");
        assert(eq@ =~= seq!['=']);
    }
    let raw = split_text(line.as_str(), eq);
    let mut parts: Vec<String> = Vec::new();
    let mut i: usize = 0;
    while i < raw.len()
        invariant
            i <= raw@.len(),
            views(raw@) == split(line@, seq!['=']),
            views(parts@) == views(raw@).take(i as int).map_values(|p: Seq<char>| trim(p)),
        decreases raw@.len() - i,
    {
        let ghost before = parts@;
        parts.push(trim_text(raw[i].as_str()));
        assert(views(parts@) =~= views(before).push(trim(raw@[i as int]@)));
        assert(views(raw@).take(i + 1) =~= views(raw@).take(i as int).push(raw@[i as int]@));
        i = i + 1;
    }
    assert(views(raw@).take(i as int) =~= views(raw@));
    parts
}

impl CfgData {
    pub fn new() -> (r: CfgData)
        ensures
            r@ == initial_data(),
    {
        let separator = String::from_str(";");
        proof {
            reveal_strlit(";");
        }
        let r = CfgData {
            order: ascending_order(),
            num: 0,
            max_depth: 10,
            separator,
            rules: Vec::new(),
        };
        assert(r@.rules =~= seq![]);
        assert(r@.separator =~= seq![';']);
        r
    }

    /// Whether a number of strings was set and at least one rule line read.
    pub fn are_complete(&self) -> (r: bool)
        ensures
            r == (self.num != 0 && self@.rules.len() != 0),
    {
        !(self.num == 0 || self.rules.len() == 0)
    }
}

impl ContextFreeGrammar {
/// Reads one line of a grammar definition into `data`.
pub fn parse_line(l: &String, data: &mut CfgData)
    ensures
        final(data)@ == line_effect(l@, old(data)@),
{
    let line = remove_char(l.as_str(), '\n');
    let t = trim_text(line.as_str());
    let hash = "#";
    let order_str = "order";
    let asc_str = "ascending";
    let rnd_str = "random";
    let sep_str = "separator";
    let num_str = "words";
    let depth_str = "maxdepth";
    proof {
        reveal_strlit("#");
        reveal_strlit("order");
        reveal_strlit("ascending");
        reveal_strlit("random");
        reveal_strlit("separator");
        reveal_strlit("words");
        reveal_strlit("maxdepth");
        assert(hash@ =~= seq!['#']);
        assert(order_str@ =~= kw_order());
        assert(asc_str@ =~= kw_ascending());
        assert(rnd_str@ =~= kw_random());
        assert(sep_str@ =~= kw_separator());
        assert(num_str@ =~= kw_words());
        assert(depth_str@ =~= kw_maxdepth());
    }
    if starts_with_text(t.as_str(), hash) {
        return;
    }
    if is_under_two_bytes(t.as_str()) {
        return;
    }
    if starts_with_text(line.as_str(), order_str) {
        let parts = split_value_parts(&line);
        if parts.len() < 2 {
            return;
        }
        assert(views(parts@)[1] == parts@[1]@);
        if contains_text(parts[1].as_str(), asc_str) {
            data.order = ascending_order();
            return;
        } else if contains_text(parts[1].as_str(), rnd_str) {
            data.order = random_order();
            return;
        } else {
            return;
        }
    }
    if starts_with_text(line.as_str(), sep_str) {
        let parts = split_value_parts(&line);
        if parts.len() < 2 {
            return;
        }
        assert(views(parts@)[1] == parts@[1]@);
        data.separator = parts[1].clone();
        return;
    }
    if starts_with_text(line.as_str(), num_str) {
        let parts = split_value_parts(&line);
        if parts.len() < 2 {
            return;
        }
        assert(views(parts@)[1] == parts@[1]@);
        match parse_u32_text(parts[1].as_str()) {
            None => return,
            Some(n) => {
                data.num = n;
                return;
            },
        }
    }
    if starts_with_text(line.as_str(), depth_str) {
        let parts = split_value_parts(&line);
        if parts.len() < 2 {
            return;
        }
        assert(views(parts@)[1] == parts@[1]@);
        match parse_u32_text(parts[1].as_str()) {
            None => return,
            Some(d) => {
                data.max_depth = d;
                return;
            },
        }
    }
    let ghost before = data.rules@;
    data.rules.push(line);
    assert(views(data.rules@) =~= views(before).push(line@));
}
}

/// The settings after reading `lines` in order.
pub open spec fn load_data(lines: Seq<Seq<char>>) -> DataView
    decreases lines.len(),
{
    if lines.len() == 0 {
        initial_data()
    } else {
        line_effect(lines.last(), load_data(lines.drop_last()))
    }
}

/// The rules that the rule lines `texts` parse to, in order, the lines that
/// do not parse left out.
pub open spec fn parsed_rules(texts: Seq<Seq<char>>, sep: Seq<char>) -> Seq<RuleView>
    decreases texts.len(),
{
    if texts.len() == 0 {
        seq![]
    } else {
        let p = parsed_rules(texts.drop_last(), sep);
        match parse_rule(texts.last(), sep, false) {
            Some(r) => p.push(r),
            None => p,
        }
    }
}

/// Grammar `g` after attempts to add `rules`, in order.
pub open spec fn add_all(g: GrammarView, rules: Seq<RuleView>) -> GrammarView
    decreases rules.len(),
{
    if rules.len() == 0 {
        g
    } else {
        with_rule(add_all(g, rules.drop_last()), rules.last())
    }
}

/// `r` made a start rule.
pub open spec fn as_start(r: RuleView) -> RuleView {
    RuleView { left: SymbolView { start: true, ..r.left }, ..r }
}

/// The grammar without rules, as `ContextFreeGrammar::new` makes it.
pub open spec fn empty_grammar() -> GrammarView {
    GrammarView {
        rules: seq![],
        non_terminals: seq![],
        start: None,
        order: Order::ASCENDING { count: 0 },
        num: 0,
        max_depth: 10,
    }
}

/// The grammar that the definition `text` gives: its lines are read in
/// order; there is none when no number of strings was set, no rule line
/// was read, or no rule line parses. Else the parsed rules are added in
/// order, the first one as start rule, and the settings are taken over.
pub open spec fn load(text: Seq<char>) -> Option<GrammarView> {
    let d = load_data(split(text, seq!['\n']));
    let rs = parsed_rules(d.rules, d.separator);
    if d.num == 0 || d.rules.len() == 0 || rs.len() == 0 {
        None
    } else {
        let g = add_all(empty_grammar(), rs.update(0, as_start(rs[0])));
        Some(GrammarView { order: d.order, num: d.num, max_depth: d.max_depth, ..g })
    }
}

impl ContextFreeGrammar {
    /// Builds a grammar from the text of a grammar definition.
    pub fn from_text(text: &str) -> (r: Option<ContextFreeGrammar>)
        ensures
            match r {
                Some(g) => load(text@) == Some(g@),
                None => load(text@) is None,
            },
    {
        let nl = "\n";
        proof {
            reveal_strlit("\n");
            assert(nl@ =~= seq!['\n']);
        }
        let lines = split_text(text, nl);
        let ghost lv = views(lines@);
        let mut data = CfgData::new();
        let mut i: usize = 0;
        while i < lines.len()
            invariant
                lv == views(lines@),
                i <= lines@.len(),
                data@ == load_data(lv.take(i as int)),
            decreases lines@.len() - i,
        {
            ContextFreeGrammar::parse_line(&lines[i], &mut data);
            assert(lv.take(i + 1).drop_last() =~= lv.take(i as int));
            i = i + 1;
        }
        assert(lv.take(i as int) =~= lv);
        if !data.are_complete() {
            return None;
        }
        let ghost d = data@;
        let mut rules: Vec<CfgRule> = Vec::new();
        let mut j: usize = 0;
        while j < data.rules.len()
            invariant
                d == data@,
                j <= data.rules@.len(),
                crate::grammar::rule_views(rules@) == parsed_rules(d.rules.take(j as int), d.separator),
            decreases data.rules@.len() - j,
        {
            let parsed = CfgRule::from_expression(data.rules[j].clone(), data.separator.clone(), false);
            assert(d.rules.take(j + 1).drop_last() =~= d.rules.take(j as int));
            assert(d.rules[j as int] == data.rules@[j as int]@);
            let ghost before = rules@;
            match parsed {
                Some(rule) => {
                    rules.push(rule);
                    assert(crate::grammar::rule_views(rules@) =~= crate::grammar::rule_views(before).push(rule@));
                },
                None => {},
            }
            j = j + 1;
        }
        assert(d.rules.take(j as int) =~= d.rules);
        if rules.len() == 0 {
            return None;
        }
        let ghost rs = parsed_rules(d.rules, d.separator);
        let ghost promoted = rs.update(0, as_start(rs[0]));
        let mut cfg = ContextFreeGrammar::new();
        let mut k: usize = 0;
        while k < rules.len()
            invariant
                rs == crate::grammar::rule_views(rules@),
                rs.len() > 0,
                promoted == rs.update(0, as_start(rs[0])),
                k <= rules@.len(),
                cfg@ == add_all(empty_grammar(), promoted.take(k as int)),
            decreases rules@.len() - k,
        {
            let mut rule = rules[k].copy();
            if k == 0 {
                rule.make_starting_rule();
            }
            assert(rule@ == promoted[k as int]);
            cfg.add_rule(rule);
            assert(promoted.take(k + 1).drop_last() =~= promoted.take(k as int));
            k = k + 1;
        }
        assert(promoted.take(k as int) =~= promoted);
        cfg.set_order(data.order);
        cfg.set_num(data.num);
        cfg.set_max_depth(data.max_depth);
        Some(cfg)
    }
}

} // verus!
