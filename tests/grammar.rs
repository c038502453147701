use grammar_gen::text::{parse_u32_text, split_text, trim_text};
use grammar_gen::{
    ascending_order, init_idx, new_order, random_order, CfgData, CfgRule, ContextFreeGrammar,
    Order, Symbol, SymbolChain,
};

fn rule(expr: &str, sep: &str) -> CfgRule {
    CfgRule::from_expression(expr.to_string(), sep.to_string(), false).unwrap()
}

fn start_rule(expr: &str, sep: &str) -> CfgRule {
    CfgRule::from_expression(expr.to_string(), sep.to_string(), true).unwrap()
}

fn labels(chain: &SymbolChain) -> Vec<(bool, String)> {
    chain.symbols.iter().map(|s| (s.terminal, s.label.clone())).collect()
}

fn grammar(lines: &[(&str, bool)]) -> ContextFreeGrammar {
    let mut g = ContextFreeGrammar::new();
    for (expr, start) in lines {
        let r = if *start { start_rule(expr, ",") } else { rule(expr, ",") };
        assert!(g.add_rule(r));
    }
    g
}

#[test]
fn parse_two_non_terminals() {
    let r = rule("S->!A,!B", ",");
    assert_eq!(r.num_of_outcomes(), 1);
    assert_eq!(
        labels(&r.get_outcome(0)),
        vec![(false, "A".to_string()), (false, "B".to_string())]
    );
    let left = r.get_left();
    assert_eq!(left.label, "S");
    assert!(!left.terminal);
    assert!(!left.start);
}

#[test]
fn parse_two_alternatives() {
    let r = rule("A->a|b", ",");
    assert_eq!(r.num_of_outcomes(), 2);
    assert_eq!(labels(&r.get_outcome(0)), vec![(true, "a".to_string())]);
    assert_eq!(labels(&r.get_outcome(1)), vec![(true, "b".to_string())]);
}

#[test]
fn parse_keeps_spaces_and_order() {
    let r = rule("the-> dog| cat| !adjective, person", ",");
    assert_eq!(r.get_left().label, "the");
    assert_eq!(r.num_of_outcomes(), 3);
    assert_eq!(labels(&r.get_outcome(0)), vec![(true, " dog".to_string())]);
    assert_eq!(
        labels(&r.get_outcome(2)),
        vec![(true, " !adjective".to_string()), (true, " person".to_string())]
    );
}

#[test]
fn parse_strips_every_bang() {
    let r = rule("A->!B!C,x", ",");
    assert_eq!(
        labels(&r.get_outcome(0)),
        vec![(false, "BC".to_string()), (true, "x".to_string())]
    );
}

#[test]
fn parse_right_side_ends_at_second_arrow() {
    let r = rule("A->a->b", ",");
    assert_eq!(r.num_of_outcomes(), 1);
    assert_eq!(labels(&r.get_outcome(0)), vec![(true, "a".to_string())]);
}

#[test]
fn parse_start_flag() {
    let r = start_rule("S->a", ",");
    assert!(r.get_left().start);
    let mut r2 = rule("S->a", ",");
    assert!(!r2.get_left().start);
    r2.make_starting_rule();
    assert!(r2.get_left().start);
    r2.make_starting_rule();
    assert!(r2.get_left().start);
}

#[test]
fn parse_reserved_separators_fail() {
    for expr in ["S->a|b", "S->a", "A->a->b", "", "x"] {
        for sep in ["|", "->"] {
            assert!(CfgRule::from_expression(expr.to_string(), sep.to_string(), false).is_none());
            assert!(CfgRule::from_expression(expr.to_string(), sep.to_string(), true).is_none());
        }
    }
}

#[test]
fn parse_rejects_malformed() {
    let bad = [("S", ","), ("S-a", ","), ("S->", ","), ("S->a|", ","), ("S->|a", ","), ("S->a,,b", ","), ("S->a,", ","), ("S->a", "")];
    for (expr, sep) in bad {
        assert!(CfgRule::from_expression(expr.to_string(), sep.to_string(), false).is_none(), "{}", expr);
    }
}

#[test]
fn rule_needs_an_outcome() {
    let left = Symbol { terminal: false, start: false, label: "S".to_string() };
    assert!(CfgRule::new(left.clone(), Vec::new()).is_none());
    let chain = SymbolChain::new(vec![Symbol { terminal: true, start: false, label: "x".to_string() }]);
    let r = CfgRule::new(left, vec![chain]).unwrap();
    assert_eq!(r.num_of_outcomes(), 1);
}

#[test]
fn outcome_index_wraps() {
    let r = rule("A->a|b|c", ",");
    let n = r.num_of_outcomes();
    for i in 0..7usize {
        for k in 0..4usize {
            assert_eq!(labels(&r.get_outcome(i)), labels(&r.get_outcome(i + k * n)));
        }
    }
    assert_eq!(labels(&r.get_outcome(4)), vec![(true, "b".to_string())]);
}

#[test]
fn duplicate_label_refused() {
    let mut g = grammar(&[("S->!A", true), ("A->a", false)]);
    assert!(!g.add_rule(rule("A->b", ",")));
    assert!(!g.add_rule(start_rule("S->b", ",")));
    let out = g.generate_strings_with(ascending_order(), 3, 5, true).unwrap();
    assert_eq!(out, vec!["a", "a", "a"]);
}

#[test]
fn second_start_refused() {
    let mut g = grammar(&[("S->!A", true), ("A->a", false)]);
    assert!(!g.add_rule(start_rule("T->t", ",")));
    let out = g.generate_strings_with(ascending_order(), 2, 5, false).unwrap();
    assert_eq!(out, vec!["a"]);
    assert!(g.add_rule(rule("T->t", ",")));
}

#[test]
fn depth_zero_gives_empty_strings() {
    let g = grammar(&[("S->!A", true), ("A->a|b", false)]);
    let out = g.generate_strings_with(ascending_order(), 3, 0, true).unwrap();
    assert_eq!(out, vec!["", "", ""]);
    let out = g.generate_strings_with(random_order(), 4, 0, true).unwrap();
    assert_eq!(out, vec!["", "", "", ""]);
    let out = g.generate_strings_with(ascending_order(), 3, 0, false).unwrap();
    assert_eq!(out, vec![""]);
}

#[test]
fn random_with_duplicates_gives_all() {
    let g = grammar(&[("S->!A,!A", true), ("A->a|b|!A", false)]);
    for n in [0u32, 1, 7, 50] {
        let out = g.generate_strings_with(random_order(), n, 6, true).unwrap();
        assert_eq!(out.len(), n as usize);
        for s in &out {
            assert!(s.chars().all(|c| c == 'a' || c == 'b'));
        }
    }
}

#[test]
fn ascending_two_strings() {
    let g = grammar(&[("S->!A", true), ("A->a|b", false)]);
    let out = g.generate_strings_with(ascending_order(), 2, 10, false).unwrap();
    assert_eq!(out, vec!["a", "b"]);
    let out = g.generate_strings_with(ascending_order(), 3, 10, false).unwrap();
    assert_eq!(out, vec!["a", "b"]);
}

#[test]
fn german_sentences_ascending() {
    let g = grammar(&[
        ("S->!article,!subject,!verb", true),
        ("article->Der", false),
        ("subject->Hund|Fisch", false),
        ("verb->schwimmt|sonnt", false),
    ]);
    // Every symbol of a chain gets the same counter, so subject and verb
    // always take the same index: two of the four sentences come out.
    let out = g.generate_strings_with(ascending_order(), 4, 3, false).unwrap();
    assert_eq!(out, vec!["DerHundschwimmt", "DerFischsonnt"]);
}

#[test]
fn ascending_counter_is_mixed_radix() {
    let g = grammar(&[("S->!A|!B", true), ("A->x,!C", false), ("B->y,!C", false), ("C->0|1|2", false)]);
    let out = g.generate_strings_with(ascending_order(), 6, 5, false).unwrap();
    assert_eq!(out, vec!["x0", "y0", "x1", "y1", "x2", "y2"]);
    let out = g
        .generate_strings_with(Order::ASCENDING { count: 3 }, 2, 5, true)
        .unwrap();
    assert_eq!(out, vec!["y1", "x2"]);
}

#[test]
fn depth_bound_truncates_recursion() {
    let g = grammar(&[("S->a,!S", true)]);
    let out = g.generate_strings_with(ascending_order(), 1, 3, true).unwrap();
    assert_eq!(out, vec!["aaa"]);
}

#[test]
fn missing_rule_aborts() {
    let g = grammar(&[("S->a,!X", true)]);
    assert!(g.generate_strings_with(ascending_order(), 2, 5, false).is_none());
    assert!(g.generate_strings_with(random_order(), 2, 5, true).is_none());
    assert_eq!(g.generate_strings_with(ascending_order(), 2, 1, true).unwrap(), vec!["a", "a"]);
}

#[test]
fn no_start_gives_nothing() {
    let g = grammar(&[("S->a", false)]);
    assert_eq!(g.generate_strings_with(ascending_order(), 3, 5, true).unwrap(), Vec::<String>::new());
    assert_eq!(g.generate_strings(false).unwrap(), Vec::<String>::new());
}

#[test]
fn duplicate_limit_is_twenty_or_count() {
    let g = grammar(&[("S->a", true)]);
    let out = g.generate_strings_with(ascending_order(), 100, 5, false).unwrap();
    assert_eq!(out, vec!["a"]);
}

#[test]
fn stored_settings_are_used() {
    let mut g = grammar(&[("S->!A", true), ("A->a|b", false)]);
    g.set_num(2);
    g.set_max_depth(4);
    g.set_order(ascending_order());
    assert_eq!(g.generate_strings(false).unwrap(), vec!["a", "b"]);
    g.set_max_depth(0);
    assert_eq!(g.generate_strings(true).unwrap(), vec!["", ""]);
    g.set_order(random_order());
    g.set_max_depth(3);
    g.set_num(5);
    assert_eq!(g.generate_strings(true).unwrap().len(), 5);
}

#[test]
fn random_index_in_range() {
    let mut seen = [false; 3];
    for _ in 0..300 {
        let i = init_idx(Order::RANDOM, 3);
        assert!(i < 3);
        seen[i] = true;
    }
    assert!(seen.iter().all(|b| *b));
    assert_eq!(init_idx(Order::ASCENDING { count: 7 }, 3), 1);
}

#[test]
fn order_descends_by_division() {
    assert_eq!(new_order(Order::ASCENDING { count: 7 }, 3), Order::ASCENDING { count: 2 });
    assert_eq!(new_order(Order::RANDOM, 3), Order::RANDOM);
    assert_eq!(ascending_order(), Order::ASCENDING { count: 0 });
    assert_eq!(random_order(), Order::RANDOM);
}

#[test]
fn settings_lines() {
    let mut d = CfgData::new();
    assert_eq!(d.separator, ";");
    assert_eq!(d.max_depth, 10);
    assert!(!d.are_complete());
    for l in ["# comment", "  #x", "a", "", " \t", "order = random\n", "separator = , ", "words = +12", "maxdepth=7"] {
        ContextFreeGrammar::parse_line(&l.to_string(), &mut d);
    }
    assert_eq!(d.order, Order::RANDOM);
    assert_eq!(d.separator, ",");
    assert_eq!(d.num, 12);
    assert_eq!(d.max_depth, 7);
    assert!(d.rules.is_empty());
    for l in ["words = x", "maxdepth = 99999999999", "order = sideways", "order", "words"] {
        ContextFreeGrammar::parse_line(&l.to_string(), &mut d);
    }
    assert_eq!(d.order, Order::RANDOM);
    assert_eq!(d.num, 12);
    assert_eq!(d.max_depth, 7);
    ContextFreeGrammar::parse_line(&"order= ascending".to_string(), &mut d);
    assert_eq!(d.order, Order::ASCENDING { count: 0 });
    ContextFreeGrammar::parse_line(&"S->a\n".to_string(), &mut d);
    ContextFreeGrammar::parse_line(&"ä".to_string(), &mut d);
    assert_eq!(d.rules, vec!["S->a", "ä"]);
    assert!(d.are_complete());
}

#[test]
fn load_from_text() {
    let text = "# animals\norder = ascending\nseparator = ,\nwords = 2\nmaxdepth = 4\nS->!A\nA->a|b\nbroken\n";
    let g = ContextFreeGrammar::from_text(text).unwrap();
    assert_eq!(g.generate_strings(false).unwrap(), vec!["a", "b"]);
}

#[test]
fn load_needs_words_and_rules() {
    assert!(ContextFreeGrammar::from_text("S->a\n").is_none());
    assert!(ContextFreeGrammar::from_text("words = 3\n# none\n").is_none());
    assert!(ContextFreeGrammar::from_text("words = 3\nnot a rule\n").is_none());
    assert!(ContextFreeGrammar::from_text("words = 0\nS->a\n").is_none());
    let g = ContextFreeGrammar::from_text("words = 3\nS->x;!T\nT->y\n").unwrap();
    assert_eq!(g.generate_strings(true).unwrap(), vec!["xy", "xy", "xy"]);
}

#[test]
fn text_helpers() {
    assert_eq!(split_text("a->b->", "->"), vec!["a", "b", ""]);
    assert_eq!(split_text("aaa", "aa"), vec!["", "a"]);
    assert_eq!(split_text("", ","), vec![""]);
    assert_eq!(trim_text("\u{3000} x y\t\n"), "x y");
    assert_eq!(trim_text("   "), "");
    assert_eq!(parse_u32_text("4294967295"), Some(u32::MAX));
    assert_eq!(parse_u32_text("4294967296"), None);
    assert_eq!(parse_u32_text("+0012"), Some(12));
    assert_eq!(parse_u32_text("+"), None);
    assert_eq!(parse_u32_text(""), None);
    assert_eq!(parse_u32_text("-1"), None);
    assert_eq!(parse_u32_text("1 "), None);
}
