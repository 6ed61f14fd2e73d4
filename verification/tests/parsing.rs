use c_flowchart::flowchart::ParseResult;
use c_flowchart::parser::{parse_c_code, ParseFailure, MAX_SOURCE_LEN};

fn chart(code: &str) -> ParseResult {
    match parse_c_code(code) {
        Ok(r) => r,
        Err(e) => panic!("{:?}", e),
    }
}

/// Each node as id, kind and label.
fn nodes(r: &ParseResult) -> Vec<(&str, &str, &str)> {
    r.nodes.iter().map(|n| (n.id.as_str(), n.kind.as_str(), n.label.as_str())).collect()
}

/// Each edge as id and label.
fn edges(r: &ParseResult) -> Vec<(&str, &str)> {
    r.edges.iter().map(|e| (e.id.as_str(), e.label.as_str())).collect()
}

#[test]
fn branches_meet_again() {
    let r = chart(
        "int main() { int x; int y = 1; if (y > 0) { y = 2; } else { y = 3; } return y; }",
    );
    assert_eq!(
        nodes(&r),
        vec![
            ("node-0", "declaration", "int y = 1;"),
            ("node-1", "decision", "y > 0"),
            ("node-2", "expression_statement", "y = 2;"),
            ("node-3", "expression_statement", "y = 3;"),
            ("node-4", "return_statement", "return y;"),
            ("end", "terminal", "End"),
        ]
    );
    assert_eq!(
        edges(&r),
        vec![
            ("e-start-node-0", ""),
            ("e-node-0-node-1", ""),
            ("e-node-1-node-2", "Yes"),
            ("e-node-1-node-3", "No"),
            ("e-node-2-node-4", ""),
            ("e-node-3-node-4", ""),
        ]
    );
}

#[test]
fn else_if_chains_nest() {
    let r = chart("void f() { if (a) x(); else if (b) y(); else z(); }");
    assert_eq!(
        nodes(&r),
        vec![
            ("node-0", "decision", "a"),
            ("node-1", "expression_statement", "x();"),
            ("node-2", "decision", "b"),
            ("node-3", "expression_statement", "y();"),
            ("node-4", "expression_statement", "z();"),
            ("end", "terminal", "End"),
        ]
    );
    assert_eq!(
        edges(&r),
        vec![
            ("e-start-node-0", ""),
            ("e-node-0-node-1", "Yes"),
            ("e-node-0-node-2", "No"),
            ("e-node-2-node-3", "Yes"),
            ("e-node-2-node-4", "No"),
            ("e-node-1-end", ""),
            ("e-node-3-end", ""),
            ("e-node-4-end", ""),
        ]
    );
}

#[test]
fn an_empty_branch_stays_open() {
    let r = chart("void f() { if (c) {} g(); }");
    assert_eq!(
        edges(&r),
        vec![
            ("e-start-node-0", ""),
            ("e-node-0-node-1", "Yes"),
            ("e-node-0-node-1", "No"),
            ("e-node-1-end", ""),
        ]
    );
}

#[test]
fn labels_are_lost_on_the_way_to_the_end() {
    let r = chart("void f() { if (c) g(); }");
    assert_eq!(
        edges(&r),
        vec![
            ("e-start-node-0", ""),
            ("e-node-0-node-1", "Yes"),
            ("e-node-1-end", ""),
            ("e-node-0-end", ""),
        ]
    );
}

#[test]
fn while_loops_jump_back_and_out() {
    let r = chart("void f() { while (a) { if (b) break; if (c) continue; g(); } }");
    assert_eq!(
        nodes(&r),
        vec![
            ("node-0", "decision", "a"),
            ("node-1", "connector", ""),
            ("node-2", "decision", "b"),
            ("node-3", "decision", "c"),
            ("node-4", "expression_statement", "g();"),
            ("end", "terminal", "End"),
        ]
    );
    assert_eq!(
        edges(&r),
        vec![
            ("e-start-node-0", ""),
            ("e-node-0-node-2", "Yes"),
            ("e-node-2-node-3", "No"),
            ("e-node-3-node-4", "No"),
            ("e-node-1-end", ""),
            ("x-node-2-node-1-0", "Yes"),
            ("x-node-3-node-0-1", "Yes"),
            ("x-node-4-node-0-2", ""),
            ("x-node-0-node-1-3", "No"),
        ]
    );
}

#[test]
fn for_loops_jump_over_their_update() {
    let r = chart("void f() { for (int i = 0; i < 3; i++) g(i); }");
    assert_eq!(
        nodes(&r),
        vec![
            ("node-0", "expression_statement", "int i = 0"),
            ("node-1", "decision", "i < 3"),
            ("node-2", "connector", ""),
            ("node-3", "expression_statement", "i++"),
            ("node-4", "expression_statement", "g(i);"),
            ("end", "terminal", "End"),
        ]
    );
    assert_eq!(
        edges(&r),
        vec![
            ("e-start-node-0", ""),
            ("e-node-0-node-1", ""),
            ("e-node-1-node-4", "Yes"),
            ("e-node-2-end", ""),
            ("x-node-4-node-3-0", ""),
            ("x-node-3-node-1-1", ""),
            ("x-node-1-node-2-2", "No"),
        ]
    );
}

#[test]
fn continue_in_a_for_jumps_to_its_decision() {
    let r = chart("void f() { for (i = 0; i < 3; i++) { if (i) continue; g(); } }");
    assert!(edges(&r).contains(&("x-node-4-node-1-0", "Yes")));
}

#[test]
fn for_loops_without_clauses_run_on() {
    let r = chart("void f() { for (;;) g(); }");
    assert_eq!(
        nodes(&r),
        vec![
            ("node-0", "decision", "true"),
            ("node-1", "connector", ""),
            ("node-2", "expression_statement", "g();"),
            ("end", "terminal", "End"),
        ]
    );
    assert_eq!(
        edges(&r),
        vec![
            ("e-start-node-0", ""),
            ("e-node-0-node-2", "Yes"),
            ("e-node-1-end", ""),
            ("x-node-2-node-0-0", ""),
            ("x-node-0-node-1-1", "No"),
        ]
    );
}

#[test]
fn do_loops_decide_after_their_body() {
    let r = chart("void f() { do { g(); } while (a); }");
    assert_eq!(
        nodes(&r),
        vec![
            ("node-0", "connector", ""),
            ("node-1", "decision", "a"),
            ("node-2", "expression_statement", "g();"),
            ("node-3", "connector", ""),
            ("end", "terminal", "End"),
        ]
    );
    assert_eq!(
        edges(&r),
        vec![
            ("e-start-node-2", ""),
            ("e-node-2-node-1", ""),
            ("e-node-3-node-2", ""),
            ("e-node-0-end", ""),
            ("x-node-1-node-3-0", "Yes"),
            ("x-node-1-node-0-1", "No"),
        ]
    );
}

#[test]
fn nested_do_loops_repeat_from_where_they_are_entered() {
    let r = chart("void f() { do { do { g(); } while (a); } while (b); }");
    assert_eq!(
        nodes(&r),
        vec![
            ("node-0", "connector", ""),
            ("node-1", "decision", "b"),
            ("node-2", "connector", ""),
            ("node-3", "decision", "a"),
            ("node-4", "expression_statement", "g();"),
            ("node-5", "connector", ""),
            ("node-6", "connector", ""),
            ("end", "terminal", "End"),
        ]
    );
    assert_eq!(
        edges(&r),
        vec![
            ("e-start-node-4", ""),
            ("e-node-4-node-3", ""),
            ("e-node-5-node-4", ""),
            ("e-node-2-node-1", ""),
            ("e-node-6-node-4", ""),
            ("e-node-0-end", ""),
            ("x-node-3-node-5-0", "Yes"),
            ("x-node-3-node-2-1", "No"),
            ("x-node-1-node-6-2", "Yes"),
            ("x-node-1-node-0-3", "No"),
        ]
    );
}

#[test]
fn an_empty_do_loop_repeats_its_decision() {
    let r = chart("void f() { do { int x; } while (a); }");
    assert_eq!(
        edges(&r),
        vec![
            ("e-start-node-1", ""),
            ("e-node-2-node-1", ""),
            ("e-node-0-end", ""),
            ("x-node-1-node-2-0", "Yes"),
            ("x-node-1-node-0-1", "No"),
        ]
    );
}

#[test]
fn a_do_loop_that_begins_with_a_jump_is_not_repeated() {
    let r = chart("void f() { do { break; g(); } while (a); }");
    assert!(!edges(&r).iter().any(|(id, _)| id.starts_with("e-node-3-")));
    assert!(edges(&r).contains(&("x-start-node-0-0", "")));
}

#[test]
fn do_loops_that_are_never_reached_repeat_too() {
    let r = chart("void f() { return; do { if (b) g(); } while (a); }");
    assert!(edges(&r).contains(&("e-node-5-node-3", "")), "{:?}", edges(&r));
}

#[test]
fn for_loops_in_do_loops_are_entered_at_their_first_clause() {
    let r = chart("void f() { do { for (i = 0; i < 3; i++) g(); } while (a); }");
    assert!(edges(&r).contains(&("e-start-node-2", "")));
    assert!(edges(&r).contains(&("e-node-7-node-2", "")), "{:?}", edges(&r));
}

#[test]
fn returns_are_left_by_no_edge() {
    let r = chart("int f() { while (a) { if (b) return 1; g(); } return 2; } void h() { k(); }");
    let returns: Vec<&str> = r
        .nodes
        .iter()
        .filter(|n| n.kind == "return_statement")
        .map(|n| n.id.as_str())
        .collect();
    assert_eq!(returns.len(), 2);
    assert!(r.edges.iter().all(|e| !returns.contains(&e.source.as_str())));
}

#[test]
fn there_is_one_terminal_and_connectors_have_no_label() {
    let r = chart("void f() { do { while (a) g(); } while (b); for (;;) h(); }");
    let last = r.nodes.len() - 1;
    for (i, n) in r.nodes.iter().enumerate() {
        assert_eq!(n.kind == "terminal", i == last);
        assert!(n.kind != "connector" || n.label.is_empty());
    }
}

#[test]
fn a_switch_without_a_value_field_is_not_drawn() {
    let code = "void f() { switch (x) { case 1: g(); break; default: h(); } }";
    assert_eq!(parse_c_code(code), Err(ParseFailure::Incomplete));
}

#[test]
fn long_texts_are_refused() {
    let mut code = "void f() { g(); }".to_string();
    while code.len() < MAX_SOURCE_LEN {
        code.push('\n');
    }
    let longest = chart(&code);
    assert_eq!(longest, chart("void f() { g(); }"));
    code.push('\n');
    assert_eq!(parse_c_code(&code), Err(ParseFailure::TooLong));
    assert_eq!(MAX_SOURCE_LEN, 2 * 1024 * 1024);
}

#[test]
fn the_start_is_left_once_and_the_end_never() {
    let codes = [
        "void f() { do { g(); } while (a); h(); }",
        "void f() { if (a) {} else {} }",
        "void f() { break; g(); }",
        "void f() { do {} while (a); }",
        "void f() { for (;;) { if (a) break; } }",
        "",
    ];
    for code in codes {
        let r = chart(code);
        assert!(r.edges.iter().filter(|e| e.source == "start").count() <= 1);
        assert!(r.edges.iter().all(|e| e.source != "end" && e.target != "start"));
    }
}

#[test]
fn comments_and_preprocessor_lines_are_skipped() {
    let r = chart("#include <stdio.h>\nvoid f() {\n  // first\n  g(); /* then */\n  ;\n}\n");
    let drawn: Vec<&str> = r.nodes.iter().map(|n| n.label.as_str()).collect();
    assert!(drawn.contains(&"g();"));
    assert!(!drawn.iter().any(|l| l.contains("first") || l.contains("include")));
}

#[test]
fn texts_may_hold_any_character() {
    let r = chart("void f() { s = \"\u{e9}\u{20ac}\u{1f600}\"; if (t == '\u{e9}') g(); }");
    assert_eq!(r.nodes[0].label, "s = \"\u{e9}\u{20ac}\u{1f600}\";");
    assert_eq!(r.nodes[1].label, "t == '\u{e9}'");
    assert_eq!(r.nodes[2].label, "g();");
}

#[test]
fn functions_follow_one_another() {
    let r = chart("void f() { g(); } int x = 1; void h() { k(); }");
    assert_eq!(
        nodes(&r),
        vec![
            ("node-0", "expression_statement", "g();"),
            ("node-1", "expression_statement", "k();"),
            ("end", "terminal", "End"),
        ]
    );
    assert_eq!(
        edges(&r),
        vec![("e-start-node-0", ""), ("e-node-0-node-1", ""), ("e-node-1-end", "")]
    );
}

#[test]
fn a_return_ends_the_path() {
    let r = chart("int f() { return 1; } void h() { k(); }");
    assert_eq!(
        edges(&r),
        vec![("e-start-node-0", ""), ("e-node-1-end", "")]
    );
}

#[test]
fn without_functions_the_start_leads_to_the_end() {
    for code in ["", "int x = 1;", "// nothing"] {
        let r = chart(code);
        assert_eq!(nodes(&r), vec![("end", "terminal", "End")]);
        assert_eq!(edges(&r), vec![("e-start-end", "")]);
    }
}

#[test]
fn braces_change_nothing() {
    let plain = chart("void f() { a(); b(); c(); }");
    let braced = chart("void f() { a(); { b(); } { { c(); } } }");
    assert_eq!(plain, braced);
}

#[test]
fn every_edge_joins_nodes_of_the_chart() {
    let code = "int main() { int n = 0; for (int i = 0; i < 9; i++) { while (n) { if (i) break; \
                do { n--; if (n > 3) continue; } while (n); } } return n; }";
    let r = chart(code);
    let ids: Vec<&str> = r.nodes.iter().map(|n| n.id.as_str()).collect();
    for e in &r.edges {
        assert!(e.source == "start" || ids.contains(&e.source.as_str()), "{:?}", e);
        assert!(ids.contains(&e.target.as_str()), "{:?}", e);
    }
    for (i, n) in r.nodes.iter().enumerate() {
        if n.id != "end" {
            assert_eq!(n.id, format!("node-{}", i));
        }
        let stops = ["return_statement", "terminal"].contains(&n.kind.as_str());
        assert!(stops || r.edges.iter().any(|e| e.source == n.id), "{:?}", n);
    }
    let jumps: Vec<&str> =
        r.edges.iter().filter(|e| e.id.starts_with("x-")).map(|e| e.id.as_str()).collect();
    for (i, id) in jumps.iter().enumerate() {
        assert!(id.ends_with(&format!("-{}", i)), "{}", id);
    }
}

#[test]
fn long_texts_with_errors_are_parsed() {
    let mut code = ")".to_string();
    while code.len() < MAX_SOURCE_LEN - 2 {
        code.push('\n');
    }
    code.push_str("))");
    assert_eq!(code.len(), MAX_SOURCE_LEN);
    assert_eq!(chart(&code), chart(""));
}

#[test]
fn long_rows_of_errors_are_parsed() {
    let code = ")".repeat(MAX_SOURCE_LEN);
    assert_eq!(chart(&code), chart(""));
}
