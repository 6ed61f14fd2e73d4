use c_flowchart::drawable::can_draw;
use c_flowchart::flowchart::{can_draw_program, draw_program, ParseResult};
use c_flowchart::graph::{ActivePath, FlowEdge, GraphBuilder, LoopContext};
use c_flowchart::parser::{draw_tree, ParseFailure};
use c_flowchart::syntax::SyntaxNode;

/// The node of kind `kind` whose text is the first `text` in `code`.
fn node(kind: &str, code: &str, text: &str) -> SyntaxNode {
    let start = code.find(text).unwrap();
    SyntaxNode {
        kind: kind.to_string(),
        start,
        end: start + text.len(),
        children: vec![],
        condition: None,
        consequence: None,
        alternative: None,
        initializer: None,
        update: None,
        body: None,
        value: None,
    }
}

fn some(n: SyntaxNode) -> Option<Box<SyntaxNode>> {
    Some(Box::new(n))
}

fn path(node_id: &str, label: &str) -> ActivePath {
    ActivePath { node_id: node_id.to_string(), label: label.to_string() }
}

fn start() -> Vec<ActivePath> {
    vec![path("start", "")]
}

/// Each node as id, kind and label.
fn nodes(b: &GraphBuilder) -> Vec<(&str, &str, &str)> {
    b.nodes.iter().map(|n| (n.id.as_str(), n.kind.as_str(), n.label.as_str())).collect()
}

/// Each edge as id and label.
fn named(edges: &[FlowEdge]) -> Vec<(&str, &str)> {
    edges.iter().map(|e| (e.id.as_str(), e.label.as_str())).collect()
}

const SWITCH: &str = "switch(x){case 1: g(); break; case 2: k(); default: h();}";

fn switch() -> SyntaxNode {
    let mut first = node("case_statement", SWITCH, "case 1: g(); break;");
    first.value = some(node("number_literal", SWITCH, "1"));
    first.children = vec![
        node("case", SWITCH, "case"),
        node("number_literal", SWITCH, "1"),
        node(":", SWITCH, ":"),
        node("expression_statement", SWITCH, "g();"),
        node("break_statement", SWITCH, "break;"),
    ];
    let mut second = node("case_statement", SWITCH, "case 2: k();");
    second.value = some(node("number_literal", SWITCH, "2"));
    second.children = vec![
        node("case", SWITCH, "case"),
        node(":", SWITCH, ":"),
        node("expression_statement", SWITCH, "k();"),
    ];
    let mut third = node("case_statement", SWITCH, "default: h();");
    third.children = vec![
        node("default", SWITCH, "default"),
        node(":", SWITCH, ":"),
        node("expression_statement", SWITCH, "h();"),
    ];
    let mut body = node("compound_statement", SWITCH, "{");
    body.children = vec![node("{", SWITCH, "{"), first, second, third, node("}", SWITCH, "}")];
    let mut all = node("switch_statement", SWITCH, SWITCH);
    all.value = some(node("identifier", SWITCH, "x"));
    all.body = some(body);
    all
}

#[test]
fn cases_run_from_the_decision_to_the_exit() {
    let mut b = GraphBuilder::new();
    assert!(can_draw(&switch(), SWITCH));
    let exits = b.process_switch(&switch(), SWITCH, start(), None);
    assert_eq!(exits, vec![path("node-1", "")]);
    assert_eq!(
        nodes(&b),
        vec![
            ("node-0", "decision", "switch (x)"),
            ("node-1", "connector", ""),
            ("node-2", "number_literal", "1"),
            ("node-3", "expression_statement", "g();"),
            ("node-4", "expression_statement", "k();"),
            ("node-5", "expression_statement", "h();"),
        ]
    );
    assert_eq!(
        named(&b.edges),
        vec![
            ("e-start-node-0", ""),
            ("e-node-0-node-2", "Case 1"),
            ("e-node-2-node-3", ""),
            ("e-node-0-node-4", "Case 2"),
            ("e-node-0-node-5", "Default"),
        ]
    );
    assert_eq!(
        named(&b.extra_edges),
        vec![
            ("x-node-3-node-1-0", ""),
            ("x-node-4-node-1-1", ""),
            ("x-node-5-node-1-2", ""),
        ]
    );
}

/// A `switch` whose one case is `default:` with the statement `jump`.
fn jumping_switch(kind: &str, code: &str, jump: &str) -> SyntaxNode {
    let mut case = node("case_statement", code, "default");
    case.children = vec![node("default", code, "default"), node(kind, code, jump)];
    let mut body = node("compound_statement", code, "{");
    body.children = vec![case];
    let mut all = node("switch_statement", code, code);
    all.value = some(node("identifier", code, "x"));
    all.body = some(body);
    all
}

#[test]
fn continue_in_a_switch_leads_to_the_loop_around_it() {
    let code = "switch(x){default: continue;}";
    let s = jumping_switch("continue_statement", code, "continue;");
    let ctx = LoopContext { header_id: "node-7".to_string(), break_sink_id: "node-8".to_string() };
    let mut b = GraphBuilder::new();
    b.id_counter = 9;
    let exits = b.process_switch(&s, code, vec![path("node-7", "Yes")], Some(&ctx));
    assert_eq!(exits, vec![path("node-10", "")]);
    assert_eq!(named(&b.edges), vec![("e-node-7-node-9", "Yes")]);
    assert_eq!(named(&b.extra_edges), vec![("x-node-9-node-7-0", "Default")]);
}

#[test]
fn continue_passes_over_nested_switches() {
    let code = "switch(x){default: continue;}";
    let inner = jumping_switch("continue_statement", code, "continue;");
    let mut outer = jumping_switch("continue_statement", code, "continue;");
    outer.body.as_mut().unwrap().children[0].children[1] = inner;
    let ctx = LoopContext { header_id: "node-7".to_string(), break_sink_id: "node-8".to_string() };
    let mut b = GraphBuilder::new();
    b.process_statement(&outer, code, start(), Some(&ctx));
    assert_eq!(b.extra_edges[0].target, "node-7");
    assert_eq!(b.extra_edges[0].source, "node-2");
}

#[test]
fn continue_in_a_switch_outside_loops_leads_to_its_decision() {
    let code = "switch(x){default: continue;}";
    let s = jumping_switch("continue_statement", code, "continue;");
    let mut b = GraphBuilder::new();
    b.process_switch(&s, code, start(), None);
    assert_eq!(named(&b.extra_edges), vec![("x-node-0-node-0-0", "Default")]);
}

#[test]
fn continue_in_nested_switches_outside_loops_leads_to_the_outermost_decision() {
    let code = "switch(x){default: continue;}";
    let inner = jumping_switch("continue_statement", code, "continue;");
    let mut outer = jumping_switch("continue_statement", code, "continue;");
    outer.body.as_mut().unwrap().children[0].children[1] = inner;
    let mut b = GraphBuilder::new();
    b.process_statement(&outer, code, start(), None);
    assert_eq!(b.extra_edges[0].source, "node-2");
    assert_eq!(b.extra_edges[0].target, "node-0");
}

#[test]
fn nodes_do_not_depend_on_paths_and_context() {
    let ctx = LoopContext { header_id: "node-7".to_string(), break_sink_id: "node-8".to_string() };
    let mut a = GraphBuilder::new();
    let mut b = GraphBuilder::new();
    a.process_statement(&switch(), SWITCH, vec![], None);
    b.process_statement(&switch(), SWITCH, start(), Some(&ctx));
    assert_eq!(a.nodes, b.nodes);
}

#[test]
fn break_in_a_switch_leads_to_its_exit() {
    let code = "switch(x){default: break;}";
    let s = jumping_switch("break_statement", code, "break;");
    let ctx = LoopContext { header_id: "node-7".to_string(), break_sink_id: "node-8".to_string() };
    let mut b = GraphBuilder::new();
    b.process_switch(&s, code, start(), Some(&ctx));
    assert_eq!(named(&b.extra_edges), vec![("x-node-0-node-1-0", "Default")]);
}

#[test]
fn a_switch_without_a_body_leaves_its_exit_open() {
    let mut s = switch();
    s.body = None;
    let mut b = GraphBuilder::new();
    assert_eq!(b.process_statement(&s, SWITCH, start(), None), vec![path("node-1", "")]);
    assert_eq!(b.nodes.len(), 2);
    assert!(b.extra_edges.is_empty());
}

#[test]
fn a_switch_needs_its_value() {
    let mut s = switch();
    s.value = None;
    assert!(!can_draw(&s, SWITCH));
}

#[test]
fn breaks_and_continues_follow_the_context() {
    let code = "break; continue;";
    let ctx = LoopContext { header_id: "node-7".to_string(), break_sink_id: "node-8".to_string() };
    let entry = || vec![path("node-1", "Yes"), path("node-2", "")];
    let mut b = GraphBuilder::new();
    let brk = node("break_statement", code, "break;");
    let cont = node("continue_statement", code, "continue;");
    assert_eq!(b.process_statement(&brk, code, entry(), Some(&ctx)), vec![]);
    assert_eq!(b.process_statement(&cont, code, entry(), Some(&ctx)), vec![]);
    assert_eq!(
        named(&b.extra_edges),
        vec![
            ("x-node-1-node-8-0", "Yes"),
            ("x-node-2-node-8-1", ""),
            ("x-node-1-node-7-2", "Yes"),
            ("x-node-2-node-7-3", ""),
        ]
    );
    assert_eq!(b.process_statement(&brk, code, entry(), None), vec![]);
    assert_eq!(b.process_statement(&cont, code, entry(), None), vec![]);
    assert_eq!(b.extra_edges.len(), 4);
    assert!(b.nodes.is_empty());
    assert!(b.edges.is_empty());
}

#[test]
fn returns_end_all_paths() {
    let code = "return 0;";
    let mut b = GraphBuilder::new();
    let ret = node("return_statement", code, code);
    let entry = vec![path("start", ""), path("node-9", "No")];
    assert_eq!(b.process_statement(&ret, code, entry, None), vec![]);
    assert_eq!(nodes(&b), vec![("node-0", "return_statement", "return 0;")]);
    assert_eq!(named(&b.edges), vec![("e-start-node-0", ""), ("e-node-9-node-0", "No")]);
}

#[test]
fn skipped_kinds_draw_nothing() {
    let code = "int x;";
    let kinds = ["{", "}", "comment", ";", "\n", "preproc_include", "preproc_def", "declaration"];
    for kind in kinds {
        let mut b = GraphBuilder::new();
        assert_eq!(b.process_statement(&node(kind, code, code), code, start(), None), start());
        assert!(b.nodes.is_empty());
        assert!(b.edges.is_empty());
        assert!(b.extra_edges.is_empty());
        assert_eq!(b.id_counter, 0);
    }
}

#[test]
fn declarations_with_an_assignment_are_drawn() {
    let code = "int x = 1;";
    let mut b = GraphBuilder::new();
    let decl = node("declaration", code, code);
    assert_eq!(b.process_statement(&decl, code, start(), None), vec![path("node-0", "")]);
    assert_eq!(nodes(&b), vec![("node-0", "declaration", "int x = 1;")]);
}

#[test]
fn drawing_only_adds() {
    let mut b = GraphBuilder::new();
    b.process_switch(&switch(), SWITCH, start(), None);
    let (n, e, x) = (b.nodes.clone(), b.edges.clone(), b.extra_edges.clone());
    b.process_switch(&switch(), SWITCH, vec![path("node-1", "")], None);
    assert_eq!(&b.nodes[..n.len()], &n[..]);
    assert_eq!(&b.edges[..e.len()], &e[..]);
    assert_eq!(&b.extra_edges[..x.len()], &x[..]);
    assert_eq!(b.id_counter, b.nodes.len());
    assert_eq!(b.nodes.len(), 12);
}

#[test]
fn ids_go_on_from_the_counter() {
    let code = "g();";
    let mut b = GraphBuilder::new();
    b.id_counter = 5;
    let call = node("expression_statement", code, code);
    assert_eq!(b.process_statement(&call, code, start(), None), vec![path("node-5", "")]);
    assert_eq!(nodes(&b), vec![("node-5", "expression_statement", "g();")]);
    assert_eq!(b.id_counter, 6);
}

#[test]
fn loops_leave_by_their_exit() {
    let code = "while(a) g();";
    let mut w = node("while_statement", code, code);
    w.condition = some(node("parenthesized_expression", code, "(a)"));
    let mut b = GraphBuilder::new();
    assert_eq!(b.process_while(&w, code, start(), None), vec![path("node-1", "")]);
    assert_eq!(nodes(&b), vec![("node-0", "decision", "a"), ("node-1", "connector", "")]);
    assert_eq!(named(&b.extra_edges), vec![("x-node-0-node-1-0", "No")]);

    let mut d = node("do_statement", code, code);
    d.condition = some(node("parenthesized_expression", code, "(a)"));
    let mut b = GraphBuilder::new();
    assert_eq!(b.process_do_while(&d, code, start(), None), vec![path("node-0", "")]);
    assert_eq!(
        nodes(&b),
        vec![("node-0", "connector", ""), ("node-1", "decision", "a"), ("node-2", "connector", "")]
    );
    assert!(b.edges.is_empty());
    assert_eq!(
        named(&b.extra_edges),
        vec![("x-node-1-node-2-0", "Yes"), ("x-node-1-node-0-1", "No")]
    );
}

#[test]
fn a_for_without_a_body_has_no_way_back() {
    let code = "for( i = 0 ;; i < 3 ; i++ )";
    let mut f = node("for_statement", code, code);
    f.initializer = some(node("declaration", code, " i = 0 ;;"));
    f.condition = some(node("expression", code, " i < 3 ;"));
    f.update = some(node("expression", code, " i++ "));
    let mut b = GraphBuilder::new();
    assert_eq!(b.process_for(&f, code, start(), None), vec![path("node-2", "")]);
    assert_eq!(
        nodes(&b),
        vec![
            ("node-0", "expression_statement", "i = 0"),
            ("node-1", "decision", "i < 3"),
            ("node-2", "connector", ""),
            ("node-3", "expression_statement", "i++"),
        ]
    );
    assert_eq!(named(&b.extra_edges), vec![("x-node-1-node-2-0", "No")]);
}

#[test]
fn a_blank_initializer_is_not_drawn() {
    let code = "for( ; ; )";
    let mut f = node("for_statement", code, code);
    f.initializer = some(node("expression", code, " ;"));
    let mut b = GraphBuilder::new();
    assert_eq!(b.process_for(&f, code, start(), None), vec![path("node-1", "")]);
    assert_eq!(nodes(&b), vec![("node-0", "decision", "true"), ("node-1", "connector", "")]);
}

#[test]
fn an_if_without_branches_leaves_its_decision_open() {
    let code = "if(a)";
    let mut s = node("if_statement", code, code);
    s.condition = some(node("parenthesized_expression", code, "(a)"));
    let mut b = GraphBuilder::new();
    assert_eq!(b.process_if(&s, code, start(), None), vec![path("node-0", "No")]);
    s.condition = None;
    assert!(!can_draw(&s, code));
}

fn function(body: Vec<SyntaxNode>, code: &str) -> SyntaxNode {
    let mut block = node("compound_statement", code, code);
    block.children = body;
    let mut f = node("function_definition", code, code);
    f.children = vec![node("primitive_type", code, code), block];
    let mut root = node("translation_unit", code, code);
    root.children = vec![node("comment", code, code), f];
    root
}

fn edge_ids(r: &ParseResult) -> Vec<&str> {
    r.edges.iter().map(|e| e.id.as_str()).collect()
}

#[test]
fn trees_are_drawn_or_refused() {
    let code = "g();";
    let good = function(vec![node("expression_statement", code, code)], code);
    assert!(can_draw_program(&good, code));
    let r = draw_program(&good, code);
    assert_eq!(edge_ids(&r), vec!["e-start-node-0", "e-node-0-end"]);
    assert_eq!(draw_tree(Some(good), code), Ok(r));

    let lacking = function(vec![node("if_statement", code, code)], code);
    assert_eq!(draw_tree(Some(lacking), code), Err(ParseFailure::Incomplete));

    let mut outside = node("expression_statement", code, code);
    outside.end = 5;
    let beyond = function(vec![outside], code);
    assert_eq!(draw_tree(Some(beyond), code), Err(ParseFailure::Incomplete));

    assert_eq!(draw_tree(None, code), Err(ParseFailure::NoTree));
}

#[test]
fn texts_within_characters_are_refused() {
    let code = "\u{e9}";
    let mut half = node("expression_statement", code, code);
    half.end = 1;
    assert!(!can_draw(&half, code));
    half.end = 2;
    assert!(can_draw(&half, code));
    half.start = 2;
    half.end = 0;
    assert!(!can_draw(&half, code));
}
