use call_graph::ast::{Comprehension, Expr, Module, Stmt, WithItem};
use call_graph::extract::{build_graph, build_graph_from_stmt, generate_graph};
use call_graph::graph::CallGraph;
use call_graph::walk::get_call_idents;

fn name(id: &str) -> Expr {
    Expr::Name { id: id.to_string() }
}

fn call(func: Expr, args: Vec<Expr>) -> Expr {
    Expr::Call { func: Box::new(func), args, keywords: vec![] }
}

fn call_name(id: &str) -> Expr {
    call(name(id), vec![])
}

fn attr(value: Expr, attr: &str) -> Expr {
    Expr::Attribute { value: Box::new(value), attr: attr.to_string() }
}

fn expr_stmt(value: Expr) -> Stmt {
    Stmt::Expr { value }
}

fn def(name: &str, body: Vec<Stmt>) -> Stmt {
    Stmt::FunctionDef { name: name.to_string(), body }
}

fn idents(e: &Expr) -> Vec<String> {
    let mut out = Vec::new();
    get_call_idents(e, &mut out);
    out
}

fn strings(v: &[&str]) -> Vec<String> {
    v.iter().map(|s| s.to_string()).collect()
}

fn entries(g: &CallGraph) -> Vec<(String, Vec<String>)> {
    g.entries()
}

fn expect(v: &[(&str, &[&str])]) -> Vec<(String, Vec<String>)> {
    v.iter().map(|(k, c)| (k.to_string(), strings(c))).collect()
}

#[test]
fn definition_calling_a_later_definition() {
    let m = Module { body: vec![def("a", vec![expr_stmt(call_name("b"))]), def("b", vec![Stmt::Pass])] };
    let g = generate_graph(&m);
    assert_eq!(entries(&g), expect(&[("a", &["b"]), ("b", &[])]));
}

#[test]
fn attribute_call_records_the_attribute_only() {
    let m = Module { body: vec![def("a", vec![expr_stmt(call(attr(name("x"), "foo"), vec![]))])] };
    let g = generate_graph(&m);
    assert_eq!(entries(&g), expect(&[("a", &["foo"]), ("foo", &[])]));
    assert_eq!(g.calls_of(&"a".to_string()), Some(strings(&["foo"])));
    assert_eq!(g.calls_of(&"x".to_string()), None);
}

#[test]
fn receiver_of_an_attribute_call_is_not_visited() {
    let e = call(attr(call_name("b"), "c"), vec![]);
    assert_eq!(idents(&e), strings(&["c"]));
    let m = Module { body: vec![def("a", vec![expr_stmt(e)])] };
    let g = generate_graph(&m);
    assert_eq!(g.calls_of(&"a".to_string()), Some(strings(&["c"])));
    assert_eq!(g.calls_of(&"b".to_string()), None);
}

#[test]
fn self_call_is_a_self_loop() {
    let m = Module { body: vec![def("a", vec![expr_stmt(call_name("a"))])] };
    let g = generate_graph(&m);
    assert_eq!(entries(&g), expect(&[("a", &["a"])]));
    assert_eq!(g.strongly_connected_components(), vec![vec![0usize]]);
    assert_eq!(g.inline_candidates(), Vec::<usize>::new());
}

#[test]
fn two_calls_from_one_caller_are_two_incoming_edges() {
    let m = Module {
        body: vec![def("a", vec![expr_stmt(call_name("c")), expr_stmt(call_name("c"))])],
    };
    let g = generate_graph(&m);
    assert_eq!(entries(&g), expect(&[("a", &["c", "c"]), ("c", &[])]));
    assert_eq!(g.incoming_counts(), vec![0u8, 2u8]);
    assert_eq!(g.inline_candidates(), Vec::<usize>::new());
}

#[test]
fn module_level_code_belongs_to_the_synthetic_scope() {
    let m = Module {
        body: vec![
            expr_stmt(call_name("setup")),
            def("f", vec![]),
            Stmt::Assign { targets: vec![name("x")], value: call_name("f") },
        ],
    };
    let g = generate_graph(&m);
    assert_eq!(entries(&g), expect(&[("...", &["setup", "f"]), ("setup", &[]), ("f", &[])]));
}

#[test]
fn module_without_calls_has_no_synthetic_scope() {
    let m = Module { body: vec![Stmt::Pass, Stmt::Import, def("f", vec![Stmt::Pass])] };
    let g = generate_graph(&m);
    assert_eq!(entries(&g), expect(&[("f", &[])]));
}

#[test]
fn async_definition_is_a_scope() {
    let m = Module {
        body: vec![Stmt::AsyncFunctionDef {
            name: "run".to_string(),
            body: vec![expr_stmt(Expr::Await { value: Box::new(call_name("fetch")) })],
        }],
    };
    let g = generate_graph(&m);
    assert_eq!(entries(&g), expect(&[("run", &["fetch"]), ("fetch", &[])]));
}

#[test]
fn a_second_definition_starts_from_an_empty_sequence() {
    let m = Module {
        body: vec![
            def("a", vec![expr_stmt(call_name("b"))]),
            def("a", vec![expr_stmt(call_name("c"))]),
        ],
    };
    let g = generate_graph(&m);
    assert_eq!(entries(&g), expect(&[("a", &["c"]), ("b", &[]), ("c", &[])]));
}

#[test]
fn nested_definition_is_not_a_scope() {
    let inner = def("inner", vec![expr_stmt(call_name("hidden"))]);
    let m = Module { body: vec![def("outer", vec![inner, expr_stmt(call_name("seen"))])] };
    let g = generate_graph(&m);
    assert_eq!(entries(&g), expect(&[("outer", &["seen"]), ("seen", &[])]));
}

#[test]
fn unvisited_statement_kinds_record_nothing() {
    let body = vec![
        Stmt::If {
            test: call_name("t"),
            body: vec![expr_stmt(call_name("u"))],
            orelse: vec![expr_stmt(call_name("v"))],
        },
        Stmt::ClassDef { name: "C".to_string(), body: vec![expr_stmt(call_name("w"))] },
        Stmt::Raise { exc: Some(call_name("E")) },
        Stmt::Match,
        Stmt::Global,
        Stmt::Break,
    ];
    let g = generate_graph(&Module { body: vec![def("f", body)] });
    assert_eq!(entries(&g), expect(&[("f", &[])]));
}

#[test]
fn visited_statement_kinds_in_order() {
    let scope = "f".to_string();
    let mut g = CallGraph::new();
    let stmts = vec![
        Stmt::Return { value: Some(call_name("r")) },
        Stmt::Return { value: None },
        Stmt::Assert { test: call_name("t"), msg: Some(call_name("m")) },
        Stmt::Try {
            body: vec![expr_stmt(call_name("b"))],
            orelse: vec![expr_stmt(call_name("o"))],
            finalbody: vec![expr_stmt(call_name("fin"))],
        },
        Stmt::With {
            items: vec![WithItem { context_expr: call_name("cm"), optional_vars: Some(call_name("tv")) }],
            body: vec![expr_stmt(call_name("wb"))],
        },
        Stmt::For { target: call_name("ft"), iter: call_name("fi"), body: vec![expr_stmt(call_name("fb"))] },
        Stmt::Assign { targets: vec![call_name("a1"), call_name("a2")], value: call_name("av") },
        Stmt::AnnAssign { target: call_name("nt"), value: Some(call_name("nv")) },
        Stmt::Delete { targets: vec![call_name("d1"), call_name("d2")] },
        Stmt::While { test: call_name("wt"), body: vec![expr_stmt(call_name("wl"))] },
        Stmt::AugAssign { target: call_name("gt"), value: call_name("gv") },
    ];
    for s in &stmts {
        build_graph_from_stmt(s, &scope, &mut g);
    }
    assert_eq!(
        g.calls_of(&scope),
        Some(strings(&[
            "r", "t", "m", "b", "o", "fin", "cm", "tv", "wb", "ft", "fi", "fb", "a1", "a2", "av", "nt",
            "nv", "d1", "d2", "wt", "wl", "gt", "gv"
        ]))
    );
}

#[test]
fn call_arguments_are_visited_and_keywords_are_not() {
    let e = Expr::Call {
        func: Box::new(name("f")),
        args: vec![call_name("g"), name("x"), call_name("h")],
        keywords: vec![call_name("k")],
    };
    assert_eq!(idents(&e), strings(&["f", "g", "h"]));
}

#[test]
fn call_with_another_callee_form_records_no_name() {
    let callee = Expr::Subscript { value: Box::new(name("table")), slice: Box::new(call_name("key")) };
    let e = call(callee, vec![call_name("arg")]);
    assert_eq!(idents(&e), strings(&["arg"]));
}

#[test]
fn comprehension_visits_the_element_only() {
    let gens = || vec![Comprehension { target: name("x"), iter: call_name("source"), ifs: vec![call_name("keep")] }];
    let list = Expr::ListComp { elt: Box::new(call_name("f")), generators: gens() };
    let set = Expr::SetComp { elt: Box::new(call_name("g")), generators: gens() };
    let gen = Expr::GeneratorExp { elt: Box::new(call_name("h")), generators: gens() };
    let dict = Expr::DictComp { key: Box::new(call_name("k")), value: Box::new(call_name("v")), generators: gens() };
    assert_eq!(idents(&list), strings(&["f"]));
    assert_eq!(idents(&set), strings(&["g"]));
    assert_eq!(idents(&gen), strings(&["h"]));
    assert_eq!(idents(&dict), strings(&["k", "v"]));
}

#[test]
fn mapping_literal_visits_values_then_present_keys() {
    let e = Expr::Dict {
        keys: vec![Some(call_name("k1")), None, Some(call_name("k3"))],
        values: vec![call_name("v1"), call_name("v2"), call_name("v3")],
    };
    assert_eq!(idents(&e), strings(&["v1", "v2", "v3", "k1", "k3"]));
}

#[test]
fn slice_visits_upper_then_lower_then_step() {
    let e = Expr::Slice {
        lower: Some(Box::new(call_name("lo"))),
        upper: Some(Box::new(call_name("up"))),
        step: Some(Box::new(call_name("st"))),
    };
    assert_eq!(idents(&e), strings(&["up", "lo", "st"]));
    let partial = Expr::Slice { lower: None, upper: None, step: Some(Box::new(call_name("st"))) };
    assert_eq!(idents(&partial), strings(&["st"]));
}

#[test]
fn expression_shapes_are_walked() {
    let b = |e: Expr| Box::new(e);
    let cases: Vec<(Expr, Vec<&str>)> = vec![
        (Expr::BoolOp { values: vec![call_name("a"), call_name("b")] }, vec!["a", "b"]),
        (Expr::List { elts: vec![call_name("a"), call_name("b")] }, vec!["a", "b"]),
        (Expr::SetDisplay { elts: vec![call_name("a")] }, vec!["a"]),
        (Expr::Tuple { elts: vec![call_name("a"), call_name("a")] }, vec!["a", "a"]),
        (Expr::JoinedStr { values: vec![Expr::Constant, call_name("a")] }, vec!["a"]),
        (Expr::NamedExpr { target: b(call_name("t")), value: b(call_name("v")) }, vec!["t", "v"]),
        (Expr::BinOp { left: b(call_name("l")), right: b(call_name("r")) }, vec!["l", "r"]),
        (Expr::Subscript { value: b(call_name("v")), slice: b(call_name("s")) }, vec!["v", "s"]),
        (Expr::UnaryOp { operand: b(call_name("o")) }, vec!["o"]),
        (Expr::Lambda { body: b(call_name("o")) }, vec!["o"]),
        (Expr::Yield { value: Some(b(call_name("y"))) }, vec!["y"]),
        (Expr::Yield { value: None }, vec![]),
        (Expr::YieldFrom { value: b(call_name("y")) }, vec!["y"]),
        (Expr::Starred { value: b(call_name("s")) }, vec!["s"]),
        (attr(call_name("recv"), "field"), vec!["recv"]),
        (
            Expr::IfExp { test: b(call_name("t")), body: b(call_name("x")), orelse: b(call_name("y")) },
            vec!["t", "x", "y"],
        ),
        (
            Expr::Compare { left: b(call_name("l")), comparators: vec![call_name("c1"), call_name("c2")] },
            vec!["l", "c1", "c2"],
        ),
        (
            Expr::FormattedValue { value: b(call_name("v")), format_spec: Some(b(call_name("f"))) },
            vec!["v", "f"],
        ),
        (Expr::FormattedValue { value: b(call_name("v")), format_spec: None }, vec!["v"]),
        (Expr::Constant, vec![]),
        (name("plain"), vec![]),
    ];
    for (e, want) in &cases {
        assert_eq!(idents(e), strings(want));
    }
}

#[test]
fn walker_appends_to_what_is_there() {
    let mut out = strings(&["kept"]);
    get_call_idents(&call_name("f"), &mut out);
    assert_eq!(out, strings(&["kept", "f"]));
}

#[test]
fn build_graph_adds_edges_and_leaf_nodes() {
    let mut g = CallGraph::new();
    let scope = "s".to_string();
    build_graph(&call(name("f"), vec![call_name("g"), call_name("s")]), &scope, &mut g);
    assert_eq!(entries(&g), expect(&[("s", &["f", "g", "s"]), ("f", &[]), ("g", &[])]));
    assert_eq!(g.len(), 3);
}

#[test]
fn every_called_name_is_a_node() {
    let m = Module {
        body: vec![
            def("a", vec![expr_stmt(call(name("b"), vec![call(attr(name("o"), "m"), vec![])]))]),
            expr_stmt(call_name("a")),
            def("b", vec![Stmt::Return { value: Some(call_name("z")) }]),
        ],
    };
    let g = generate_graph(&m);
    for row in &g.succ {
        for &j in row {
            assert!(j < g.nodes.len());
        }
    }
    for (_, calls) in entries(&g) {
        for c in calls {
            assert!(g.find(&c).is_some());
            assert!(g.calls_of(&c).is_some());
        }
    }
}

#[test]
fn building_twice_gives_the_same_graph() {
    let make = || Module {
        body: vec![
            expr_stmt(call_name("main")),
            def("main", vec![expr_stmt(call_name("x")), expr_stmt(call_name("y")), expr_stmt(call_name("x"))]),
            def("x", vec![expr_stmt(call_name("main"))]),
        ],
    };
    let g1 = generate_graph(&make());
    let g2 = generate_graph(&make());
    assert_eq!(entries(&g1), entries(&g2));
    assert_eq!(
        entries(&g1),
        expect(&[("...", &["main"]), ("main", &["x", "y", "x"]), ("x", &["main"]), ("y", &[])])
    );
}
