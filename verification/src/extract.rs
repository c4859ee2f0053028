//! Building the call graph of a module: scope discovery, the statement walk,
//! and the recording of each call as an edge.

use vstd::prelude::*;
use crate::ast::{Expr, Module, Stmt, WithItem};
use crate::graph::{
    is_closed, lemma_with_edges_closed, lemma_with_edges_concat, lemma_with_edges_out, out_of,
    with_edges, CallGraph,
};
use crate::walk::{
    expr_calls, exprs_calls, get_call_idents, item_calls, items_calls, names_of, opt_expr_calls,
    stmt_calls, stmts_calls, Name,
};

verus! {

/// The name of the scope that holds the module-level code outside any
/// definition.
pub open spec fn module_scope() -> Name {
    "..."@
}

/// The mapping after one top-level statement is processed. A function-like
/// definition becomes a scope with a fresh, empty outgoing sequence, to which
/// the calls of its body are added; any other statement adds its calls to the
/// module scope.
pub open spec fn after_top_level(m: Map<Name, Seq<Name>>, s: Stmt) -> Map<Name, Seq<Name>> {
    match s {
        Stmt::FunctionDef { name, body } => with_edges(
            m.insert(name@, Seq::empty()),
            name@,
            stmts_calls(body@),
        ),
        Stmt::AsyncFunctionDef { name, body } => with_edges(
            m.insert(name@, Seq::empty()),
            name@,
            stmts_calls(body@),
        ),
        _ => with_edges(m, module_scope(), stmt_calls(s)),
    }
}

/// The call graph of a sequence of top-level statements.
pub open spec fn graph_of(body: Seq<Stmt>) -> Map<Name, Seq<Name>>
    decreases body.len(),
{
    if body.len() == 0 {
        Map::empty()
    } else {
        after_top_level(graph_of(body.drop_last()), body.last())
    }
}

/// Whether a statement is a function-like definition.
pub open spec fn is_definition(s: Stmt) -> bool {
    s is FunctionDef || s is AsyncFunctionDef
}

/// The closure law of built graphs: every name in an outgoing sequence of the
/// call graph of a module is a key of that graph.
pub proof fn lemma_graph_of_closed(body: Seq<Stmt>)
    ensures
        is_closed(graph_of(body)),
    decreases body.len(),
{
    if body.len() > 0 {
        lemma_graph_of_closed(body.drop_last());
        let m = graph_of(body.drop_last());
        match body.last() {
            Stmt::FunctionDef { name, body: inner } => {
                assert(is_closed(m.insert(name@, Seq::empty())));
                lemma_with_edges_closed(m.insert(name@, Seq::empty()), name@, stmts_calls(inner@));
            },
            Stmt::AsyncFunctionDef { name, body: inner } => {
                assert(is_closed(m.insert(name@, Seq::empty())));
                lemma_with_edges_closed(m.insert(name@, Seq::empty()), name@, stmts_calls(inner@));
            },
            _ => {
                lemma_with_edges_closed(m, module_scope(), stmt_calls(body.last()));
            },
        }
    }
}

/// The law of the module scope: a top-level statement that is no definition
/// appends the calls it contributes to the outgoing sequence of the module
/// scope, and changes the outgoing sequence of no other name.
pub proof fn lemma_module_scope(m: Map<Name, Seq<Name>>, s: Stmt, k: Name)
    requires
        !is_definition(s),
    ensures
        out_of(after_top_level(m, s), module_scope()) == out_of(m, module_scope()) + stmt_calls(s),
        k != module_scope() ==> out_of(after_top_level(m, s), k) == out_of(m, k),
{
    lemma_with_edges_out(m, module_scope(), stmt_calls(s), module_scope());
    lemma_with_edges_out(m, module_scope(), stmt_calls(s), k);
}

/// The law of a definition: after a top-level definition of `name` is
/// processed, `name` is a key, and its outgoing sequence is exactly what the
/// body of that definition contributes.
pub proof fn lemma_definition_scope(m: Map<Name, Seq<Name>>, name: String, body: Vec<Stmt>)
    ensures
        after_top_level(m, Stmt::FunctionDef { name, body }).dom().contains(name@),
        after_top_level(m, Stmt::FunctionDef { name, body })[name@] == stmts_calls(body@),
        after_top_level(m, Stmt::AsyncFunctionDef { name, body }) == after_top_level(
            m,
            Stmt::FunctionDef { name, body },
        ),
{
    let m0 = m.insert(name@, Seq::empty());
    lemma_with_edges_out(m0, name@, stmts_calls(body@), name@);
    assert(Seq::<Name>::empty() + stmts_calls(body@) =~= stmts_calls(body@));
}

/// The law of determinism: two graphs built from modules with the same
/// statements have the same keys and, for each key, the same outgoing
/// sequence, order and duplicates included.
pub proof fn lemma_deterministic(m1: Module, m2: Module, g1: CallGraph, g2: CallGraph)
    requires
        m1.body@ == m2.body@,
        g1@ == graph_of(m1.body@),
        g2@ == graph_of(m2.body@),
    ensures
        g1@.dom() == g2@.dom(),
        forall|k: Name| g1@.dom().contains(k) ==> g1@[k] == g2@[k],
{
}

/// Records a call from `func_name` to each of `names`, in order.
pub fn add_calls(names: &Vec<String>, func_name: &String, graph: &mut CallGraph)
    requires
        old(graph).wf(),
    ensures
        final(graph).wf(),
        final(graph)@ == with_edges(old(graph)@, func_name@, names_of(names@)),
{
    let ghost start = graph@;
    let mut i: usize = 0;
    while i < names.len()
        invariant
            graph.wf(),
            i <= names.len(),
            graph@ == with_edges(start, func_name@, names_of(names@.take(i as int))),
        decreases names.len() - i,
    {
        graph.add_edge(func_name, &names[i]);
        proof {
            assert(names_of(names@.take(i + 1)).drop_last() =~= names_of(names@.take(i as int)));
            assert(names_of(names@.take(i + 1)).last() == names@[i as int]@);
        }
        i += 1;
    }
    assert(names@.take(names.len() as int) =~= names@);
}

/// Records under `func_name` every call that `expr` makes.
pub fn build_graph(expr: &Expr, func_name: &String, graph: &mut CallGraph)
    requires
        old(graph).wf(),
    ensures
        final(graph).wf(),
        final(graph)@ == with_edges(old(graph)@, func_name@, expr_calls(*expr)),
{
    let mut current: Vec<String> = Vec::new();
    get_call_idents(expr, &mut current);
    assert(names_of(current@) =~= expr_calls(*expr));
    add_calls(&current, func_name, graph);
}

/// Records under `func_name` the calls of an optional expression.
fn build_graph_opt(o: &Option<Expr>, func_name: &String, graph: &mut CallGraph)
    requires
        old(graph).wf(),
    ensures
        final(graph).wf(),
        final(graph)@ == with_edges(old(graph)@, func_name@, opt_expr_calls(*o)),
{
    match o {
        Some(e) => {
            build_graph(e, func_name, graph);
        },
        None => {},
    }
}

/// Records under `func_name` the calls of each expression of `es`, in order.
fn build_graph_exprs(es: &Vec<Expr>, func_name: &String, graph: &mut CallGraph)
    requires
        old(graph).wf(),
    ensures
        final(graph).wf(),
        final(graph)@ == with_edges(old(graph)@, func_name@, exprs_calls(es@)),
{
    let ghost start = graph@;
    let mut i: usize = 0;
    while i < es.len()
        invariant
            graph.wf(),
            i <= es.len(),
            graph@ == with_edges(start, func_name@, exprs_calls(es@.take(i as int))),
        decreases es.len() - i,
    {
        build_graph(&es[i], func_name, graph);
        proof {
            assert(es@.take(i + 1).drop_last() =~= es@.take(i as int));
            assert(es@.take(i + 1).last() == es@[i as int]);
            lemma_with_edges_concat(
                start,
                func_name@,
                exprs_calls(es@.take(i as int)),
                expr_calls(es@[i as int]),
            );
        }
        i += 1;
    }
    assert(es@.take(es.len() as int) =~= es@);
}

/// Records under `func_name` the calls of the items of a context-manager
/// block, in order.
fn build_graph_items(items: &Vec<WithItem>, func_name: &String, graph: &mut CallGraph)
    requires
        old(graph).wf(),
    ensures
        final(graph).wf(),
        final(graph)@ == with_edges(old(graph)@, func_name@, items_calls(items@)),
{
    let ghost start = graph@;
    let mut i: usize = 0;
    while i < items.len()
        invariant
            graph.wf(),
            i <= items.len(),
            graph@ == with_edges(start, func_name@, items_calls(items@.take(i as int))),
        decreases items.len() - i,
    {
        let ghost mid = graph@;
        build_graph(&items[i].context_expr, func_name, graph);
        build_graph_opt(&items[i].optional_vars, func_name, graph);
        proof {
            assert(items@.take(i + 1).drop_last() =~= items@.take(i as int));
            assert(items@.take(i + 1).last() == items@[i as int]);
            lemma_with_edges_concat(
                mid,
                func_name@,
                expr_calls(items@[i as int].context_expr),
                opt_expr_calls(items@[i as int].optional_vars),
            );
            lemma_with_edges_concat(
                start,
                func_name@,
                items_calls(items@.take(i as int)),
                item_calls(items@[i as int]),
            );
        }
        i += 1;
    }
    assert(items@.take(items.len() as int) =~= items@);
}

/// Records under `func_name` every call that `stmt` contributes. Blocks
/// inside the statement stay in the same scope.
pub fn build_graph_from_stmt(stmt: &Stmt, func_name: &String, graph: &mut CallGraph)
    requires
        old(graph).wf(),
    ensures
        final(graph).wf(),
        final(graph)@ == with_edges(old(graph)@, func_name@, stmt_calls(*stmt)),
    decreases stmt,
{
    let ghost start = graph@;
    let ghost scope = func_name@;
    match stmt {
        Stmt::Expr { value } => {
            build_graph(value, func_name, graph);
        },
        Stmt::Return { value } => {
            build_graph_opt(value, func_name, graph);
        },
        Stmt::Assert { test, msg } => {
            build_graph(test, func_name, graph);
            build_graph_opt(msg, func_name, graph);
            proof {
                lemma_with_edges_concat(start, scope, expr_calls(*test), opt_expr_calls(*msg));
            }
        },
        Stmt::Try { body, orelse, finalbody } => {
            build_graph_from_stmts(body, func_name, graph);
            build_graph_from_stmts(orelse, func_name, graph);
            build_graph_from_stmts(finalbody, func_name, graph);
            proof {
                lemma_with_edges_concat(start, scope, stmts_calls(body@), stmts_calls(orelse@));
                lemma_with_edges_concat(
                    start,
                    scope,
                    stmts_calls(body@) + stmts_calls(orelse@),
                    stmts_calls(finalbody@),
                );
            }
        },
        Stmt::With { items, body } => {
            build_graph_items(items, func_name, graph);
            build_graph_from_stmts(body, func_name, graph);
            proof {
                lemma_with_edges_concat(start, scope, items_calls(items@), stmts_calls(body@));
            }
        },
        Stmt::For { target, iter, body } => {
            build_graph(target, func_name, graph);
            build_graph(iter, func_name, graph);
            build_graph_from_stmts(body, func_name, graph);
            proof {
                lemma_with_edges_concat(start, scope, expr_calls(*target), expr_calls(*iter));
                lemma_with_edges_concat(
                    start,
                    scope,
                    expr_calls(*target) + expr_calls(*iter),
                    stmts_calls(body@),
                );
            }
        },
        Stmt::Assign { targets, value } => {
            build_graph_exprs(targets, func_name, graph);
            build_graph(value, func_name, graph);
            proof {
                lemma_with_edges_concat(start, scope, exprs_calls(targets@), expr_calls(*value));
            }
        },
        Stmt::AnnAssign { target, value } => {
            build_graph(target, func_name, graph);
            build_graph_opt(value, func_name, graph);
            proof {
                lemma_with_edges_concat(start, scope, expr_calls(*target), opt_expr_calls(*value));
            }
        },
        Stmt::Delete { targets } => {
            build_graph_exprs(targets, func_name, graph);
        },
        Stmt::While { test, body } => {
            build_graph(test, func_name, graph);
            build_graph_from_stmts(body, func_name, graph);
            proof {
                lemma_with_edges_concat(start, scope, expr_calls(*test), stmts_calls(body@));
            }
        },
        Stmt::AugAssign { target, value } => {
            build_graph(target, func_name, graph);
            build_graph(value, func_name, graph);
            proof {
                lemma_with_edges_concat(start, scope, expr_calls(*target), expr_calls(*value));
            }
        },
        Stmt::FunctionDef { .. } => {},
        Stmt::AsyncFunctionDef { .. } => {},
        Stmt::ClassDef { .. } => {},
        Stmt::TypeAlias => {},
        Stmt::AsyncFor => {},
        Stmt::If { .. } => {},
        Stmt::AsyncWith => {},
        Stmt::Match => {},
        Stmt::Raise { .. } => {},
        Stmt::TryStar => {},
        Stmt::Import => {},
        Stmt::ImportFrom => {},
        Stmt::Global => {},
        Stmt::Nonlocal => {},
        Stmt::Pass => {},
        Stmt::Break => {},
        Stmt::Continue => {},
    }
}

/// Records under `func_name` the calls of each statement of a block, in
/// order.
pub fn build_graph_from_stmts(stmts: &Vec<Stmt>, func_name: &String, graph: &mut CallGraph)
    requires
        old(graph).wf(),
    ensures
        final(graph).wf(),
        final(graph)@ == with_edges(old(graph)@, func_name@, stmts_calls(stmts@)),
    decreases stmts,
{
    let ghost start = graph@;
    let mut i: usize = 0;
    while i < stmts.len()
        invariant
            graph.wf(),
            i <= stmts.len(),
            graph@ == with_edges(start, func_name@, stmts_calls(stmts@.take(i as int))),
        decreases stmts.len() - i,
    {
        build_graph_from_stmt(&stmts[i], func_name, graph);
        proof {
            assert(stmts@.take(i + 1).drop_last() =~= stmts@.take(i as int));
            assert(stmts@.take(i + 1).last() == stmts@[i as int]);
            lemma_with_edges_concat(
                start,
                func_name@,
                stmts_calls(stmts@.take(i as int)),
                stmt_calls(stmts@[i as int]),
            );
        }
        i += 1;
    }
    assert(stmts@.take(stmts.len() as int) =~= stmts@);
}

/// Builds the call graph of a module in one pass over its top-level
/// statements.
pub fn generate_graph(module: &Module) -> (graph: CallGraph)
    ensures
        graph.wf(),
        graph@ == graph_of(module.body@),
        is_closed(graph@),
{
    let mut graph = CallGraph::new();
    let dots: String = "...".to_owned();
    let mut i: usize = 0;
    while i < module.body.len()
        invariant
            graph.wf(),
            i <= module.body.len(),
            dots@ == module_scope(),
            graph@ == graph_of(module.body@.take(i as int)),
        decreases module.body.len() - i,
    {
        proof {
            assert(module.body@.take(i + 1).drop_last() =~= module.body@.take(i as int));
            assert(module.body@.take(i + 1).last() == module.body@[i as int]);
        }
        match &module.body[i] {
            Stmt::FunctionDef { name, body } => {
                graph.define_scope(name);
                build_graph_from_stmts(body, name, &mut graph);
            },
            Stmt::AsyncFunctionDef { name, body } => {
                graph.define_scope(name);
                build_graph_from_stmts(body, name, &mut graph);
            },
            other => {
                build_graph_from_stmt(other, &dots, &mut graph);
            },
        }
        i += 1;
    }
    assert(module.body@.take(module.body.len() as int) =~= module.body@);
    proof {
        graph.lemma_closed();
    }
    graph
}

} // verus!
