//! The expression and statement walkers: which names a piece of syntax calls,
//! in call-site order.

use vstd::prelude::*;
use crate::ast::{Expr, Stmt, WithItem};

verus! {

/// A name as contracts see it.
pub type Name = Seq<char>;

/// The names held by a vector of strings, in order.
pub open spec fn names_of(v: Seq<String>) -> Seq<Name> {
    Seq::new(v.len(), |i: int| v[i]@)
}

/// The name a call records for its callee: the attribute of an attribute
/// access, the identifier of a bare name, nothing for any other form.
pub open spec fn callee_name(func: Expr) -> Seq<Name> {
    match func {
        Expr::Attribute { attr, .. } => seq![attr@],
        Expr::Name { id } => seq![id@],
        _ => Seq::empty(),
    }
}

/// The names an optional expression calls.
pub open spec fn opt_calls(o: Option<Box<Expr>>) -> Seq<Name>
    decreases o,
{
    match o {
        Some(e) => expr_calls(*e),
        None => Seq::empty(),
    }
}

/// The names an expression calls, in the order its call sites are visited.
pub open spec fn expr_calls(e: Expr) -> Seq<Name>
    decreases e,
{
    match e {
        Expr::Call { func, args, .. } => callee_name(*func) + exprs_calls(args@),
        Expr::BoolOp { values } => exprs_calls(values@),
        Expr::List { elts } => exprs_calls(elts@),
        Expr::SetDisplay { elts } => exprs_calls(elts@),
        Expr::JoinedStr { values } => exprs_calls(values@),
        Expr::Tuple { elts } => exprs_calls(elts@),
        Expr::Dict { keys, values } => exprs_calls(values@) + keys_calls(keys@),
        Expr::NamedExpr { target, value } => expr_calls(*target) + expr_calls(*value),
        Expr::BinOp { left, right } => expr_calls(*left) + expr_calls(*right),
        Expr::DictComp { key, value, .. } => expr_calls(*key) + expr_calls(*value),
        Expr::Subscript { value, slice } => expr_calls(*value) + expr_calls(*slice),
        Expr::UnaryOp { operand } => expr_calls(*operand),
        Expr::Lambda { body } => expr_calls(*body),
        Expr::Await { value } => expr_calls(*value),
        Expr::Yield { value } => opt_calls(value),
        Expr::YieldFrom { value } => expr_calls(*value),
        Expr::ListComp { elt, .. } => expr_calls(*elt),
        Expr::SetComp { elt, .. } => expr_calls(*elt),
        Expr::GeneratorExp { elt, .. } => expr_calls(*elt),
        Expr::Attribute { value, .. } => expr_calls(*value),
        Expr::Starred { value } => expr_calls(*value),
        Expr::IfExp { test, body, orelse } => expr_calls(*test) + expr_calls(*body) + expr_calls(
            *orelse,
        ),
        Expr::Compare { left, comparators } => expr_calls(*left) + exprs_calls(comparators@),
        Expr::FormattedValue { value, format_spec } => expr_calls(*value) + opt_calls(format_spec),
        Expr::Slice { lower, upper, step } => opt_calls(upper) + opt_calls(lower) + opt_calls(step),
        Expr::Constant => Seq::empty(),
        Expr::Name { .. } => Seq::empty(),
    }
}

/// The names a sequence of expressions calls: those of each element, in order.
pub open spec fn exprs_calls(es: Seq<Expr>) -> Seq<Name>
    decreases es,
{
    if es.len() == 0 {
        Seq::empty()
    } else {
        exprs_calls(es.drop_last()) + expr_calls(es.last())
    }
}

/// The names the present keys of a mapping literal call, in order.
pub open spec fn keys_calls(ks: Seq<Option<Expr>>) -> Seq<Name>
    decreases ks,
{
    if ks.len() == 0 {
        Seq::empty()
    } else {
        keys_calls(ks.drop_last()) + match ks.last() {
            Some(k) => expr_calls(k),
            None => Seq::empty(),
        }
    }
}

/// The names an optional expression of a statement calls.
pub open spec fn opt_expr_calls(o: Option<Expr>) -> Seq<Name> {
    match o {
        Some(e) => expr_calls(e),
        None => Seq::empty(),
    }
}

/// The names one item of a context-manager block calls: those of the managed
/// expression, then those of the bound target.
pub open spec fn item_calls(item: WithItem) -> Seq<Name> {
    expr_calls(item.context_expr) + opt_expr_calls(item.optional_vars)
}

/// The names the items of a context-manager block call, in order.
pub open spec fn items_calls(items: Seq<WithItem>) -> Seq<Name>
    decreases items.len(),
{
    if items.len() == 0 {
        Seq::empty()
    } else {
        items_calls(items.drop_last()) + item_calls(items.last())
    }
}

/// The names a statement contributes to the scope it stands in. Only the
/// statement kinds listed with a non-empty result are visited; every other
/// kind contributes nothing, whatever it contains.
pub open spec fn stmt_calls(s: Stmt) -> Seq<Name>
    decreases s,
{
    match s {
        Stmt::Expr { value } => expr_calls(value),
        Stmt::Return { value } => opt_expr_calls(value),
        Stmt::Assert { test, msg } => expr_calls(test) + opt_expr_calls(msg),
        Stmt::Try { body, orelse, finalbody } => stmts_calls(body@) + stmts_calls(orelse@)
            + stmts_calls(finalbody@),
        Stmt::With { items, body } => items_calls(items@) + stmts_calls(body@),
        Stmt::For { target, iter, body } => expr_calls(target) + expr_calls(iter) + stmts_calls(
            body@,
        ),
        Stmt::Assign { targets, value } => exprs_calls(targets@) + expr_calls(value),
        Stmt::AnnAssign { target, value } => expr_calls(target) + opt_expr_calls(value),
        Stmt::Delete { targets } => exprs_calls(targets@),
        Stmt::While { test, body } => expr_calls(test) + stmts_calls(body@),
        Stmt::AugAssign { target, value } => expr_calls(target) + expr_calls(value),
        Stmt::FunctionDef { .. } => Seq::empty(),
        Stmt::AsyncFunctionDef { .. } => Seq::empty(),
        Stmt::ClassDef { .. } => Seq::empty(),
        Stmt::TypeAlias => Seq::empty(),
        Stmt::AsyncFor => Seq::empty(),
        Stmt::If { .. } => Seq::empty(),
        Stmt::AsyncWith => Seq::empty(),
        Stmt::Match => Seq::empty(),
        Stmt::Raise { .. } => Seq::empty(),
        Stmt::TryStar => Seq::empty(),
        Stmt::Import => Seq::empty(),
        Stmt::ImportFrom => Seq::empty(),
        Stmt::Global => Seq::empty(),
        Stmt::Nonlocal => Seq::empty(),
        Stmt::Pass => Seq::empty(),
        Stmt::Break => Seq::empty(),
        Stmt::Continue => Seq::empty(),
    }
}

/// The names a block of statements contributes: those of each statement, in
/// order.
pub open spec fn stmts_calls(ss: Seq<Stmt>) -> Seq<Name>
    decreases ss,
{
    if ss.len() == 0 {
        Seq::empty()
    } else {
        stmts_calls(ss.drop_last()) + stmt_calls(ss.last())
    }
}

/// Pushing a string appends its name.
pub proof fn lemma_names_push(v: Seq<String>, s: String)
    ensures
        names_of(v.push(s)) == names_of(v).push(s@),
{
    assert(names_of(v.push(s)) =~= names_of(v).push(s@));
}

/// Appends to `current` the names that `expr` calls, in call-site order.
pub fn get_call_idents(expr: &Expr, current: &mut Vec<String>)
    ensures
        names_of(final(current)@) == names_of(old(current)@) + expr_calls(*expr),
    decreases expr,
{
    let ghost start = names_of(current@);
    match expr {
        Expr::Call { func, args, .. } => {
            match &**func {
                Expr::Attribute { attr, .. } => {
                    proof {
                        lemma_names_push(current@, *attr);
                    }
                    current.push(attr.clone());
                },
                Expr::Name { id } => {
                    proof {
                        lemma_names_push(current@, *id);
                    }
                    current.push(id.clone());
                },
                _ => {},
            }
            assert(names_of(current@) =~= start + callee_name(**func));
            walk_exprs(args, current);
        },
        Expr::BoolOp { values } => {
            walk_exprs(values, current);
        },
        Expr::List { elts } => {
            walk_exprs(elts, current);
        },
        Expr::SetDisplay { elts } => {
            walk_exprs(elts, current);
        },
        Expr::JoinedStr { values } => {
            walk_exprs(values, current);
        },
        Expr::Tuple { elts } => {
            walk_exprs(elts, current);
        },
        Expr::Dict { keys, values } => {
            walk_exprs(values, current);
            walk_keys(keys, current);
        },
        Expr::NamedExpr { target, value } => {
            get_call_idents(&**target, current);
            get_call_idents(&**value, current);
        },
        Expr::BinOp { left, right } => {
            get_call_idents(&**left, current);
            get_call_idents(&**right, current);
        },
        Expr::DictComp { key, value, .. } => {
            get_call_idents(&**key, current);
            get_call_idents(&**value, current);
        },
        Expr::Subscript { value, slice } => {
            get_call_idents(&**value, current);
            get_call_idents(&**slice, current);
        },
        Expr::UnaryOp { operand } => {
            get_call_idents(&**operand, current);
        },
        Expr::Lambda { body } => {
            get_call_idents(&**body, current);
        },
        Expr::Await { value } => {
            get_call_idents(&**value, current);
        },
        Expr::Yield { value } => {
            walk_opt(value, current);
        },
        Expr::YieldFrom { value } => {
            get_call_idents(&**value, current);
        },
        Expr::ListComp { elt, .. } => {
            get_call_idents(&**elt, current);
        },
        Expr::SetComp { elt, .. } => {
            get_call_idents(&**elt, current);
        },
        Expr::GeneratorExp { elt, .. } => {
            get_call_idents(&**elt, current);
        },
        Expr::Attribute { value, .. } => {
            get_call_idents(&**value, current);
        },
        Expr::Starred { value } => {
            get_call_idents(&**value, current);
        },
        Expr::IfExp { test, body, orelse } => {
            get_call_idents(&**test, current);
            get_call_idents(&**body, current);
            get_call_idents(&**orelse, current);
        },
        Expr::Compare { left, comparators } => {
            get_call_idents(&**left, current);
            walk_exprs(comparators, current);
        },
        Expr::FormattedValue { value, format_spec } => {
            get_call_idents(&**value, current);
            walk_opt(format_spec, current);
        },
        Expr::Slice { lower, upper, step } => {
            walk_opt(upper, current);
            walk_opt(lower, current);
            walk_opt(step, current);
        },
        Expr::Constant => {},
        Expr::Name { .. } => {},
    }
    assert(names_of(current@) =~= start + expr_calls(*expr));
}

/// Appends the names an optional expression calls.
fn walk_opt(o: &Option<Box<Expr>>, current: &mut Vec<String>)
    ensures
        names_of(final(current)@) == names_of(old(current)@) + opt_calls(*o),
    decreases o,
{
    let ghost start = names_of(current@);
    match o {
        Some(e) => {
            get_call_idents(&**e, current);
        },
        None => {},
    }
    assert(names_of(current@) =~= start + opt_calls(*o));
}

/// Appends the names each expression of `es` calls, in order.
pub fn walk_exprs(es: &Vec<Expr>, current: &mut Vec<String>)
    ensures
        names_of(final(current)@) == names_of(old(current)@) + exprs_calls(es@),
    decreases es,
{
    let ghost start = names_of(current@);
    let mut i: usize = 0;
    assert(start + exprs_calls(es@.take(0)) =~= start);
    while i < es.len()
        invariant
            i <= es.len(),
            names_of(current@) == start + exprs_calls(es@.take(i as int)),
        decreases es.len() - i,
    {
        let ghost before = names_of(current@);
        get_call_idents(&es[i], current);
        proof {
            assert(es@.take(i + 1).drop_last() =~= es@.take(i as int));
            assert(es@.take(i + 1).last() == es@[i as int]);
            assert(names_of(current@) =~= start + exprs_calls(es@.take(i + 1)));
        }
        i += 1;
    }
    assert(es@.take(es.len() as int) =~= es@);
}

/// Appends the names each present key of `ks` calls, in order.
fn walk_keys(ks: &Vec<Option<Expr>>, current: &mut Vec<String>)
    ensures
        names_of(final(current)@) == names_of(old(current)@) + keys_calls(ks@),
    decreases ks,
{
    let ghost start = names_of(current@);
    let mut i: usize = 0;
    assert(start + keys_calls(ks@.take(0)) =~= start);
    while i < ks.len()
        invariant
            i <= ks.len(),
            names_of(current@) == start + keys_calls(ks@.take(i as int)),
        decreases ks.len() - i,
    {
        match &ks[i] {
            Some(k) => {
                get_call_idents(k, current);
            },
            None => {},
        }
        proof {
            assert(ks@.take(i + 1).drop_last() =~= ks@.take(i as int));
            assert(ks@.take(i + 1).last() == ks@[i as int]);
            assert(names_of(current@) =~= start + keys_calls(ks@.take(i + 1)));
        }
        i += 1;
    }
    assert(ks@.take(ks.len() as int) =~= ks@);
}

} // verus!
