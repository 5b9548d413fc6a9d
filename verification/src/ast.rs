//! Typed abstract syntax as the baseline compiler consumes it: every node
//! carries an id (plans are recorded under it) and expressions carry the
//! type the checker gave them. Functions and classes are referred to by
//! dense ids into central tables, never by pointers.

use vstd::prelude::*;

use crate::callsite::{FctId, NodeId};
use crate::ty::BuiltinType;

verus! {

pub enum Expr {
    LitInt(NodeId, i64),
    LitBool(NodeId, bool),
    LitStr(NodeId),
    /// A resolved read of a local variable of the given type.
    Ident(NodeId, BuiltinType),
    Un(NodeId, BuiltinType, Box<Expr>),
    Bin(NodeId, BuiltinType, Box<Expr>, Box<Expr>),
    Assign(NodeId, Box<Expr>, Box<Expr>),
    /// A call: callee id, return type, arguments.
    Call(NodeId, FctId, BuiltinType, ExprList),
}

pub enum ExprList {
    Nil,
    Cons(Box<Expr>, Box<ExprList>),
}

pub enum Stmt {
    /// Declare a local of the given type, with an optional initialiser.
    Var(NodeId, BuiltinType, Option<Box<Expr>>),
    ExprStmt(Box<Expr>),
    If(Box<Expr>, Box<Stmt>, Option<Box<Stmt>>),
    While(Box<Expr>, Box<Stmt>),
    Loop(Box<Stmt>),
    Block(StmtList),
    Return(Option<Box<Expr>>),
    Break(NodeId),
    Continue(NodeId),
}

pub enum StmtList {
    Nil,
    Cons(Box<Stmt>, Box<StmtList>),
}

/// A function ready for lowering: its id and its typed body.
pub struct Fct {
    pub id: FctId,
    pub body: Stmt,
}

/// Structural size of an expression; bounds how many slots lowering it can
/// allocate.
pub open spec fn expr_measure(e: Expr) -> nat
    decreases e,
{
    match e {
        Expr::LitInt(_, _) => 1,
        Expr::LitBool(_, _) => 1,
        Expr::LitStr(_) => 1,
        Expr::Ident(_, _) => 1,
        Expr::Un(_, _, a) => 1 + expr_measure(*a),
        Expr::Bin(_, _, a, b) => 1 + expr_measure(*a) + expr_measure(*b),
        Expr::Assign(_, a, b) => 1 + expr_measure(*a) + expr_measure(*b),
        Expr::Call(_, _, _, args) => 1 + expr_list_measure(args),
    }
}

pub open spec fn expr_list_measure(l: ExprList) -> nat
    decreases l,
{
    match l {
        ExprList::Nil => 1,
        ExprList::Cons(h, t) => 1 + expr_measure(*h) + expr_list_measure(*t),
    }
}

pub open spec fn stmt_measure(s: Stmt) -> nat
    decreases s,
{
    match s {
        Stmt::Var(_, _, init) => match init {
            Option::Some(e) => 2 + expr_measure(*e),
            Option::None => 2,
        },
        Stmt::ExprStmt(e) => 1 + expr_measure(*e),
        Stmt::If(c, th, el) => match el {
            Option::Some(e) => 1 + expr_measure(*c) + stmt_measure(*th) + stmt_measure(*e),
            Option::None => 1 + expr_measure(*c) + stmt_measure(*th),
        },
        Stmt::While(c, b) => 1 + expr_measure(*c) + stmt_measure(*b),
        Stmt::Loop(b) => 1 + stmt_measure(*b),
        Stmt::Block(l) => 1 + stmt_list_measure(l),
        Stmt::Return(e) => match e {
            Option::Some(e) => 1 + expr_measure(*e),
            Option::None => 1,
        },
        Stmt::Break(_) => 1,
        Stmt::Continue(_) => 1,
    }
}

pub open spec fn stmt_list_measure(l: StmtList) -> nat
    decreases l,
{
    match l {
        StmtList::Nil => 1,
        StmtList::Cons(h, t) => 1 + stmt_measure(*h) + stmt_list_measure(*t),
    }
}

/// The body is well typed for lowering: every declared local and every
/// value a call produces into a spill slot has a positive size.
pub open spec fn expr_valid(e: Expr) -> bool
    decreases e,
{
    match e {
        Expr::LitInt(_, _) => true,
        Expr::LitBool(_, _) => true,
        Expr::LitStr(_) => true,
        Expr::Ident(_, _) => true,
        Expr::Un(_, _, a) => expr_valid(*a),
        Expr::Bin(_, _, a, b) => expr_valid(*a) && expr_valid(*b),
        Expr::Assign(_, a, b) => expr_valid(*a) && expr_valid(*b),
        Expr::Call(_, _, _, args) => expr_list_valid(args),
    }
}

pub open spec fn expr_list_valid(l: ExprList) -> bool
    decreases l,
{
    match l {
        ExprList::Nil => true,
        ExprList::Cons(h, t) => {
            &&& expr_valid(*h)
            &&& (*h matches Expr::Call(_, _, ret, _) ==> ret.spec_size() > 0)
            &&& expr_list_valid(*t)
        },
    }
}

pub open spec fn stmt_valid(s: Stmt) -> bool
    decreases s,
{
    match s {
        Stmt::Var(_, ty, init) => ty.spec_size() > 0 && match init {
            Option::Some(e) => expr_valid(*e),
            Option::None => true,
        },
        Stmt::ExprStmt(e) => expr_valid(*e),
        Stmt::If(c, th, el) => expr_valid(*c) && stmt_valid(*th) && match el {
            Option::Some(e) => stmt_valid(*e),
            Option::None => true,
        },
        Stmt::While(c, b) => expr_valid(*c) && stmt_valid(*b),
        Stmt::Loop(b) => stmt_valid(*b),
        Stmt::Block(l) => stmt_list_valid(l),
        Stmt::Return(e) => match e {
            Option::Some(e) => expr_valid(*e),
            Option::None => true,
        },
        Stmt::Break(_) => true,
        Stmt::Continue(_) => true,
    }
}

pub open spec fn stmt_list_valid(l: StmtList) -> bool
    decreases l,
{
    match l {
        StmtList::Nil => true,
        StmtList::Cons(h, t) => stmt_valid(*h) && stmt_list_valid(*t),
    }
}

/// The call nodes inside an expression, in the order the emitter reaches
/// them: a call's arguments come before the call itself.
pub open spec fn expr_call_ids(e: Expr) -> Seq<NodeId>
    decreases e,
{
    match e {
        Expr::LitInt(_, _) => Seq::empty(),
        Expr::LitBool(_, _) => Seq::empty(),
        Expr::LitStr(_) => Seq::empty(),
        Expr::Ident(_, _) => Seq::empty(),
        Expr::Un(_, _, a) => expr_call_ids(*a),
        Expr::Bin(_, _, a, b) => expr_call_ids(*a) + expr_call_ids(*b),
        Expr::Assign(_, a, b) => expr_call_ids(*a) + expr_call_ids(*b),
        Expr::Call(id, _, _, args) => expr_list_call_ids(args) + seq![id],
    }
}

pub open spec fn expr_list_call_ids(l: ExprList) -> Seq<NodeId>
    decreases l,
{
    match l {
        ExprList::Nil => Seq::empty(),
        ExprList::Cons(h, t) => expr_call_ids(*h) + expr_list_call_ids(*t),
    }
}

pub open spec fn stmt_call_ids(s: Stmt) -> Seq<NodeId>
    decreases s,
{
    match s {
        Stmt::Var(_, _, init) => match init {
            Option::Some(e) => expr_call_ids(*e),
            Option::None => Seq::empty(),
        },
        Stmt::ExprStmt(e) => expr_call_ids(*e),
        Stmt::If(c, th, el) => expr_call_ids(*c) + stmt_call_ids(*th) + (match el {
            Option::Some(e) => stmt_call_ids(*e),
            Option::None => Seq::empty(),
        }),
        Stmt::While(c, b) => expr_call_ids(*c) + stmt_call_ids(*b),
        Stmt::Loop(b) => stmt_call_ids(*b),
        Stmt::Block(l) => stmt_list_call_ids(l),
        Stmt::Return(e) => match e {
            Option::Some(e) => expr_call_ids(*e),
            Option::None => Seq::empty(),
        },
        Stmt::Break(_) => Seq::empty(),
        Stmt::Continue(_) => Seq::empty(),
    }
}

pub open spec fn stmt_list_call_ids(l: StmtList) -> Seq<NodeId>
    decreases l,
{
    match l {
        StmtList::Nil => Seq::empty(),
        StmtList::Cons(h, t) => stmt_call_ids(*h) + stmt_list_call_ids(*t),
    }
}

/// Concatenation holds an id exactly when one of its halves does.
pub proof fn lemma_ids_concat(a: Seq<NodeId>, b: Seq<NodeId>)
    ensures
        forall|x: NodeId| #[trigger] (a + b).contains(x) <==> (a.contains(x) || b.contains(x)),
        forall|x: NodeId| #[trigger] a.contains(x) ==> (a + b).contains(x),
        forall|x: NodeId| #[trigger] b.contains(x) ==> (a + b).contains(x),
{
    assert forall|x: NodeId| #[trigger] (a + b).contains(x)
        implies (a.contains(x) || b.contains(x)) by {
        let i = choose|i: int| 0 <= i < (a + b).len() && (a + b)[i] == x;
        if i < a.len() {
            assert(a[i] == x);
        } else {
            assert(b[i - a.len()] == x);
        }
    }
    assert forall|x: NodeId| a.contains(x) || b.contains(x)
        implies #[trigger] (a + b).contains(x) by {
        if a.contains(x) {
            let i = choose|i: int| 0 <= i < a.len() && a[i] == x;
            assert((a + b)[i] == x);
        } else {
            let i = choose|i: int| 0 <= i < b.len() && b[i] == x;
            assert((a + b)[a.len() + i] == x);
        }
    }
}

/// The node id of an expression.
pub open spec fn spec_expr_id(e: Expr) -> NodeId {
    match e {
        Expr::LitInt(id, _) => id,
        Expr::LitBool(id, _) => id,
        Expr::LitStr(id) => id,
        Expr::Ident(id, _) => id,
        Expr::Un(id, _, _) => id,
        Expr::Bin(id, _, _, _) => id,
        Expr::Assign(id, _, _) => id,
        Expr::Call(id, _, _, _) => id,
    }
}

/// The type the checker gave the expression.
pub open spec fn spec_expr_ty(e: Expr) -> BuiltinType {
    match e {
        Expr::LitInt(_, _) => BuiltinType::Int,
        Expr::LitBool(_, _) => BuiltinType::Bool,
        Expr::LitStr(_) => BuiltinType::Str,
        Expr::Ident(_, ty) => ty,
        Expr::Un(_, ty, _) => ty,
        Expr::Bin(_, ty, _, _) => ty,
        Expr::Assign(_, _, _) => BuiltinType::Unit,
        Expr::Call(_, _, ty, _) => ty,
    }
}

pub fn expr_id(e: &Expr) -> (r: NodeId)
    ensures
        r == spec_expr_id(*e),
{
    match *e {
        Expr::LitInt(id, _) => id,
        Expr::LitBool(id, _) => id,
        Expr::LitStr(id) => id,
        Expr::Ident(id, _) => id,
        Expr::Un(id, _, _) => id,
        Expr::Bin(id, _, _, _) => id,
        Expr::Assign(id, _, _) => id,
        Expr::Call(id, _, _, _) => id,
    }
}

pub fn expr_ty(e: &Expr) -> (r: BuiltinType)
    ensures
        r == spec_expr_ty(*e),
{
    match *e {
        Expr::LitInt(_, _) => BuiltinType::Int,
        Expr::LitBool(_, _) => BuiltinType::Bool,
        Expr::LitStr(_) => BuiltinType::Str,
        Expr::Ident(_, ty) => ty,
        Expr::Un(_, ty, _) => ty,
        Expr::Bin(_, ty, _, _) => ty,
        Expr::Assign(_, _, _) => BuiltinType::Unit,
        Expr::Call(_, _, ty, _) => ty,
    }
}

} // verus!
