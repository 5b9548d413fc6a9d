use dora::ast::{Expr, ExprList, Fct, Stmt, StmtList};
use dora::baseline::compile;
use dora::callsite::{Arg, FctId, NodeId};
use dora::ty::BuiltinType;

fn call(id: usize, callee: usize, ret: BuiltinType, args: ExprList) -> Expr {
    Expr::Call(NodeId(id), FctId(callee), ret, args)
}

fn args1(a: Expr) -> ExprList {
    ExprList::Cons(Box::new(a), Box::new(ExprList::Nil))
}

fn args2(a: Expr, b: Expr) -> ExprList {
    ExprList::Cons(Box::new(a), Box::new(args1(b)))
}

#[test]
fn compile_reports_aligned_stacksize() {
    // fun f() { var x: int = 1; g(h(), x); }
    let inner = call(10, 2, BuiltinType::Str, ExprList::Nil);
    let outer = call(
        11,
        1,
        BuiltinType::Unit,
        args2(inner, Expr::Ident(NodeId(12), BuiltinType::Int)),
    );
    let body = Stmt::Block(StmtList::Cons(
        Box::new(Stmt::Var(
            NodeId(1),
            BuiltinType::Int,
            Some(Box::new(Expr::LitInt(NodeId(2), 1))),
        )),
        Box::new(StmtList::Cons(
            Box::new(Stmt::ExprStmt(Box::new(outer))),
            Box::new(StmtList::Nil),
        )),
    ));
    let fct = Fct { id: FctId(7), body };

    let jit = compile(&fct, &Vec::new(), &Vec::new());
    // int var at -4, then the spilled string at -16: high-water mark 16
    assert_eq!(jit.stacksize, 16);
    assert_eq!(jit.stacksize % 16, 0);

    // both calls got a GC point in the second pass
    assert_eq!(jit.gc_points.len(), 2);
    assert_eq!(jit.gc_points[0].0, NodeId(10));
    assert_eq!(jit.gc_points[1].0, NodeId(11));

    // at the outer call the spilled string result of the inner call is
    // live and must be reported as a root
    let outer_point = &jit.gc_points[1].1;
    assert_eq!(outer_point.offsets, vec![-16]);

    // at the inner call nothing holds a reference yet
    assert!(jit.gc_points[0].1.is_empty());
}

#[test]
fn compile_empty_body_uses_no_stack() {
    let fct = Fct { id: FctId(0), body: Stmt::Block(StmtList::Nil) };
    let jit = compile(&fct, &Vec::new(), &Vec::new());
    assert_eq!(jit.stacksize, 0);
    assert_eq!(jit.gc_points.len(), 0);
}

#[test]
fn arg_descriptors_carry_their_type() {
    let a = Arg::Expr(NodeId(3), BuiltinType::Int);
    assert_eq!(a.ty(), BuiltinType::Int);
    assert!(!a.is_selfie_new());

    let s = Arg::Stack(-8, BuiltinType::Str);
    assert_eq!(s.ty(), BuiltinType::Str);

    let recv = Arg::SelfieNew(BuiltinType::Class(dora::ty::ClassId(4)));
    assert!(recv.is_selfie_new());
    assert_eq!(recv.ty(), BuiltinType::Class(dora::ty::ClassId(4)));

    let selfie = Arg::Selfie(BuiltinType::Str);
    assert!(!selfie.is_selfie_new());
}

#[test]
fn builtin_type_descriptors() {
    assert_eq!(BuiltinType::Int.size(), 4);
    assert_eq!(BuiltinType::Bool.size(), 1);
    assert_eq!(BuiltinType::Str.size(), 8);
    assert_eq!(BuiltinType::Nil.size(), 8);
    assert!(BuiltinType::Nil.is_nil());
    assert!(BuiltinType::Str.reference_type());
    assert!(BuiltinType::IntArray.reference_type());
    assert!(!BuiltinType::Int.reference_type());
    assert!(!BuiltinType::Unit.reference_type());
}
