//! The two-pass driver of the baseline compiler.
//!
//! The first pass walks a function body, opens and closes frame scopes for
//! lexical blocks, allocates every declared local eagerly, spills call
//! arguments that are themselves calls into temporaries, and records one
//! [`CallSite`] plan per call node. The second pass walks the body again
//! with the same frame choreography, consumes the plans verbatim, and
//! snapshots a GC point at every call, where the runtime may stop the
//! world.

use vstd::prelude::*;

use crate::ast::{
    expr_call_ids, expr_id, expr_list_call_ids, expr_list_measure, expr_list_valid, expr_measure,
    expr_ty, expr_valid, lemma_ids_concat, stmt_call_ids, stmt_list_call_ids, stmt_list_measure,
    stmt_list_valid, stmt_measure, stmt_valid, Expr, ExprList, Fct, Stmt, StmtList,
};
use crate::callsite::{Arg, CallSite, JitInfo, NodeId};
use crate::frame::{GcPoint, ManagedStackFrame, ManagedStackSlot, ManagedVar};
use crate::ty::BuiltinType;

verus! {

/// What lowering one function produces for the runtime: the frame size and
/// the GC point recorded at every call node.
pub struct JitBaselineFct {
    pub stacksize: i32,
    pub gc_points: Vec<(NodeId, GcPoint)>,
}

/// Copy of a type-argument list, stamped into each call-site plan.
fn copy_types(v: &Vec<BuiltinType>) -> (r: Vec<BuiltinType>)
    ensures
        r@ == v@,
{
    let mut r: Vec<BuiltinType> = Vec::new();
    let n: usize = v.len();
    let mut i: usize = 0;
    while i < n
        invariant
            0 <= i <= n,
            n == v@.len(),
            r@ == v@.subrange(0, i as int),
        decreases n - i,
    {
        r.push(v[i]);
        proof {
            assert(r@ =~= v@.subrange(0, i + 1 as int));
        }
        i = i + 1;
    }
    proof {
        assert(r@ =~= v@);
    }
    r
}

/// The frame state change one statement walk is allowed: scopes balanced,
/// outer scopes untouched, the innermost scope only extended, and every id
/// it gained fresh; the frame never shrinks and issues at most `m` ids and
/// `16 * m` bytes.
pub open spec fn lower_step(pre: ManagedStackFrame, post: ManagedStackFrame, m: nat) -> bool {
    let top = pre.open_scopes() - 1;
    &&& post.wf()
    &&& post.open_scopes() == pre.open_scopes()
    &&& pre.spec_stacksize() <= post.spec_stacksize() <= pre.spec_stacksize() + 16 * m
    &&& pre.next_id() <= post.next_id() <= pre.next_id() + m
    &&& forall|s: int, v: ManagedVar|
        0 <= s < top ==> (#[trigger] post.scope_has(s, v) <==> pre.scope_has(s, v))
    &&& forall|v: ManagedVar| #[trigger] pre.scope_has(top, v) ==> post.scope_has(top, v)
    &&& forall|v: ManagedVar|
        #[trigger] post.has_var(v)
            <==> (pre.has_var(v) || (post.scope_has(top, v) && !pre.scope_has(top, v)))
    &&& forall|v: ManagedVar|
        #[trigger] post.scope_has(top, v) && !pre.scope_has(top, v) ==> !pre.has_var(v)
}

/// The frame state change an expression walk is allowed: no scope is
/// touched and no slot outlives the walk.
pub open spec fn expr_step(pre: ManagedStackFrame, post: ManagedStackFrame, m: nat) -> bool {
    &&& post.wf()
    &&& post.open_scopes() == pre.open_scopes()
    &&& pre.spec_stacksize() <= post.spec_stacksize() <= pre.spec_stacksize() + 16 * m
    &&& pre.next_id() <= post.next_id() <= pre.next_id() + m
    &&& forall|s: int, v: ManagedVar|
        0 <= s < pre.open_scopes()
            ==> (#[trigger] post.scope_has(s, v) <==> pre.scope_has(s, v))
    &&& forall|v: ManagedVar| #[trigger] post.has_var(v) <==> pre.has_var(v)
}

/// The node ids of a GC-point list, in order.
pub open spec fn point_ids(s: Seq<(NodeId, GcPoint)>) -> Seq<NodeId> {
    s.map_values(|p: (NodeId, GcPoint)| p.0)
}

/// The id belongs to a slot in `sp[from..]`.
pub open spec fn spill_ids(sp: Seq<ManagedStackSlot>, from: int, v: ManagedVar) -> bool {
    exists|k: int| from <= k < sp.len() && (#[trigger] sp[k]).var == v
}


/// The id belongs to a slot in `sp[..upto]`.
pub open spec fn spill_prefix(sp: Seq<ManagedStackSlot>, upto: int, v: ManagedVar) -> bool {
    exists|k: int| 0 <= k < upto && k < sp.len() && (#[trigger] sp[k]).var == v
}

/// Walk one expression. On the first pass (`emit` false) each call gets a
/// plan recorded; on the second pass the plan is consumed and a GC point
/// is snapshotted for the call. Temporaries spilled for nested calls are
/// freed before the walk returns, so the frame's live set is untouched.
#[verifier::loop_isolation(false)]
#[verifier::rlimit(100)]
fn lower_expr(
    frame: &mut ManagedStackFrame,
    info: &mut JitInfo,
    out: &mut Vec<(NodeId, GcPoint)>,
    emit: bool,
    cls_tp: &Vec<BuiltinType>,
    fct_tp: &Vec<BuiltinType>,
    e: &Expr,
)
    requires
        old(frame).wf(),
        expr_valid(*e),
        old(frame).spec_stacksize() + 16 * expr_measure(*e) <= i32::MAX,
        old(frame).next_id() + expr_measure(*e) <= usize::MAX,
        emit ==> forall|nid: NodeId|
            #[trigger] expr_call_ids(*e).contains(nid) ==> old(info).map_csites.spec_has(nid),
    ensures
        expr_step(*old(frame), *final(frame), expr_measure(*e)),
        !emit ==> final(out)@ == old(out)@,
        !emit ==> forall|nid: NodeId|
            #[trigger] final(info).map_csites.spec_has(nid)
                <==> (old(info).map_csites.spec_has(nid) || expr_call_ids(*e).contains(nid)),
        emit ==> forall|nid: NodeId|
            #[trigger] final(info).map_csites.spec_has(nid)
                <==> old(info).map_csites.spec_has(nid),
        emit ==> point_ids(final(out)@) == point_ids(old(out)@) + expr_call_ids(*e),
    decreases expr_measure(*e),
{
    match e {
        Expr::LitInt(_, _) | Expr::LitBool(_, _) | Expr::LitStr(_) | Expr::Ident(_, _) => {
            proof {
                assert(point_ids(out@) =~= point_ids(out@) + expr_call_ids(*e));
            }
        },
        Expr::Un(_, _, a) => {
            proof {
                assert(expr_call_ids(*e) == expr_call_ids(**a));
            }
            lower_expr(frame, info, out, emit, cls_tp, fct_tp, a);
        },
        Expr::Bin(_, _, a, b) => {
            let ghost o0 = out@;
            proof {
                assert(expr_call_ids(*e) == expr_call_ids(**a) + expr_call_ids(**b));
                lemma_ids_concat(expr_call_ids(**a), expr_call_ids(**b));
            }
            lower_expr(frame, info, out, emit, cls_tp, fct_tp, a);
            lower_expr(frame, info, out, emit, cls_tp, fct_tp, b);
            proof {
                if emit {
                    assert(point_ids(out@)
                        =~= point_ids(o0) + (expr_call_ids(**a) + expr_call_ids(**b)));
                }
            }
        },
        Expr::Assign(_, a, b) => {
            let ghost o0 = out@;
            proof {
                assert(expr_call_ids(*e) == expr_call_ids(**a) + expr_call_ids(**b));
                lemma_ids_concat(expr_call_ids(**a), expr_call_ids(**b));
            }
            lower_expr(frame, info, out, emit, cls_tp, fct_tp, a);
            lower_expr(frame, info, out, emit, cls_tp, fct_tp, b);
            proof {
                if emit {
                    assert(point_ids(out@)
                        =~= point_ids(o0) + (expr_call_ids(**a) + expr_call_ids(**b)));
                }
            }
        },
        Expr::Call(id, callee, ret, args) => {
            let ghost pre = *frame;
            let ghost o0 = out@;
            proof {
                assert(expr_call_ids(*e) == expr_list_call_ids(*args) + seq![*id]);
                lemma_ids_concat(expr_list_call_ids(*args), seq![*id]);
                assert(seq![*id].contains(*id)) by {
                    assert(seq![*id][0] == *id);
                }
            }
            let mut cargs: Vec<Arg> = Vec::new();
            let mut spills: Vec<ManagedStackSlot> = Vec::new();
            lower_args(frame, info, out, emit, cls_tp, fct_tp, args, &mut cargs, &mut spills);
            let ghost mid = *frame;
            let ghost sp = spills@;
            let ghost o1 = out@;

            if !emit {
                // first pass: record the plan for this call
                let cs = CallSite {
                    callee: *callee,
                    cls_type_params: copy_types(cls_tp),
                    fct_type_params: copy_types(fct_tp),
                    args: cargs,
                    super_call: false,
                    return_type: *ret,
                };
                info.map_csites.insert(*id, cs);
            } else {
                // second pass: fetch the plan the first pass recorded for
                // this call — it is always there — and, since the call may
                // stop the world, snapshot which slots hold references
                let plan = info.map_csites.get(*id);
                proof {
                    assert(expr_call_ids(*e).contains(*id));
                    assert(plan is Some);
                }
                let point = frame.gcpoint();
                out.push((*id, point));
                proof {
                    assert(out@ == o1.push((*id, point)));
                    assert(point_ids(out@) =~= point_ids(o1) + seq![*id]);
                    assert(point_ids(out@) =~= point_ids(o0)
                        + (expr_list_call_ids(*args) + seq![*id]));
                }
            }

            // release the spill temporaries in declaration order
            let n: usize = spills.len();
            let mut k: usize = 0;
            while k < n
                invariant
                    n == sp.len(),
                    spills@ == sp,
                    0 <= k <= n,
                    frame.wf(),
                    frame.open_scopes() == mid.open_scopes(),
                    frame.spec_stacksize() == mid.spec_stacksize(),
                    frame.next_id() == mid.next_id(),
                    forall|s: int, v: ManagedVar| #![trigger frame.scope_has(s, v)]
                        0 <= s < mid.open_scopes()
                            ==> (frame.scope_has(s, v) <==> mid.scope_has(s, v)),
                    forall|j: int|
                        k <= j < n
                            ==> frame.has_var((#[trigger] sp[j]).var) && !frame.scoped(sp[j].var),
                    forall|j1: int, j2: int|
                        0 <= j1 < j2 < n ==> (#[trigger] sp[j1]).var != (#[trigger] sp[j2]).var,
                    forall|v: ManagedVar| #![trigger frame.has_var(v)]
                        frame.has_var(v) <==> (mid.has_var(v) && !spill_prefix(sp, k as int, v)),
                decreases n - k,
            {
                let temp = spills[k];
                proof {
                    assert(sp[k as int] == temp);
                    assert(!spill_prefix(sp, k as int, temp.var)) by {
                        if spill_prefix(sp, k as int, temp.var) {
                            let j = choose|j: int|
                                0 <= j < k && j < sp.len() && (#[trigger] sp[j]).var == temp.var;
                            assert(false);
                        }
                    }
                }
                let ghost before = *frame;
                frame.free_temp(temp);
                proof {
                    assert forall|v: ManagedVar| #[trigger] frame.has_var(v)
                        == (mid.has_var(v) && !spill_prefix(sp, k + 1 as int, v)) by {
                        if spill_prefix(sp, k as int, v) {
                            let j = choose|j: int|
                                0 <= j < k && j < sp.len() && (#[trigger] sp[j]).var == v;
                            assert(spill_prefix(sp, k + 1 as int, v));
                        }
                        if v == temp.var {
                            assert((sp[k as int]).var == v);
                            assert(spill_prefix(sp, k + 1 as int, v));
                        }
                        if spill_prefix(sp, k + 1 as int, v) && !spill_prefix(sp, k as int, v)
                            && v != temp.var {
                            let j = choose|j: int|
                                0 <= j < k + 1 && j < sp.len() && (#[trigger] sp[j]).var == v;
                            assert(false);
                        }
                    }
                    assert forall|j: int| k + 1 <= j < n
                        implies frame.has_var((#[trigger] sp[j]).var)
                            && !frame.scoped(sp[j].var) by {
                        assert(sp[j].var != temp.var);
                        assert(before.has_var(sp[j].var));
                        if frame.scoped(sp[j].var) {
                            let s = choose|s: int|
                                0 <= s < frame.open_scopes()
                                    && #[trigger] frame.scope_has(s, sp[j].var);
                            assert(before.scope_has(s, sp[j].var));
                        }
                    }
                }
                k = k + 1;
            }

            proof {
                // every spill id is gone again: the live set is as before
                assert forall|v: ManagedVar| #[trigger] frame.has_var(v) == pre.has_var(v) by {
                    assert(frame.has_var(v) == (mid.has_var(v) && !spill_prefix(sp, n as int, v)));
                    if spill_ids(sp, 0, v) {
                        let j = choose|j: int|
                            0 <= j < sp.len() && (#[trigger] sp[j]).var == v;
                        assert(spill_prefix(sp, n as int, v));
                        assert(!pre.has_var(v));
                    }
                    if spill_prefix(sp, n as int, v) {
                        let j = choose|j: int|
                            0 <= j < n && j < sp.len() && (#[trigger] sp[j]).var == v;
                        assert(spill_ids(sp, 0, v));
                    }
                }
            }
        },
    }
}

/// Plan the arguments of one call, left to right. An argument that is
/// itself a call is evaluated into a fresh spill temporary and planned as
/// a stack reload; every other argument is planned for inline evaluation.
#[verifier::rlimit(100)]
fn lower_args(
    frame: &mut ManagedStackFrame,
    info: &mut JitInfo,
    out: &mut Vec<(NodeId, GcPoint)>,
    emit: bool,
    cls_tp: &Vec<BuiltinType>,
    fct_tp: &Vec<BuiltinType>,
    l: &ExprList,
    dst: &mut Vec<Arg>,
    spills: &mut Vec<ManagedStackSlot>,
)
    requires
        old(frame).wf(),
        expr_list_valid(*l),
        old(frame).spec_stacksize() + 16 * expr_list_measure(*l) <= i32::MAX,
        old(frame).next_id() + expr_list_measure(*l) <= usize::MAX,
        forall|k: int|
            0 <= k < old(spills)@.len()
                ==> old(frame).has_var((#[trigger] old(spills)@[k]).var)
                    && !old(frame).scoped(old(spills)@[k].var),
        forall|k1: int, k2: int|
            0 <= k1 < k2 < old(spills)@.len()
                ==> (#[trigger] old(spills)@[k1]).var != (#[trigger] old(spills)@[k2]).var,
        emit ==> forall|nid: NodeId|
            #[trigger] expr_list_call_ids(*l).contains(nid)
                ==> old(info).map_csites.spec_has(nid),
    ensures
        !emit ==> final(out)@ == old(out)@,
        !emit ==> forall|nid: NodeId|
            #[trigger] final(info).map_csites.spec_has(nid)
                <==> (old(info).map_csites.spec_has(nid) || expr_list_call_ids(*l).contains(nid)),
        emit ==> forall|nid: NodeId|
            #[trigger] final(info).map_csites.spec_has(nid)
                <==> old(info).map_csites.spec_has(nid),
        emit ==> point_ids(final(out)@) == point_ids(old(out)@) + expr_list_call_ids(*l),
        final(frame).wf(),
        final(frame).open_scopes() == old(frame).open_scopes(),
        old(frame).spec_stacksize() <= final(frame).spec_stacksize()
            <= old(frame).spec_stacksize() + 16 * expr_list_measure(*l),
        old(frame).next_id() <= final(frame).next_id()
            <= old(frame).next_id() + expr_list_measure(*l),
        forall|s: int, v: ManagedVar|
            0 <= s < old(frame).open_scopes()
                ==> (#[trigger] final(frame).scope_has(s, v) <==> old(frame).scope_has(s, v)),
        old(spills)@.len() <= final(spills)@.len(),
        final(spills)@.subrange(0, old(spills)@.len() as int) == old(spills)@,
        forall|k: int|
            0 <= k < final(spills)@.len()
                ==> final(frame).has_var((#[trigger] final(spills)@[k]).var)
                    && !final(frame).scoped(final(spills)@[k].var),
        forall|k1: int, k2: int|
            0 <= k1 < k2 < final(spills)@.len()
                ==> (#[trigger] final(spills)@[k1]).var != (#[trigger] final(spills)@[k2]).var,
        forall|v: ManagedVar|
            #[trigger] final(frame).has_var(v)
                <==> (old(frame).has_var(v)
                    || spill_ids(final(spills)@, old(spills)@.len() as int, v)),
        forall|v: ManagedVar|
            spill_ids(final(spills)@, old(spills)@.len() as int, v)
                ==> !old(frame).has_var(v),
    decreases expr_list_measure(*l),
{
    match l {
        ExprList::Nil => {
            proof {
                assert(point_ids(out@) =~= point_ids(out@) + expr_list_call_ids(*l));
                assert(final(spills)@.subrange(0, old(spills)@.len() as int) =~= old(spills)@);
                assert forall|v: ManagedVar|
                    !spill_ids(final(spills)@, old(spills)@.len() as int, v) by {
                    if spill_ids(spills@, spills@.len() as int, v) {
                        let k = choose|k: int|
                            spills@.len() <= k < spills@.len()
                                && (#[trigger] spills@[k]).var == v;
                        assert(false);
                    }
                }
            }
        },
        ExprList::Cons(h, tail) => {
            let ghost pre = *frame;
            let ghost sp0 = spills@;
            let ghost o0 = out@;
            proof {
                assert(expr_list_call_ids(*l) == expr_call_ids(**h) + expr_list_call_ids(**tail));
                lemma_ids_concat(expr_call_ids(**h), expr_list_call_ids(**tail));
            }
            lower_expr(frame, info, out, emit, cls_tp, fct_tp, h);
            proof {
                assert forall|k: int| 0 <= k < sp0.len()
                    implies frame.has_var((#[trigger] sp0[k]).var)
                        && !frame.scoped(sp0[k].var) by {
                    if frame.scoped(sp0[k].var) {
                        let s = choose|s: int|
                            0 <= s < frame.open_scopes()
                                && #[trigger] frame.scope_has(s, sp0[k].var);
                        assert(pre.scope_has(s, sp0[k].var));
                    }
                }
            }

            let is_call = match **h {
                Expr::Call(_, _, _, _) => true,
                _ => false,
            };
            if is_call {
                // spill the nested call's result to a temporary; the
                // emitter will reload it from that slot
                let ty = expr_ty(h);
                let temp = frame.add_temp(ty);
                dst.push(Arg::Stack(temp.offset(), ty));
                spills.push(temp);
                proof {
                    assert(spills@ == sp0.push(temp));
                    assert(spills@[sp0.len() as int] == temp);
                }
            } else {
                dst.push(Arg::Expr(expr_id(h), expr_ty(h)));
                proof {
                    assert(spills@ == sp0);
                }
            }
            let ghost mid = *frame;
            let ghost sp1 = spills@;

            proof {
                assert forall|k: int| 0 <= k < sp1.len()
                    implies mid.has_var((#[trigger] sp1[k]).var)
                        && !mid.scoped(sp1[k].var) by {
                    if k < sp0.len() {
                        assert(sp1[k] == sp0[k]);
                        if mid.scoped(sp0[k].var) {
                            let s = choose|s: int|
                                0 <= s < mid.open_scopes()
                                    && #[trigger] mid.scope_has(s, sp0[k].var);
                        }
                    } else {
                        assert(sp1[k] == spills@[sp0.len() as int]);
                    }
                }
                assert forall|k1: int, k2: int| 0 <= k1 < k2 < sp1.len()
                    implies (#[trigger] sp1[k1]).var != (#[trigger] sp1[k2]).var by {
                    if k2 < sp0.len() {
                        assert(sp1[k1] == sp0[k1] && sp1[k2] == sp0[k2]);
                    } else if k2 == sp0.len() && sp1.len() > sp0.len() {
                        assert(sp1[k1] == sp0[k1]);
                        assert(frame.has_var(sp0[k1].var));
                    }
                }
            }

            lower_args(frame, info, out, emit, cls_tp, fct_tp, tail, dst, spills);

            proof {
                if emit {
                    assert(point_ids(out@)
                        =~= point_ids(o0)
                            + (expr_call_ids(**h) + expr_list_call_ids(**tail)));
                }
                let post = *frame;
                let sp2 = spills@;
                assert(sp2.subrange(0, sp0.len() as int) =~= sp0) by {
                    assert forall|k: int| 0 <= k < sp0.len()
                        implies sp2.subrange(0, sp0.len() as int)[k] == sp0[k] by {
                        assert(sp2[k] == sp2.subrange(0, sp1.len() as int)[k]);
                        assert(sp2.subrange(0, sp1.len() as int)[k] == sp1[k]);
                        if k < sp0.len() {
                            assert(sp1[k] == sp0[k]);
                        }
                    }
                }
                assert forall|v: ManagedVar| #[trigger] post.has_var(v)
                    == (pre.has_var(v) || spill_ids(sp2, sp0.len() as int, v)) by {
                    assert(post.has_var(v) == (mid.has_var(v) || spill_ids(sp2, sp1.len() as int, v)));
                    if spill_ids(sp2, sp1.len() as int, v) {
                        let k = choose|k: int|
                            sp1.len() <= k < sp2.len() && (#[trigger] sp2[k]).var == v;
                        assert(spill_ids(sp2, sp0.len() as int, v));
                    }
                    if sp1.len() > sp0.len() && v == sp1[sp0.len() as int].var {
                        assert(sp2.subrange(0, sp1.len() as int) == sp1);
                        assert(sp2[sp0.len() as int] == sp1[sp0.len() as int]);
                        assert(spill_ids(sp2, sp0.len() as int, v));
                    }
                    if spill_ids(sp2, sp0.len() as int, v) && !spill_ids(sp2, sp1.len() as int, v) {
                        let k = choose|k: int|
                            sp0.len() <= k < sp2.len() && (#[trigger] sp2[k]).var == v;
                        assert(k < sp1.len());
                        assert(sp2.subrange(0, sp1.len() as int) == sp1);
                        assert(sp2[k] == sp1[k]);
                        if sp1.len() == sp0.len() {
                            assert(false);
                        } else {
                            assert(k == sp0.len());
                            assert(v == sp1[sp0.len() as int].var);
                        }
                    }
                }
                assert forall|v: ManagedVar|
                    spill_ids(sp2, sp0.len() as int, v) implies !pre.has_var(v) by {
                    let k = choose|k: int|
                        sp0.len() <= k < sp2.len() && (#[trigger] sp2[k]).var == v;
                    if k >= sp1.len() {
                        assert(spill_ids(sp2, sp1.len() as int, v));
                        assert(!mid.has_var(v));
                    } else {
                        assert(sp2.subrange(0, sp1.len() as int) == sp1);
                        assert(sp2[k] == sp1[k]);
                        assert(k == sp0.len() && sp1.len() > sp0.len());
                        assert(!pre.has_var(sp1[sp0.len() as int].var));
                    }
                }
            }
        },
    }
}


/// An expression walk is a legal statement step: it touches no scope.
proof fn lemma_expr_step_is_lower_step(a: ManagedStackFrame, b: ManagedStackFrame, m: nat)
    requires
        a.open_scopes() > 0,
        expr_step(a, b, m),
    ensures
        lower_step(a, b, m),
{
    let top = a.open_scopes() - 1;
    assert forall|v: ManagedVar|
        #[trigger] b.has_var(v)
            <==> (a.has_var(v) || (b.scope_has(top, v) && !a.scope_has(top, v))) by {
        assert(b.scope_has(top, v) == a.scope_has(top, v));
    }
    assert forall|v: ManagedVar|
        #[trigger] b.scope_has(top, v) && !a.scope_has(top, v) implies !a.has_var(v) by {
        assert(b.scope_has(top, v) == a.scope_has(top, v));
    }
}

/// Two legal statement steps in sequence are one.
proof fn lemma_lower_step_trans(
    a: ManagedStackFrame,
    b: ManagedStackFrame,
    c: ManagedStackFrame,
    m1: nat,
    m2: nat,
)
    requires
        a.open_scopes() > 0,
        lower_step(a, b, m1),
        lower_step(b, c, m2),
    ensures
        lower_step(a, c, (m1 + m2) as nat),
{
    let top = a.open_scopes() - 1;
    assert forall|s: int, v: ManagedVar|
        0 <= s < top implies (#[trigger] c.scope_has(s, v) <==> a.scope_has(s, v)) by {
        assert(b.scope_has(s, v) == a.scope_has(s, v));
        assert(c.scope_has(s, v) == b.scope_has(s, v));
    }
    assert forall|v: ManagedVar| #[trigger] a.scope_has(top, v) implies c.scope_has(top, v) by {
        assert(b.scope_has(top, v));
    }
    assert forall|v: ManagedVar|
        #[trigger] c.has_var(v)
            implies (a.has_var(v) || (c.scope_has(top, v) && !a.scope_has(top, v))) by {
        if b.has_var(v) {
            if !a.has_var(v) {
                assert(b.scope_has(top, v) && !a.scope_has(top, v));
                assert(c.scope_has(top, v));
            }
        } else {
            assert(c.scope_has(top, v) && !b.scope_has(top, v));
            if a.scope_has(top, v) {
                assert(b.scope_has(top, v));
            }
        }
    }
    assert forall|v: ManagedVar|
        a.has_var(v) || (c.scope_has(top, v) && !a.scope_has(top, v))
            implies #[trigger] c.has_var(v) by {
        if a.has_var(v) {
            assert(b.has_var(v));
        } else {
            if b.scope_has(top, v) {
                assert(b.has_var(v));
            }
        }
    }
    assert forall|v: ManagedVar|
        #[trigger] c.scope_has(top, v) && !a.scope_has(top, v) implies !a.has_var(v) by {
        if b.scope_has(top, v) {
        } else {
            assert(!b.has_var(v));
        }
    }
}

/// Walk one statement: open and close a frame scope per block, allocate a
/// slot per declared local, and lower every contained expression.
#[verifier::rlimit(100)]
fn lower_stmt(
    frame: &mut ManagedStackFrame,
    info: &mut JitInfo,
    out: &mut Vec<(NodeId, GcPoint)>,
    emit: bool,
    cls_tp: &Vec<BuiltinType>,
    fct_tp: &Vec<BuiltinType>,
    s: &Stmt,
)
    requires
        old(frame).wf(),
        old(frame).open_scopes() > 0,
        stmt_valid(*s),
        old(frame).spec_stacksize() + 16 * stmt_measure(*s) <= i32::MAX,
        old(frame).next_id() + stmt_measure(*s) <= usize::MAX,
        emit ==> forall|nid: NodeId|
            #[trigger] stmt_call_ids(*s).contains(nid) ==> old(info).map_csites.spec_has(nid),
    ensures
        lower_step(*old(frame), *final(frame), stmt_measure(*s)),
        !emit ==> final(out)@ == old(out)@,
        !emit ==> forall|nid: NodeId|
            #[trigger] final(info).map_csites.spec_has(nid)
                <==> (old(info).map_csites.spec_has(nid) || stmt_call_ids(*s).contains(nid)),
        emit ==> forall|nid: NodeId|
            #[trigger] final(info).map_csites.spec_has(nid)
                <==> old(info).map_csites.spec_has(nid),
        emit ==> point_ids(final(out)@) == point_ids(old(out)@) + stmt_call_ids(*s),
    decreases stmt_measure(*s),
{
    match s {
        Stmt::Var(_, ty, init) => {
            let ghost pre = *frame;
            match init {
                Option::Some(e) => {
                    proof {
                        assert(stmt_call_ids(*s) == expr_call_ids(**e));
                    }
                    lower_expr(frame, info, out, emit, cls_tp, fct_tp, e);
                },
                Option::None => {
                    proof {
                        assert(point_ids(out@) =~= point_ids(out@) + stmt_call_ids(*s));
                    }
                },
            }
            let ghost mid = *frame;
            proof {
                lemma_expr_step_is_lower_step(pre, mid, (stmt_measure(*s) - 1) as nat);
            }
            let slot = frame.add_scope(*ty);
            proof {
                let post = *frame;
                let top = mid.open_scopes() - 1;
                crate::frame::lemma_scoped_is_live(mid);
                assert forall|v: ManagedVar|
                    #[trigger] post.has_var(v)
                        <==> (mid.has_var(v)
                            || (post.scope_has(top, v) && !mid.scope_has(top, v))) by {
                    assert(post.scope_has(top, v) == (mid.scope_has(top, v) || v == slot.var));
                }
                assert(lower_step(mid, post, 1));
                lemma_lower_step_trans(pre, mid, post, (stmt_measure(*s) - 1) as nat, 1);
            }
        },
        Stmt::ExprStmt(e) => {
            proof {
                assert(stmt_call_ids(*s) == expr_call_ids(**e));
            }
            lower_expr(frame, info, out, emit, cls_tp, fct_tp, e);
            proof {
                lemma_expr_step_is_lower_step(*old(frame), *frame, stmt_measure(*s));
            }
        },
        Stmt::If(c, th, el) => {
            let ghost p0 = *frame;
            let ghost o0 = out@;
            let ghost el_ids: Seq<NodeId> = match el {
                Option::Some(e2) => stmt_call_ids(**e2),
                Option::None => Seq::empty(),
            };
            proof {
                assert(stmt_call_ids(*s)
                    == expr_call_ids(**c) + stmt_call_ids(**th) + el_ids);
                lemma_ids_concat(expr_call_ids(**c), stmt_call_ids(**th));
                lemma_ids_concat(expr_call_ids(**c) + stmt_call_ids(**th), el_ids);
            }
            lower_expr(frame, info, out, emit, cls_tp, fct_tp, c);
            let ghost p1 = *frame;
            proof {
                lemma_expr_step_is_lower_step(p0, p1, expr_measure(**c));
            }
            lower_stmt(frame, info, out, emit, cls_tp, fct_tp, th);
            let ghost p2 = *frame;
            proof {
                lemma_lower_step_trans(p0, p1, p2, expr_measure(**c), stmt_measure(**th));
                if emit {
                    assert(point_ids(out@)
                        =~= point_ids(o0) + (expr_call_ids(**c) + stmt_call_ids(**th)));
                }
            }
            match el {
                Option::Some(e) => {
                    lower_stmt(frame, info, out, emit, cls_tp, fct_tp, e);
                    proof {
                        lemma_lower_step_trans(
                            p0, p2, *frame,
                            (expr_measure(**c) + stmt_measure(**th)) as nat,
                            stmt_measure(**e),
                        );
                        if emit {
                            assert(point_ids(out@) =~= point_ids(o0) + stmt_call_ids(*s));
                        }
                    }
                },
                Option::None => {
                    proof {
                        if emit {
                            assert(point_ids(out@) =~= point_ids(o0) + stmt_call_ids(*s));
                        }
                    }
                },
            }
        },
        Stmt::While(c, b) => {
            let ghost p0 = *frame;
            let ghost o0 = out@;
            proof {
                assert(stmt_call_ids(*s) == expr_call_ids(**c) + stmt_call_ids(**b));
                lemma_ids_concat(expr_call_ids(**c), stmt_call_ids(**b));
            }
            lower_expr(frame, info, out, emit, cls_tp, fct_tp, c);
            let ghost p1 = *frame;
            proof {
                lemma_expr_step_is_lower_step(p0, p1, expr_measure(**c));
            }
            lower_stmt(frame, info, out, emit, cls_tp, fct_tp, b);
            proof {
                lemma_lower_step_trans(p0, p1, *frame, expr_measure(**c), stmt_measure(**b));
                if emit {
                    assert(point_ids(out@)
                        =~= point_ids(o0) + (expr_call_ids(**c) + stmt_call_ids(**b)));
                }
            }
        },
        Stmt::Loop(b) => {
            proof {
                assert(stmt_call_ids(*s) == stmt_call_ids(**b));
            }
            lower_stmt(frame, info, out, emit, cls_tp, fct_tp, b);
        },
        Stmt::Block(l) => {
            let ghost pre = *frame;
            proof {
                assert(stmt_call_ids(*s) == stmt_list_call_ids(*l));
            }
            frame.push_scope();
            let ghost p1 = *frame;
            lower_stmt_list(frame, info, out, emit, cls_tp, fct_tp, l);
            let ghost p2 = *frame;
            frame.pop_scope();
            proof {
                let post = *frame;
                let t = pre.open_scopes() as int;
                let top = t - 1;
                // the block's own scope swallowed every id it declared
                assert forall|v: ManagedVar| #[trigger] post.has_var(v) == pre.has_var(v) by {
                    assert(post.has_var(v) == (p2.has_var(v) && !p2.scope_has(t, v)));
                    assert(p2.has_var(v) == (p1.has_var(v)
                        || (p2.scope_has(t, v) && !p1.scope_has(t, v))));
                    assert(!p1.scope_has(t, v));
                    assert(p1.has_var(v) == pre.has_var(v));
                    if p2.scope_has(t, v) {
                        assert(!p1.has_var(v));
                    }
                }
                // outer scopes pass through push, walk and pop untouched
                assert forall|s: int, v: ManagedVar|
                    0 <= s < t implies
                        (#[trigger] post.scope_has(s, v) <==> pre.scope_has(s, v)) by {
                    assert(p1.scope_has(s, v) == pre.scope_has(s, v));
                    assert(p2.scope_has(s, v) == p1.scope_has(s, v));
                    assert(post.scope_has(s, v) == p2.scope_has(s, v));
                }
                assert forall|v: ManagedVar|
                    #[trigger] post.has_var(v)
                        <==> (pre.has_var(v)
                            || (post.scope_has(top, v) && !pre.scope_has(top, v))) by {
                    assert(post.scope_has(top, v) == pre.scope_has(top, v));
                }
                assert forall|v: ManagedVar|
                    #[trigger] post.scope_has(top, v) && !pre.scope_has(top, v)
                        implies !pre.has_var(v) by {
                    assert(post.scope_has(top, v) == pre.scope_has(top, v));
                }
            }
        },
        Stmt::Return(e) => {
            match e {
                Option::Some(e) => {
                    proof {
                        assert(stmt_call_ids(*s) == expr_call_ids(**e));
                    }
                    lower_expr(frame, info, out, emit, cls_tp, fct_tp, e);
                    proof {
                        lemma_expr_step_is_lower_step(*old(frame), *frame, stmt_measure(*s));
                    }
                },
                Option::None => {
                    proof {
                        assert(point_ids(out@) =~= point_ids(out@) + stmt_call_ids(*s));
                    }
                },
            }
        },
        Stmt::Break(_) => {
            proof {
                assert(point_ids(out@) =~= point_ids(out@) + stmt_call_ids(*s));
            }
        },
        Stmt::Continue(_) => {
            proof {
                assert(point_ids(out@) =~= point_ids(out@) + stmt_call_ids(*s));
            }
        },
    }
}

/// Walk the statements of one block in order.
fn lower_stmt_list(
    frame: &mut ManagedStackFrame,
    info: &mut JitInfo,
    out: &mut Vec<(NodeId, GcPoint)>,
    emit: bool,
    cls_tp: &Vec<BuiltinType>,
    fct_tp: &Vec<BuiltinType>,
    l: &StmtList,
)
    requires
        old(frame).wf(),
        old(frame).open_scopes() > 0,
        stmt_list_valid(*l),
        old(frame).spec_stacksize() + 16 * stmt_list_measure(*l) <= i32::MAX,
        old(frame).next_id() + stmt_list_measure(*l) <= usize::MAX,
        emit ==> forall|nid: NodeId|
            #[trigger] stmt_list_call_ids(*l).contains(nid)
                ==> old(info).map_csites.spec_has(nid),
    ensures
        lower_step(*old(frame), *final(frame), stmt_list_measure(*l)),
        !emit ==> final(out)@ == old(out)@,
        !emit ==> forall|nid: NodeId|
            #[trigger] final(info).map_csites.spec_has(nid)
                <==> (old(info).map_csites.spec_has(nid)
                    || stmt_list_call_ids(*l).contains(nid)),
        emit ==> forall|nid: NodeId|
            #[trigger] final(info).map_csites.spec_has(nid)
                <==> old(info).map_csites.spec_has(nid),
        emit ==> point_ids(final(out)@) == point_ids(old(out)@) + stmt_list_call_ids(*l),
    decreases stmt_list_measure(*l),
{
    match l {
        StmtList::Nil => {
            proof {
                assert(point_ids(out@) =~= point_ids(out@) + stmt_list_call_ids(*l));
            }
        },
        StmtList::Cons(h, tail) => {
            let ghost p0 = *frame;
            let ghost o0 = out@;
            proof {
                assert(stmt_list_call_ids(*l)
                    == stmt_call_ids(**h) + stmt_list_call_ids(**tail));
                lemma_ids_concat(stmt_call_ids(**h), stmt_list_call_ids(**tail));
            }
            lower_stmt(frame, info, out, emit, cls_tp, fct_tp, h);
            let ghost p1 = *frame;
            lower_stmt_list(frame, info, out, emit, cls_tp, fct_tp, tail);
            proof {
                lemma_lower_step_trans(
                    p0, p1, *frame, stmt_measure(**h), stmt_list_measure(**tail),
                );
                if emit {
                    assert(point_ids(out@)
                        =~= point_ids(o0)
                            + (stmt_call_ids(**h) + stmt_list_call_ids(**tail)));
                }
            }
        },
    }
}

/// Lower one function in two passes. The first pass computes the frame
/// layout and the call-site plans; the second replays the same frame
/// choreography, consumes the plans and records a GC point at every call.
/// The frame build is balanced: when each pass finishes, no scope is open
/// and no slot is live. The result carries one GC point per call node of
/// the body, in the order the emitter reaches them.
pub fn compile(
    fct: &Fct,
    cls_type_params: &Vec<BuiltinType>,
    fct_type_params: &Vec<BuiltinType>,
) -> (r: JitBaselineFct)
    requires
        stmt_valid(fct.body),
        32 + 16 * stmt_measure(fct.body) <= i32::MAX,
        stmt_measure(fct.body) <= usize::MAX,
    ensures
        r.stacksize >= 0,
        r.stacksize as int % 16 == 0,
        r.stacksize <= 16 + 16 * stmt_measure(fct.body),
        r.gc_points@.len() == stmt_call_ids(fct.body).len(),
        forall|k: int|
            0 <= k < r.gc_points@.len()
                ==> (#[trigger] r.gc_points@[k]).0 == stmt_call_ids(fct.body)[k],
{
    let mut jit_info = JitInfo::new();
    let mut gc_points: Vec<(NodeId, GcPoint)> = Vec::new();

    // first pass: frame layout and call-site plans
    let mut frame = ManagedStackFrame::new();
    frame.push_scope();
    let ghost p1 = frame;
    lower_stmt(
        &mut frame, &mut jit_info, &mut gc_points, false, cls_type_params, fct_type_params,
        &fct.body,
    );
    let ghost p2 = frame;
    frame.pop_scope();
    proof {
        // the build is balanced: everything the walk allocated is gone
        assert forall|v: ManagedVar| !frame.has_var(v) by {
            assert(frame.has_var(v) == (p2.has_var(v) && !p2.scope_has(0, v)));
            assert(p2.has_var(v) == (p1.has_var(v)
                || (p2.scope_has(0, v) && !p1.scope_has(0, v))));
            assert(!p1.scope_has(0, v));
            assert(!p1.has_var(v));
        }
        crate::frame::lemma_no_vars_empty(frame);
        assert(frame.spec_is_empty());
    }
    let stacksize = frame.stacksize();
    jit_info.stacksize = stacksize;

    // second pass: replay the choreography, consume the plans, emit the
    // GC points
    let mut frame2 = ManagedStackFrame::new();
    frame2.push_scope();
    proof {
        // the first pass planned every call of the body
        assert forall|nid: NodeId| #[trigger] stmt_call_ids(fct.body).contains(nid)
            implies jit_info.map_csites.spec_has(nid) by {
        }
    }
    lower_stmt(
        &mut frame2, &mut jit_info, &mut gc_points, true, cls_type_params, fct_type_params,
        &fct.body,
    );
    frame2.pop_scope();
    proof {
        assert(point_ids(gc_points@)
            =~= point_ids(Seq::<(NodeId, GcPoint)>::empty()) + stmt_call_ids(fct.body));
        assert(point_ids(gc_points@) =~= stmt_call_ids(fct.body));
        assert forall|k: int| 0 <= k < gc_points@.len()
            implies (#[trigger] gc_points@[k]).0 == stmt_call_ids(fct.body)[k] by {
            assert(point_ids(gc_points@)[k] == gc_points@[k].0);
        }
    }

    JitBaselineFct { stacksize, gc_points }
}

} // verus!
