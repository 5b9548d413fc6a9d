//! Call-site plans recorded by the first lowering pass.
//!
//! For every call in a function body the planner records who is called,
//! with which type arguments, and how each argument is materialised: inline
//! evaluation, a reload from a stack slot that an earlier spill filled, the
//! implicit receiver, or a receiver yet to be allocated by a constructor
//! call. The second pass consumes the plans verbatim.

use vstd::prelude::*;

use crate::ty::BuiltinType;

verus! {

/// Dense id of a function descriptor in the central function table.
#[derive(Copy, Clone, PartialEq, Eq, Structural, Debug)]
pub struct FctId(pub usize);

/// Id of an AST node; plans are recorded under the node they belong to.
#[derive(Copy, Clone, PartialEq, Eq, Structural, Debug)]
pub struct NodeId(pub usize);

/// How one argument of a call is materialised.
#[derive(Copy, Clone)]
pub enum Arg {
    /// Evaluate the sub-expression with this node id inline.
    Expr(NodeId, BuiltinType),
    /// Reload from the stack slot at this offset, filled by an earlier
    /// spill.
    Stack(i32, BuiltinType),
    /// The receiver of a constructor call, to be allocated with the call.
    SelfieNew(BuiltinType),
    /// The implicit receiver of a method call, already computed.
    Selfie(BuiltinType),
}

impl Arg {
    /// The type the argument carries, whatever its source.
    pub open spec fn spec_ty(self) -> BuiltinType {
        match self {
            Arg::Expr(_, ty) => ty,
            Arg::Stack(_, ty) => ty,
            Arg::Selfie(ty) => ty,
            Arg::SelfieNew(ty) => ty,
        }
    }

    pub fn ty(&self) -> (r: BuiltinType)
        ensures
            r == self.spec_ty(),
    {
        match *self {
            Arg::Expr(_, ty) => ty,
            Arg::Stack(_, ty) => ty,
            Arg::Selfie(ty) => ty,
            Arg::SelfieNew(ty) => ty,
        }
    }

    pub fn is_selfie_new(&self) -> (r: bool)
        ensures
            r == (self is SelfieNew),
    {
        match *self {
            Arg::SelfieNew(_) => true,
            _ => false,
        }
    }
}

/// Everything the emitter needs to materialise one call.
pub struct CallSite {
    pub callee: FctId,
    pub cls_type_params: Vec<BuiltinType>,
    pub fct_type_params: Vec<BuiltinType>,
    pub args: Vec<Arg>,
    pub super_call: bool,
    pub return_type: BuiltinType,
}

/// Plan for one interpolated-string template: build a buffer, append each
/// part (converting non-string parts first), then turn the buffer into the
/// final string. The two offsets are frame slots reserved for the buffer
/// and the part under append.
pub struct TemplateJitInfo {
    pub string_buffer_offset: i32,
    pub string_part_offset: i32,
    pub string_buffer_new: CallSite,
    pub part_infos: Vec<TemplatePartJitInfo>,
    pub string_buffer_to_string: CallSite,
}

/// Plan for one part of a template: an optional conversion call, then the
/// append call.
pub struct TemplatePartJitInfo {
    pub object_offset: Option<i32>,
    pub to_string: Option<CallSite>,
    pub append: CallSite,
}

/// Values recorded under AST node ids. A later record for the same id
/// replaces the earlier one.
pub struct NodeMap<V> {
    entries: Vec<(usize, V)>,
}

impl<V> NodeMap<V> {
    /// Some value is recorded under the id.
    pub closed spec fn spec_has(self, id: NodeId) -> bool {
        exists|i: int| 0 <= i < self.entries@.len() && (#[trigger] self.entries@[i]).0 == id.0
    }

    /// Index of the record the id resolves to: the newest one.
    pub closed spec fn spec_index_of(self, id: NodeId) -> int {
        choose|i: int|
            0 <= i < self.entries@.len() && (#[trigger] self.entries@[i]).0 == id.0
                && forall|j: int|
                    i < j < self.entries@.len() ==> (#[trigger] self.entries@[j]).0 != id.0
    }

    /// The id resolves to this value.
    pub closed spec fn spec_maps_to(self, id: NodeId, v: V) -> bool {
        &&& self.spec_has(id)
        &&& {
            let i = self.spec_index_of(id);
            0 <= i < self.entries@.len() && self.entries@[i] == (id.0, v)
        }
    }

    pub fn new() -> (r: NodeMap<V>)
        ensures
            forall|id: NodeId| !r.spec_has(id),
    {
        NodeMap { entries: Vec::new() }
    }

    /// Record `v` under `id`, replacing what an earlier record said.
    pub fn insert(&mut self, id: NodeId, v: V)
        ensures
            final(self).spec_has(id),
            final(self).spec_maps_to(id, v),
            forall|other: NodeId|
                other.0 != id.0
                    ==> (#[trigger] final(self).spec_has(other) <==> old(self).spec_has(other)),
    {
        let ghost pre = self.entries@;
        self.entries.push((id.0, v));
        proof {
            let post = self.entries@;
            let n = pre.len() as int;
            assert(post[n] == (id.0, v));
            assert(self.spec_has(id));
            let i = self.spec_index_of(id);
            assert(0 <= i < post.len() && post[i].0 == id.0
                && forall|j: int| i < j < post.len() ==> (#[trigger] post[j]).0 != id.0) by {
                assert(post[n].0 == id.0
                    && forall|j: int| n < j < post.len() ==> (#[trigger] post[j]).0 != id.0);
            }
            assert(i == n);
            assert forall|other: NodeId|
                other.0 != id.0 && #[trigger] final(self).spec_has(other)
                    implies old(self).spec_has(other) by {
                let k = choose|k: int|
                    0 <= k < post.len() && (#[trigger] post[k]).0 == other.0;
                assert(pre[k] == post[k]);
            }
            assert forall|other: NodeId|
                other.0 != id.0 && #[trigger] old(self).spec_has(other)
                    implies final(self).spec_has(other) by {
                let k = choose|k: int|
                    0 <= k < pre.len() && (#[trigger] pre[k]).0 == other.0;
                assert(post[k] == pre[k]);
            }
        }
    }

    /// Look the id up; the newest record wins.
    #[verifier::loop_isolation(false)]
    pub fn get(&self, id: NodeId) -> (r: Option<&V>)
        ensures
            r is Some <==> self.spec_has(id),
            r matches Some(v) ==> self.spec_maps_to(id, *v),
    {
        let n: usize = self.entries.len();
        let mut i: usize = n;
        while i > 0
            invariant
                0 <= i <= n,
                forall|j: int| i <= j < n ==> (#[trigger] self.entries@[j]).0 != id.0,
            decreases i,
        {
            i = i - 1;
            if self.entries[i].0 == id.0 {
                proof {
                    assert(self.spec_has(id));
                    let w = self.spec_index_of(id);
                    assert(0 <= w < self.entries@.len() && self.entries@[w].0 == id.0
                        && forall|j: int|
                            w < j < self.entries@.len()
                                ==> (#[trigger] self.entries@[j]).0 != id.0) by {
                        assert(self.entries@[i as int].0 == id.0
                            && forall|j: int|
                                i < j < self.entries@.len()
                                    ==> (#[trigger] self.entries@[j]).0 != id.0);
                    }
                    assert(w == i);
                }
                return Some(&self.entries[i].1);
            }
        }
        proof {
            if self.spec_has(id) {
                let k = choose|k: int|
                    0 <= k < self.entries@.len() && (#[trigger] self.entries@[k]).0 == id.0;
                assert(false);
            }
        }
        None
    }
}

/// What the first pass hands to the second: the frame size and the plans,
/// keyed by AST node.
pub struct JitInfo {
    pub stacksize: i32,
    pub map_csites: NodeMap<CallSite>,
    pub map_templates: NodeMap<TemplateJitInfo>,
}

impl JitInfo {
    pub fn stacksize(&self) -> (r: i32)
        ensures
            r == self.stacksize,
    {
        self.stacksize
    }

    pub fn new() -> (r: JitInfo)
        ensures
            r.stacksize == 0,
            forall|id: NodeId| !r.map_csites.spec_has(id),
            forall|id: NodeId| !r.map_templates.spec_has(id),
    {
        JitInfo { stacksize: 0, map_csites: NodeMap::new(), map_templates: NodeMap::new() }
    }
}

} // verus!
