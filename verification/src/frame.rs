//! The two frame builders of the baseline compiler.
//!
//! [`StackFrame`] is the set-based variant: callers hand it offsets they
//! have already computed, and it tracks which offsets are live, which hold
//! references, and which belong to the open lexical scopes. It answers the
//! GC-point query with the current reference set.
//!
//! [`ManagedStackFrame`] is the richer variant: it owns the offsets. Each
//! allocation asks the free-slot arena for a hole, falls back to growing
//! the frame, and returns an opaque slot handle; scope exits and temp frees
//! return the bytes to the arena. Its invariant is the heart of the frame
//! manager: live slots never overlap each other or the free ranges, and
//! everything lies inside the current frame size.

use vstd::prelude::*;

use crate::mem::{align_i32, align_up, lemma_align_up_properties, ptr_width, PTR_WIDTH};
use crate::slots::{covers, is_best_fit, slot_fits, FreeSlot, FreeSlots};
use crate::ty::BuiltinType;

verus! {

/// Alignment the platform requires of a whole stack frame.
pub const STACK_FRAME_ALIGNMENT: i32 = 16;

/// Snapshot of the frame offsets that hold references at one code address.
/// The offsets form a set; their order carries no meaning.
pub struct GcPoint {
    pub offsets: Vec<i32>,
}

impl GcPoint {
    /// The snapshot lists the offset `o`.
    pub open spec fn has_offset(self, o: i32) -> bool {
        self.offsets@.contains(o)
    }

    pub fn from_offsets(offsets: Vec<i32>) -> (r: GcPoint)
        ensures
            r.offsets@ == offsets@,
    {
        GcPoint { offsets }
    }

    pub fn is_empty(&self) -> (r: bool)
        ensures
            r == (self.offsets@.len() == 0),
    {
        self.offsets.len() == 0
    }
}

/// The sequence holds no offset twice.
pub open spec fn nodup(s: Seq<i32>) -> bool {
    forall|i: int, j: int| 0 <= i < j < s.len() ==> s[i] != s[j]
}

/// Membership test on an offset list.
fn offsets_contain(v: &Vec<i32>, o: i32) -> (r: bool)
    ensures
        r == v@.contains(o),
{
    let n: usize = v.len();
    let mut i: usize = 0;
    while i < n
        invariant
            n == v@.len(),
            0 <= i <= n,
            forall|k: int| 0 <= k < i ==> v@[k] != o,
        decreases n - i,
    {
        if v[i] == o {
            return true;
        }
        i = i + 1;
    }
    false
}

/// Remove the one occurrence of `o` from a duplicate-free offset list.
#[verifier::loop_isolation(false)]
fn offsets_remove(v: &mut Vec<i32>, o: i32)
    requires
        nodup(old(v)@),
        old(v)@.contains(o),
    ensures
        nodup(final(v)@),
        final(v)@.len() == old(v)@.len() - 1,
        forall|x: i32| final(v)@.contains(x) <==> (old(v)@.contains(x) && x != o),
{
    let ghost gv = v@;
    let n: usize = v.len();
    let mut i: usize = 0;
    while i < n
        invariant
            v@ == gv,
            n == gv.len(),
            0 <= i <= n,
            forall|k: int| 0 <= k < i ==> gv[k] != o,
        decreases n - i,
    {
        if v[i] == o {
            proof {
                gv.remove_ensures(i as int);
                let r = gv.remove(i as int);
                assert forall|x: i32| r.contains(x) implies gv.contains(x) && x != o by {
                    let k = choose|k: int| 0 <= k < r.len() && r[k] == x;
                    if k < i {
                        assert(gv[k] == x);
                    } else {
                        assert(gv[k + 1] == x);
                    }
                }
                assert forall|x: i32| gv.contains(x) && x != o implies r.contains(x) by {
                    let k = choose|k: int| 0 <= k < gv.len() && gv[k] == x;
                    if k < i {
                        assert(r[k] == x);
                    } else {
                        assert(r[k - 1] == x);
                    }
                }
                assert forall|a: int, b: int| 0 <= a < b < r.len() implies r[a] != r[b] by {
                    if b < i {
                        assert(r[a] == gv[a] && r[b] == gv[b]);
                    } else if a < i {
                        assert(r[a] == gv[a] && r[b] == gv[b + 1]);
                    } else {
                        assert(r[a] == gv[a + 1] && r[b] == gv[b + 1]);
                    }
                }
            }
            v.remove(i);
            return;
        }
        i = i + 1;
    }
    proof {
        let k = choose|k: int| 0 <= k < gv.len() && gv[k] == o;
        assert(false);
    }
}

/// Appending an offset adds exactly it to the membership of the list.
proof fn lemma_push_contains(s: Seq<i32>, v: i32)
    ensures
        forall|x: i32| s.push(v).contains(x) <==> (s.contains(x) || x == v),
{
    let s2 = s.push(v);
    assert forall|x: i32| s2.contains(x) implies s.contains(x) || x == v by {
        let k = choose|k: int| 0 <= k < s2.len() && s2[k] == x;
        if k < s.len() {
            assert(s[k] == x);
        }
    }
    assert forall|x: i32| s.contains(x) || x == v implies s2.contains(x) by {
        if x == v {
            assert(s2[s.len() as int] == x);
        } else {
            let k = choose|k: int| 0 <= k < s.len() && s[k] == x;
            assert(s2[k] == x);
        }
    }
}

/// The variables declared in one lexical block, with the offset and type
/// each was given.
pub struct StackScope {
    pub vars: Vec<(i32, BuiltinType)>,
}

impl StackScope {
    pub fn new() -> (r: StackScope)
        ensures
            r.vars@ == Seq::<(i32, BuiltinType)>::empty(),
    {
        StackScope { vars: Vec::new() }
    }

    /// Record that the scope owns the variable at `offset`.
    pub fn add_var(&mut self, ty: BuiltinType, offset: i32)
        ensures
            final(self).vars@ == old(self).vars@.push((offset, ty)),
    {
        self.vars.push((offset, ty));
    }
}

/// The set-based frame: tracks live offsets handed in by the caller.
pub struct StackFrame {
    all: Vec<i32>,
    references: Vec<i32>,
    scopes: Vec<StackScope>,
}

impl StackFrame {
    /// The offset `o` is live, as a variable or a temporary.
    pub closed spec fn live(self, o: i32) -> bool {
        self.all@.contains(o)
    }

    /// The offset `o` is live and holds a reference.
    pub closed spec fn is_ref(self, o: i32) -> bool {
        self.references@.contains(o)
    }

    /// Number of open scopes.
    pub closed spec fn open_scopes(self) -> nat {
        self.scopes@.len()
    }

    /// The scope at index `s` declares the offset `o`.
    pub closed spec fn scope_has(self, s: int, o: i32) -> bool {
        exists|k: int|
            0 <= k < self.scopes@[s].vars@.len() && (#[trigger] self.scopes@[s].vars@[k]).0 == o
    }

    /// Some open scope declares the offset `o`.
    pub open spec fn scoped(self, o: i32) -> bool {
        exists|s: int| 0 <= s < self.open_scopes() && #[trigger] self.scope_has(s, o)
    }

    /// Nothing is tracked at all.
    pub closed spec fn spec_is_empty(self) -> bool {
        self.scopes@.len() == 0 && self.all@.len() == 0 && self.references@.len() == 0
    }

    /// The live offsets, in insertion order.
    pub closed spec fn all_list(self) -> Seq<i32> {
        self.all@
    }

    /// The reference-holding offsets, in insertion order.
    pub closed spec fn ref_list(self) -> Seq<i32> {
        self.references@
    }

    /// The frame invariant: the live set and the reference set hold no
    /// duplicates, references are live, every scoped variable is live with
    /// a reference entry exactly when its type is a reference type, and no
    /// offset is declared twice across the open scopes.
    pub closed spec fn wf(self) -> bool {
        &&& nodup(self.all@)
        &&& nodup(self.references@)
        &&& forall|o: i32| self.references@.contains(o) ==> self.all@.contains(o)
        &&& forall|s: int, k: int|
            0 <= s < self.scopes@.len() && 0 <= k < self.scopes@[s].vars@.len() ==> {
                let entry = #[trigger] self.scopes@[s].vars@[k];
                &&& self.all@.contains(entry.0)
                &&& entry.1.spec_is_reference() <==> self.references@.contains(entry.0)
            }
        &&& forall|s1: int, k1: int, s2: int, k2: int|
            0 <= s1 < self.scopes@.len() && 0 <= k1 < self.scopes@[s1].vars@.len()
                && 0 <= s2 < self.scopes@.len() && 0 <= k2 < self.scopes@[s2].vars@.len()
                && (s1 != s2 || k1 != k2)
                ==> (#[trigger] self.scopes@[s1].vars@[k1]).0
                    != (#[trigger] self.scopes@[s2].vars@[k2]).0
    }

    pub fn new() -> (r: StackFrame)
        ensures
            r.wf(),
            r.spec_is_empty(),
            forall|o: i32| !r.live(o),
            r.open_scopes() == 0,
    {
        StackFrame { all: Vec::new(), references: Vec::new(), scopes: Vec::new() }
    }

    /// No scope is open and no variable or temporary is outstanding;
    /// asserted by callers when a function body has been fully lowered.
    pub fn is_empty(&self) -> (r: bool)
        ensures
            r == self.spec_is_empty(),
    {
        self.scopes.len() == 0 && self.all.len() == 0 && self.references.len() == 0
    }

    pub fn push_scope(&mut self)
        requires
            old(self).wf(),
        ensures
            final(self).wf(),
            final(self).open_scopes() == old(self).open_scopes() + 1,
            forall|o: i32| final(self).live(o) <==> old(self).live(o),
            forall|o: i32| final(self).is_ref(o) <==> old(self).is_ref(o),
            forall|s: int, o: i32|
                0 <= s < old(self).open_scopes()
                    ==> (#[trigger] final(self).scope_has(s, o) <==> old(self).scope_has(s, o)),
            forall|o: i32| !final(self).scope_has(old(self).open_scopes() as int, o),
    {
        self.scopes.push(StackScope::new());
        proof {
            let pre = *old(self);
            let post = *self;
            let os = pre.scopes@;
            let ns = post.scopes@;
            assert forall|s: int, o: i32|
                0 <= s < os.len() && #[trigger] post.scope_has(s, o)
                    implies pre.scope_has(s, o) by {
                assert(ns[s] == os[s]);
                let k = choose|k: int|
                    0 <= k < ns[s].vars@.len() && (#[trigger] ns[s].vars@[k]).0 == o;
                assert((os[s].vars@[k]).0 == o);
            }
            assert forall|s: int, o: i32|
                0 <= s < os.len() && #[trigger] pre.scope_has(s, o)
                    implies post.scope_has(s, o) by {
                assert(ns[s] == os[s]);
                let k = choose|k: int|
                    0 <= k < os[s].vars@.len() && (#[trigger] os[s].vars@[k]).0 == o;
                assert((ns[s].vars@[k]).0 == o);
            }
            assert forall|o: i32| !post.scope_has(os.len() as int, o) by {
                if post.scope_has(os.len() as int, o) {
                    let k = choose|k: int|
                        0 <= k < ns[os.len() as int].vars@.len()
                            && (#[trigger] ns[os.len() as int].vars@[k]).0 == o;
                    assert(false);
                }
            }
            assert forall|s1: int, k1: int, s2: int, k2: int|
                0 <= s1 < ns.len() && 0 <= k1 < ns[s1].vars@.len()
                    && 0 <= s2 < ns.len() && 0 <= k2 < ns[s2].vars@.len()
                    && (s1 != s2 || k1 != k2)
                    implies (#[trigger] ns[s1].vars@[k1]).0
                        != (#[trigger] ns[s2].vars@[k2]).0 by {
                assert(s1 < os.len() && s2 < os.len());
                assert(ns[s1] == os[s1] && ns[s2] == os[s2]);
            }
            assert forall|s: int, k: int|
                0 <= s < ns.len() && 0 <= k < ns[s].vars@.len()
                    implies {
                    let entry = #[trigger] ns[s].vars@[k];
                    &&& post.all@.contains(entry.0)
                    &&& entry.1.spec_is_reference() <==> post.references@.contains(entry.0)
                } by {
                assert(s < os.len());
                assert(ns[s] == os[s]);
            }
        }
    }

    /// Make the offset live, owned by the innermost scope.
    pub fn add_var(&mut self, ty: BuiltinType, offset: i32)
        requires
            old(self).wf(),
            old(self).open_scopes() > 0,
            !old(self).live(offset),
        ensures
            final(self).wf(),
            final(self).open_scopes() == old(self).open_scopes(),
            forall|o: i32| final(self).live(o) <==> (old(self).live(o) || o == offset),
            forall|o: i32|
                final(self).is_ref(o)
                    <==> (old(self).is_ref(o) || (o == offset && ty.spec_is_reference())),
            final(self).scoped(offset),
    {
        let ghost pre = *self;
        if ty.reference_type() {
            self.references.push(offset);
        }
        self.all.push(offset);

        let last = self.scopes.len() - 1;
        let scope = &mut self.scopes[last];
        scope.add_var(ty, offset);

        proof {
            let post = *self;
            let li = pre.scopes@.len() - 1;
            assert(post.all@ == pre.all@.push(offset));
            lemma_push_contains(pre.all@, offset);
            if ty.spec_is_reference() {
                assert(post.references@ == pre.references@.push(offset));
                lemma_push_contains(pre.references@, offset);
            } else {
                assert(post.references@ == pre.references@);
            }
            assert(post.scopes@[li].vars@ == pre.scopes@[li].vars@.push((offset, ty)));
            assert(post.scopes@[li].vars@.last() == (offset, ty));
            assert(post.scope_has(li, offset));
            assert(post.scoped(offset));
            assert forall|o: i32| post.all@.contains(o)
                implies (pre.all@.contains(o) || o == offset) by {
                let k = choose|k: int| 0 <= k < post.all@.len() && post.all@[k] == o;
                if k < pre.all@.len() {
                    assert(pre.all@[k] == o);
                }
            }
            if ty.spec_is_reference() {
                assert forall|o: i32| post.references@.contains(o)
                    implies (pre.references@.contains(o) || o == offset) by {
                    let k = choose|k: int|
                        0 <= k < post.references@.len() && post.references@[k] == o;
                    if k < pre.references@.len() {
                        assert(pre.references@[k] == o);
                    }
                }
            }
            assert forall|s: int, k: int|
                0 <= s < post.scopes@.len() && 0 <= k < post.scopes@[s].vars@.len()
                    implies {
                    let entry = #[trigger] post.scopes@[s].vars@[k];
                    &&& post.all@.contains(entry.0)
                    &&& entry.1.spec_is_reference() <==> post.references@.contains(entry.0)
                } by {
                if s != li || k < pre.scopes@[li].vars@.len() {
                    assert(post.scopes@[s].vars@[k] == pre.scopes@[s].vars@[k]);
                    let entry = pre.scopes@[s].vars@[k];
                    assert(pre.all@.contains(entry.0));
                    assert(post.all@ == pre.all@.push(offset));
                    let j = choose|j: int| 0 <= j < pre.all@.len() && pre.all@[j] == entry.0;
                    assert(post.all@[j] == entry.0);
                    if entry.1.spec_is_reference() {
                        let j2 = choose|j2: int|
                            0 <= j2 < pre.references@.len() && pre.references@[j2] == entry.0;
                        if ty.spec_is_reference() {
                            assert(post.references@[j2] == entry.0);
                        }
                    }
                } else {
                    assert(post.scopes@[s].vars@[k] == (offset, ty));
                    assert(post.all@.last() == offset);
                    if ty.spec_is_reference() {
                        assert(post.references@.last() == offset);
                    }
                }
            }
            assert forall|s1: int, k1: int, s2: int, k2: int|
                0 <= s1 < post.scopes@.len() && 0 <= k1 < post.scopes@[s1].vars@.len()
                    && 0 <= s2 < post.scopes@.len() && 0 <= k2 < post.scopes@[s2].vars@.len()
                    && (s1 != s2 || k1 != k2)
                    implies (#[trigger] post.scopes@[s1].vars@[k1]).0
                        != (#[trigger] post.scopes@[s2].vars@[k2]).0 by {
                let e1_new = s1 == li && k1 == pre.scopes@[li].vars@.len();
                let e2_new = s2 == li && k2 == pre.scopes@[li].vars@.len();
                if e1_new && !e2_new {
                    assert(post.scopes@[s2].vars@[k2] == pre.scopes@[s2].vars@[k2]);
                    assert(pre.all@.contains(pre.scopes@[s2].vars@[k2].0));
                } else if !e1_new && e2_new {
                    assert(post.scopes@[s1].vars@[k1] == pre.scopes@[s1].vars@[k1]);
                    assert(pre.all@.contains(pre.scopes@[s1].vars@[k1].0));
                } else if !e1_new && !e2_new {
                    assert(post.scopes@[s1].vars@[k1] == pre.scopes@[s1].vars@[k1]);
                    assert(post.scopes@[s2].vars@[k2] == pre.scopes@[s2].vars@[k2]);
                }
            }
            if ty.spec_is_reference() {
                assert forall|a: int, b: int|
                    0 <= a < b < post.references@.len()
                        implies post.references@[a] != post.references@[b] by {
                    if b == pre.references@.len() {
                        assert(post.references@[a] == pre.references@[a]);
                        assert(pre.references@.contains(pre.references@[a]));
                        assert(pre.all@.contains(pre.references@[a]));
                    }
                }
            }
            assert forall|a: int, b: int|
                0 <= a < b < post.all@.len() implies post.all@[a] != post.all@[b] by {
                if b == pre.all@.len() {
                    assert(post.all@[a] == pre.all@[a]);
                    assert(pre.all@.contains(pre.all@[a]));
                }
            }
        }
    }

    /// The offset `o` appears among the first `upto` entries of a scope's
    /// variable list.
    pub open spec fn prefix_has(sv: Seq<(i32, BuiltinType)>, upto: int, o: i32) -> bool {
        exists|k: int| 0 <= k < upto && k < sv.len() && (#[trigger] sv[k]).0 == o
    }

    /// Close the innermost scope, releasing every variable it declared, in
    /// the order they were declared.
    #[verifier::loop_isolation(false)]
    #[verifier::rlimit(100)]
    pub fn pop_scope(&mut self)
        requires
            old(self).wf(),
            old(self).open_scopes() > 0,
        ensures
            final(self).wf(),
            final(self).open_scopes() == old(self).open_scopes() - 1,
            forall|o: i32|
                final(self).live(o)
                    <==> (old(self).live(o)
                        && !old(self).scope_has(old(self).open_scopes() - 1, o)),
            forall|o: i32|
                final(self).is_ref(o)
                    <==> (old(self).is_ref(o)
                        && !old(self).scope_has(old(self).open_scopes() - 1, o)),
            forall|s: int, o: i32|
                0 <= s < old(self).open_scopes() - 1
                    ==> (#[trigger] final(self).scope_has(s, o) <==> old(self).scope_has(s, o)),
    {
        let ghost pre = *old(self);
        let ghost li = pre.scopes@.len() - 1;
        let scope = self.scopes.pop().unwrap();
        let ghost sv = scope.vars@;
        proof {
            assert(sv == pre.scopes@[li].vars@);
            assert forall|s: int, o: i32|
                0 <= s < li && #[trigger] pre.scope_has(s, o)
                    implies self.scope_has(s, o) by {
                let k = choose|k: int|
                    0 <= k < pre.scopes@[s].vars@.len()
                        && (#[trigger] pre.scopes@[s].vars@[k]).0 == o;
                assert(self.scopes@[s] == pre.scopes@[s]);
                assert((self.scopes@[s].vars@[k]).0 == o);
            }
            assert forall|s: int, o: i32|
                0 <= s < li && #[trigger] self.scope_has(s, o)
                    implies pre.scope_has(s, o) by {
                let k = choose|k: int|
                    0 <= k < self.scopes@[s].vars@.len()
                        && (#[trigger] self.scopes@[s].vars@[k]).0 == o;
                assert(self.scopes@[s] == pre.scopes@[s]);
                assert((pre.scopes@[s].vars@[k]).0 == o);
            }
        }

        let n: usize = scope.vars.len();
        let mut i: usize = 0;
        while i < n
            invariant
                n == sv.len(),
                0 <= i <= n,
                self.scopes@ == pre.scopes@.subrange(0, li),
                nodup(self.all@),
                nodup(self.references@),
                forall|o: i32| #![trigger pre.all@.contains(o)]
                    self.all@.contains(o)
                        <==> (pre.all@.contains(o) && !Self::prefix_has(sv, i as int, o)),
                forall|o: i32| #![trigger pre.references@.contains(o)]
                    self.references@.contains(o)
                        <==> (pre.references@.contains(o) && !Self::prefix_has(sv, i as int, o)),
            decreases n - i,
        {
            let (offset, ty) = scope.vars[i];
            proof {
                assert(sv[i as int] == (offset, ty));
                assert(pre.scopes@[li].vars@[i as int] == (offset, ty));
                assert(pre.all@.contains(offset));
                assert forall|k: int| 0 <= k < i implies (#[trigger] sv[k]).0 != offset by {
                    assert(pre.scopes@[li].vars@[k] == sv[k]);
                }
                assert(!Self::prefix_has(sv, i as int, offset));
                assert(self.all@.contains(offset));
                if ty.spec_is_reference() {
                    assert(pre.references@.contains(offset));
                    assert(self.references@.contains(offset));
                } else {
                    assert(!pre.references@.contains(offset));
                }
            }
            if ty.reference_type() {
                offsets_remove(&mut self.references, offset);
            }
            offsets_remove(&mut self.all, offset);
            proof {
                assert forall|o: i32|
                    self.all@.contains(o)
                        == (pre.all@.contains(o) && !Self::prefix_has(sv, i + 1 as int, o)) by {
                    if Self::prefix_has(sv, i as int, o) {
                        let k = choose|k: int|
                            0 <= k < i && k < sv.len() && (#[trigger] sv[k]).0 == o;
                        assert(Self::prefix_has(sv, i + 1 as int, o));
                    }
                    if o == offset {
                        assert((sv[i as int]).0 == o);
                        assert(Self::prefix_has(sv, i + 1 as int, o));
                    }
                    if Self::prefix_has(sv, i + 1 as int, o) && !Self::prefix_has(sv, i as int, o)
                        && o != offset {
                        let k = choose|k: int|
                            0 <= k < i + 1 && k < sv.len() && (#[trigger] sv[k]).0 == o;
                        assert(false);
                    }
                }
                assert forall|o: i32|
                    self.references@.contains(o)
                        == (pre.references@.contains(o)
                            && !Self::prefix_has(sv, i + 1 as int, o)) by {
                    if Self::prefix_has(sv, i as int, o) {
                        let k = choose|k: int|
                            0 <= k < i && k < sv.len() && (#[trigger] sv[k]).0 == o;
                        assert(Self::prefix_has(sv, i + 1 as int, o));
                    }
                    if o == offset {
                        assert((sv[i as int]).0 == o);
                        assert(Self::prefix_has(sv, i + 1 as int, o));
                    }
                    if Self::prefix_has(sv, i + 1 as int, o) && !Self::prefix_has(sv, i as int, o)
                        && o != offset {
                        let k = choose|k: int|
                            0 <= k < i + 1 && k < sv.len() && (#[trigger] sv[k]).0 == o;
                        assert(false);
                    }
                }
            }
            i = i + 1;
        }

        proof {
            let post = *self;
            assert forall|o: i32| post.references@.contains(o)
                implies post.all@.contains(o) by {
                assert(pre.references@.contains(o));
                assert(pre.all@.contains(o));
            }
            // every entry of the popped scope is gone, nothing else changed
            assert forall|o: i32|
                post.all@.contains(o)
                    == (pre.all@.contains(o) && !pre.scope_has(li, o)) by {
                if Self::prefix_has(sv, n as int, o) {
                    let k = choose|k: int|
                        0 <= k < n && k < sv.len() && (#[trigger] sv[k]).0 == o;
                    assert((pre.scopes@[li].vars@[k]).0 == o);
                    assert(pre.scope_has(li, o));
                }
                if pre.scope_has(li, o) {
                    let k = choose|k: int|
                        0 <= k < pre.scopes@[li].vars@.len()
                            && (#[trigger] pre.scopes@[li].vars@[k]).0 == o;
                    assert((sv[k]).0 == o);
                    assert(Self::prefix_has(sv, n as int, o));
                }
            }
            assert forall|o: i32|
                post.references@.contains(o)
                    == (pre.references@.contains(o) && !pre.scope_has(li, o)) by {
                if Self::prefix_has(sv, n as int, o) {
                    let k = choose|k: int|
                        0 <= k < n && k < sv.len() && (#[trigger] sv[k]).0 == o;
                    assert((pre.scopes@[li].vars@[k]).0 == o);
                    assert(pre.scope_has(li, o));
                }
                if pre.scope_has(li, o) {
                    let k = choose|k: int|
                        0 <= k < pre.scopes@[li].vars@.len()
                            && (#[trigger] pre.scopes@[li].vars@[k]).0 == o;
                    assert((sv[k]).0 == o);
                    assert(Self::prefix_has(sv, n as int, o));
                }
            }
            // the surviving scopes' entries were distinct from the popped
            // scope's, so they are still live with the same reference status
            assert forall|s: int, k: int|
                0 <= s < post.scopes@.len() && 0 <= k < post.scopes@[s].vars@.len()
                    implies {
                    let entry = #[trigger] post.scopes@[s].vars@[k];
                    &&& post.all@.contains(entry.0)
                    &&& entry.1.spec_is_reference() <==> post.references@.contains(entry.0)
                } by {
                assert(post.scopes@[s] == pre.scopes@[s]);
                let entry = pre.scopes@[s].vars@[k];
                assert(pre.all@.contains(entry.0));
                if pre.scope_has(li, entry.0) {
                    let k2 = choose|k2: int|
                        0 <= k2 < pre.scopes@[li].vars@.len()
                            && (#[trigger] pre.scopes@[li].vars@[k2]).0 == entry.0;
                    assert(false);
                }
            }
            assert forall|s1: int, k1: int, s2: int, k2: int|
                0 <= s1 < post.scopes@.len() && 0 <= k1 < post.scopes@[s1].vars@.len()
                    && 0 <= s2 < post.scopes@.len() && 0 <= k2 < post.scopes@[s2].vars@.len()
                    && (s1 != s2 || k1 != k2)
                    implies (#[trigger] post.scopes@[s1].vars@[k1]).0
                        != (#[trigger] post.scopes@[s2].vars@[k2]).0 by {
                assert(post.scopes@[s1] == pre.scopes@[s1]);
                assert(post.scopes@[s2] == pre.scopes@[s2]);
            }
            assert forall|s: int, o: i32|
                0 <= s < li implies
                    (#[trigger] post.scope_has(s, o) <==> pre.scope_has(s, o)) by {
                assert(post.scopes@[s] == pre.scopes@[s]);
                if post.scope_has(s, o) {
                    let k = choose|k: int|
                        0 <= k < post.scopes@[s].vars@.len()
                            && (#[trigger] post.scopes@[s].vars@[k]).0 == o;
                    assert((pre.scopes@[s].vars@[k]).0 == o);
                }
                if pre.scope_has(s, o) {
                    let k = choose|k: int|
                        0 <= k < pre.scopes@[s].vars@.len()
                            && (#[trigger] pre.scopes@[s].vars@[k]).0 == o;
                    assert((post.scopes@[s].vars@[k]).0 == o);
                }
            }
        }
    }

    /// Make the offset live without tying it to a scope; the caller must
    /// release it again with `free_temp`.
    pub fn add_temp(&mut self, ty: BuiltinType, offset: i32)
        requires
            old(self).wf(),
            !old(self).live(offset),
        ensures
            final(self).wf(),
            final(self).open_scopes() == old(self).open_scopes(),
            forall|s: int, o: i32|
                0 <= s < old(self).open_scopes()
                    ==> (#[trigger] final(self).scope_has(s, o) <==> old(self).scope_has(s, o)),
            forall|o: i32| final(self).live(o) <==> (old(self).live(o) || o == offset),
            forall|o: i32|
                final(self).is_ref(o)
                    <==> (old(self).is_ref(o) || (o == offset && ty.spec_is_reference())),
    {
        let ghost pre = *old(self);
        if ty.reference_type() {
            self.references.push(offset);
        }
        self.all.push(offset);
        proof {
            let post = *self;
            lemma_push_contains(pre.all@, offset);
            if ty.spec_is_reference() {
                lemma_push_contains(pre.references@, offset);
            }
            assert(post.all@ == pre.all@.push(offset));
            assert forall|a: int, b: int|
                0 <= a < b < post.all@.len() implies post.all@[a] != post.all@[b] by {
                if b == pre.all@.len() {
                    assert(post.all@[a] == pre.all@[a]);
                    assert(pre.all@.contains(pre.all@[a]));
                }
            }
            if ty.spec_is_reference() {
                assert forall|a: int, b: int|
                    0 <= a < b < post.references@.len()
                        implies post.references@[a] != post.references@[b] by {
                    if b == pre.references@.len() {
                        assert(post.references@[a] == pre.references@[a]);
                        assert(pre.references@.contains(pre.references@[a]));
                        assert(pre.all@.contains(pre.references@[a]));
                    }
                }
            }
            assert forall|s: int, k: int|
                0 <= s < post.scopes@.len() && 0 <= k < post.scopes@[s].vars@.len()
                    implies {
                    let entry = #[trigger] post.scopes@[s].vars@[k];
                    &&& post.all@.contains(entry.0)
                    &&& entry.1.spec_is_reference() <==> post.references@.contains(entry.0)
                } by {
                let entry = pre.scopes@[s].vars@[k];
                assert(pre.all@.contains(entry.0));
            }
            assert forall|o: i32| post.references@.contains(o)
                implies post.all@.contains(o) by {
                if o == offset {
                    assert(post.all@.contains(offset));
                } else {
                    assert(pre.references@.contains(o));
                    assert(pre.all@.contains(o));
                }
            }
        }
    }

    /// Release a temporary made live with `add_temp`, handing back the type
    /// it was registered under.
    pub fn free_temp(&mut self, ty: BuiltinType, offset: i32)
        requires
            old(self).wf(),
            old(self).live(offset),
            ty.spec_is_reference() <==> old(self).is_ref(offset),
            !old(self).scoped(offset),
        ensures
            final(self).wf(),
            final(self).open_scopes() == old(self).open_scopes(),
            forall|s: int, o: i32|
                0 <= s < old(self).open_scopes()
                    ==> (#[trigger] final(self).scope_has(s, o) <==> old(self).scope_has(s, o)),
            forall|o: i32| final(self).live(o) <==> (old(self).live(o) && o != offset),
            forall|o: i32| final(self).is_ref(o) <==> (old(self).is_ref(o) && o != offset),
    {
        let ghost pre = *old(self);
        if ty.reference_type() {
            offsets_remove(&mut self.references, offset);
        }
        offsets_remove(&mut self.all, offset);
        proof {
            let post = *self;
            assert forall|s: int, k: int|
                0 <= s < post.scopes@.len() && 0 <= k < post.scopes@[s].vars@.len()
                    implies {
                    let entry = #[trigger] post.scopes@[s].vars@[k];
                    &&& post.all@.contains(entry.0)
                    &&& entry.1.spec_is_reference() <==> post.references@.contains(entry.0)
                } by {
                let entry = pre.scopes@[s].vars@[k];
                assert(pre.all@.contains(entry.0));
                assert(pre.scope_has(s, entry.0));
                assert(entry.0 != offset);
            }
        }
    }

    /// Snapshot of the reference-holding offsets: the GC point at the code
    /// address about to be emitted.
    #[verifier::loop_isolation(false)]
    pub fn gcpoint(&self) -> (r: GcPoint)
        ensures
            forall|o: i32| r.has_offset(o) <==> self.is_ref(o),
    {
        let mut offsets: Vec<i32> = Vec::new();
        let n: usize = self.references.len();
        let mut i: usize = 0;
        while i < n
            invariant
                0 <= i <= n,
                offsets@ == self.references@.subrange(0, i as int),
            decreases n - i,
        {
            offsets.push(self.references[i]);
            proof {
                assert(offsets@ =~= self.references@.subrange(0, i + 1 as int));
            }
            i = i + 1;
        }
        proof {
            assert(offsets@ =~= self.references@);
        }
        GcPoint::from_offsets(offsets)
    }
}


/// A set-based frame with no scope open and no offset live is empty, so a
/// balanced build — every scope popped, every temporary freed — ends with
/// `is_empty` true.
pub proof fn lemma_no_live_stack_frame_empty(f: StackFrame)
    requires
        f.wf(),
        f.open_scopes() == 0,
        forall|o: i32| !f.live(o),
    ensures
        f.spec_is_empty(),
{
    if f.all_list().len() > 0 {
        assert(f.all_list().contains(f.all_list()[0]));
        assert(f.live(f.all_list()[0]));
    }
    if f.ref_list().len() > 0 {
        assert(f.ref_list().contains(f.ref_list()[0]));
        assert(f.live(f.ref_list()[0]));
    }
}

/// Law: a set-based frame with no scope open and no offset outstanding
/// reports an empty GC point: no offset is listed as holding a reference.
pub proof fn lemma_empty_stack_frame_gc_point(f: StackFrame)
    requires
        f.spec_is_empty(),
    ensures
        forall|o: i32| !f.is_ref(o),
{
    assert forall|o: i32| !f.is_ref(o) by {
        if f.is_ref(o) {
            let k = choose|k: int| 0 <= k < f.references@.len() && f.references@[k] == o;
            assert(false);
        }
    }
}

/// Opaque identifier for a slot issued by the managed frame; ids are handed
/// out in increasing order and never reused within one frame build.
#[derive(Copy, Clone, PartialEq, Eq, Structural, Debug)]
pub struct ManagedVar(pub usize);

/// A slot handle: the id and the byte offset the frame assigned to it.
#[derive(Copy, Clone)]
pub struct ManagedStackSlot {
    pub var: ManagedVar,
    pub offset: i32,
}

impl ManagedStackSlot {
    pub fn offset(&self) -> (r: i32)
        ensures
            r == self.offset,
    {
        self.offset
    }
}

/// The slot ids declared in one lexical block of the managed frame.
pub struct ManagedStackScope {
    pub vars: Vec<ManagedVar>,
}

impl ManagedStackScope {
    pub fn new() -> (r: ManagedStackScope)
        ensures
            r.vars@ == Seq::<ManagedVar>::empty(),
    {
        ManagedStackScope { vars: Vec::new() }
    }

    /// Record that the scope owns the slot.
    pub fn add_var(&mut self, var: ManagedVar)
        ensures
            final(self).vars@ == old(self).vars@.push(var),
    {
        self.vars.push(var);
    }
}

/// A live slot of the managed frame: its id, its type and its offset.
pub type VarEntry = (ManagedVar, BuiltinType, i32);

/// First byte, in distance-from-frame-base coordinates, of the slot an
/// entry occupies: the slot at offset `-k` of size `s` covers distances
/// `k - s` up to `k`.
pub open spec fn entry_start(e: VarEntry) -> int {
    -e.2 - e.1.spec_size()
}

/// The entry's slot covers the distance coordinate `x`.
pub open spec fn entry_contains(e: VarEntry, x: int) -> bool {
    entry_start(e) <= x < entry_start(e) + e.1.spec_size()
}

/// The richer frame builder: owns the offsets, reuses holes through the
/// free-slot arena, and extends the frame when no hole fits.
pub struct ManagedStackFrame {
    vars: Vec<VarEntry>,
    scopes: Vec<ManagedStackScope>,
    next_var: ManagedVar,
    free_slots: FreeSlots,
    stacksize: i32,
}

impl ManagedStackFrame {
    /// The live entries of the frame.
    pub closed spec fn entries(self) -> Seq<VarEntry> {
        self.vars@
    }

    /// High-water mark of the frame, before final alignment.
    pub closed spec fn spec_stacksize(self) -> int {
        self.stacksize as int
    }

    /// Id the next allocation will receive.
    pub closed spec fn next_id(self) -> int {
        self.next_var.0 as int
    }

    /// Number of open scopes.
    pub closed spec fn open_scopes(self) -> nat {
        self.scopes@.len()
    }

    /// The open scopes, innermost last.
    pub closed spec fn scope_list(self) -> Seq<ManagedStackScope> {
        self.scopes@
    }

    /// The slot id `v` is live.
    pub open spec fn has_var(self, v: ManagedVar) -> bool {
        exists|i: int| 0 <= i < self.entries().len() && (#[trigger] self.entries()[i]).0 == v
    }

    /// The live slot `v` was allocated for type `ty` at offset `off`.
    pub open spec fn var_maps(self, v: ManagedVar, ty: BuiltinType, off: i32) -> bool {
        exists|i: int| 0 <= i < self.entries().len() && #[trigger] self.entries()[i] == (v, ty, off)
    }

    /// Some live slot covers the distance coordinate `x`.
    pub open spec fn live_at(self, x: int) -> bool {
        exists|i: int|
            0 <= i < self.entries().len() && entry_contains(#[trigger] self.entries()[i], x)
    }

    /// Some live reference-typed slot sits at offset `o`.
    pub open spec fn ref_at(self, o: i32) -> bool {
        exists|i: int|
            0 <= i < self.entries().len() && (#[trigger] self.entries()[i]).1.spec_is_reference()
                && self.entries()[i].2 == o
    }

    /// The live slot with id `v` covers the distance coordinate `x`.
    pub open spec fn entry_of(self, v: ManagedVar, x: int) -> bool {
        exists|i: int|
            0 <= i < self.entries().len() && (#[trigger] self.entries()[i]).0 == v
                && entry_contains(self.entries()[i], x)
    }

    /// Some slot owned by scope `s` covers the distance coordinate `x`.
    pub open spec fn scope_frees(self, s: int, x: int) -> bool {
        exists|i: int|
            0 <= i < self.entries().len()
                && self.scope_has(s, (#[trigger] self.entries()[i]).0)
                && entry_contains(self.entries()[i], x)
    }

    /// The distance coordinate `x` lies in a free range of the arena.
    pub closed spec fn free_covers(self, x: int) -> bool {
        covers(self.free_slots.slots@, x)
    }

    /// The arena's free ranges, for contracts that speak of the
    /// allocation policy.
    pub closed spec fn arena(self) -> Seq<FreeSlot> {
        self.free_slots.slots@
    }

    /// The scope at index `s` owns the slot id `v`.
    pub closed spec fn scope_has(self, s: int, v: ManagedVar) -> bool {
        exists|k: int|
            0 <= k < self.scopes@[s].vars@.len() && #[trigger] self.scopes@[s].vars@[k] == v
    }

    /// Some open scope owns the slot id `v`.
    pub open spec fn scoped(self, v: ManagedVar) -> bool {
        exists|s: int| 0 <= s < self.open_scopes() && #[trigger] self.scope_has(s, v)
    }

    /// No scope is open and no slot is live.
    pub closed spec fn spec_is_empty(self) -> bool {
        self.scopes@.len() == 0 && self.vars@.len() == 0
    }

    /// The frame invariant. The free ranges and the live slots all lie
    /// inside the frame; no two live slots overlap; no live slot overlaps a
    /// free range; slot ids are unique and below the issue counter; every
    /// scoped id is live and owned by exactly one scope position.
    pub closed spec fn wf(self) -> bool {
        &&& 0 <= self.stacksize
        &&& self.free_slots.wf()
        &&& forall|x: int| #[trigger] covers(self.free_slots.slots@, x) ==> 0 <= x < self.stacksize
        &&& forall|i: int| 0 <= i < self.vars@.len() ==> {
            let e = #[trigger] self.vars@[i];
            &&& e.1.spec_size() > 0
            &&& 0 <= entry_start(e)
            &&& entry_start(e) + e.1.spec_size() <= self.stacksize
            &&& e.0.0 < self.next_var.0
        }
        &&& forall|i: int, j: int|
            0 <= i < j < self.vars@.len()
                ==> (#[trigger] self.vars@[i]).0 != (#[trigger] self.vars@[j]).0
        &&& forall|i: int, j: int, x: int|
            0 <= i < self.vars@.len() && 0 <= j < self.vars@.len() && i != j
                && #[trigger] entry_contains(self.vars@[i], x)
                ==> !(#[trigger] entry_contains(self.vars@[j], x))
        &&& forall|i: int, x: int|
            0 <= i < self.vars@.len() && #[trigger] entry_contains(self.vars@[i], x)
                ==> !covers(self.free_slots.slots@, x)
        &&& forall|s: int, k: int|
            0 <= s < self.scopes@.len() && 0 <= k < self.scopes@[s].vars@.len()
                ==> self.has_var(#[trigger] self.scopes@[s].vars@[k])
        &&& forall|s1: int, k1: int, s2: int, k2: int|
            0 <= s1 < self.scopes@.len() && 0 <= k1 < self.scopes@[s1].vars@.len()
                && 0 <= s2 < self.scopes@.len() && 0 <= k2 < self.scopes@[s2].vars@.len()
                && (s1 != s2 || k1 != k2)
                ==> #[trigger] self.scopes@[s1].vars@[k1] != #[trigger] self.scopes@[s2].vars@[k2]
    }

    /// Two frame states with the same scope stack own the same ids in the
    /// same scopes.
    proof fn lemma_scopes_preserved(pre: ManagedStackFrame, post: ManagedStackFrame)
        requires
            post.scope_list() == pre.scope_list(),
        ensures
            forall|s: int, v: ManagedVar|
                0 <= s < pre.open_scopes()
                    ==> (#[trigger] post.scope_has(s, v) <==> pre.scope_has(s, v)),
    {
        let os = pre.scopes@;
        assert forall|s: int, v: ManagedVar|
            0 <= s < os.len() && #[trigger] post.scope_has(s, v)
                implies pre.scope_has(s, v) by {
            let k = choose|k: int|
                0 <= k < post.scopes@[s].vars@.len() && #[trigger] post.scopes@[s].vars@[k] == v;
            assert(pre.scopes@[s].vars@[k] == v);
        }
        assert forall|s: int, v: ManagedVar|
            0 <= s < os.len() && #[trigger] pre.scope_has(s, v)
                implies post.scope_has(s, v) by {
            let k = choose|k: int|
                0 <= k < pre.scopes@[s].vars@.len() && #[trigger] pre.scopes@[s].vars@[k] == v;
            assert(post.scopes@[s].vars@[k] == v);
        }
    }

    /// Two frame states with the same entry list have the same live slots,
    /// the same mappings and the same occupied bytes.
    proof fn lemma_entries_preserved(pre: ManagedStackFrame, post: ManagedStackFrame)
        requires
            post.vars@ == pre.vars@,
        ensures
            forall|v: ManagedVar| #[trigger] post.has_var(v) <==> pre.has_var(v),
            forall|v: ManagedVar, t: BuiltinType, o: i32|
                #[trigger] post.var_maps(v, t, o) <==> pre.var_maps(v, t, o),
            forall|x: int| #[trigger] post.live_at(x) <==> pre.live_at(x),
            forall|o: i32| #[trigger] post.ref_at(o) <==> pre.ref_at(o),
    {
        assert(post.entries() == pre.entries());
        assert forall|v: ManagedVar| #[trigger] post.has_var(v) <==> pre.has_var(v) by {
            if post.has_var(v) {
                let i = choose|i: int|
                    0 <= i < post.entries().len() && (#[trigger] post.entries()[i]).0 == v;
                assert((pre.entries()[i]).0 == v);
            }
            if pre.has_var(v) {
                let i = choose|i: int|
                    0 <= i < pre.entries().len() && (#[trigger] pre.entries()[i]).0 == v;
                assert((post.entries()[i]).0 == v);
            }
        }
        assert forall|v: ManagedVar, t: BuiltinType, o: i32|
            #[trigger] post.var_maps(v, t, o) <==> pre.var_maps(v, t, o) by {
            if post.var_maps(v, t, o) {
                let i = choose|i: int|
                    0 <= i < post.entries().len() && #[trigger] post.entries()[i] == (v, t, o);
                assert(pre.entries()[i] == (v, t, o));
            }
            if pre.var_maps(v, t, o) {
                let i = choose|i: int|
                    0 <= i < pre.entries().len() && #[trigger] pre.entries()[i] == (v, t, o);
                assert(post.entries()[i] == (v, t, o));
            }
        }
        assert forall|x: int| #[trigger] post.live_at(x) <==> pre.live_at(x) by {
            if post.live_at(x) {
                let i = choose|i: int|
                    0 <= i < post.entries().len()
                        && entry_contains(#[trigger] post.entries()[i], x);
                assert(entry_contains(pre.entries()[i], x));
            }
            if pre.live_at(x) {
                let i = choose|i: int|
                    0 <= i < pre.entries().len()
                        && entry_contains(#[trigger] pre.entries()[i], x);
                assert(entry_contains(post.entries()[i], x));
            }
        }
        assert forall|o: i32| #[trigger] post.ref_at(o) <==> pre.ref_at(o) by {
            if post.ref_at(o) {
                let i = choose|i: int|
                    0 <= i < post.entries().len()
                        && (#[trigger] post.entries()[i]).1.spec_is_reference()
                        && post.entries()[i].2 == o;
                assert((pre.entries()[i]).1.spec_is_reference() && pre.entries()[i].2 == o);
            }
            if pre.ref_at(o) {
                let i = choose|i: int|
                    0 <= i < pre.entries().len()
                        && (#[trigger] pre.entries()[i]).1.spec_is_reference()
                        && pre.entries()[i].2 == o;
                assert((post.entries()[i]).1.spec_is_reference() && post.entries()[i].2 == o);
            }
        }
    }

    pub fn new() -> (r: ManagedStackFrame)
        ensures
            r.wf(),
            r.spec_is_empty(),
            r.spec_stacksize() == 0,
            r.next_id() == 0,
            r.open_scopes() == 0,
            r.entries().len() == 0,
    {
        ManagedStackFrame {
            vars: Vec::new(),
            scopes: Vec::new(),
            next_var: ManagedVar(0),
            free_slots: FreeSlots::new(),
            stacksize: 0,
        }
    }

    /// No scope is open and no variable or temporary is outstanding.
    pub fn is_empty(&self) -> (r: bool)
        ensures
            r == self.spec_is_empty(),
    {
        self.scopes.len() == 0 && self.vars.len() == 0
    }

    pub fn push_scope(&mut self)
        requires
            old(self).wf(),
        ensures
            final(self).wf(),
            final(self).open_scopes() == old(self).open_scopes() + 1,
            final(self).entries() == old(self).entries(),
            final(self).spec_stacksize() == old(self).spec_stacksize(),
            final(self).next_id() == old(self).next_id(),
            forall|s: int, v: ManagedVar|
                0 <= s < old(self).open_scopes()
                    ==> (#[trigger] final(self).scope_has(s, v) <==> old(self).scope_has(s, v)),
            forall|v: ManagedVar| !final(self).scope_has(old(self).open_scopes() as int, v),
    {
        self.scopes.push(ManagedStackScope::new());
        proof {
            let pre = *old(self);
            let post = *self;
            let os = pre.scopes@;
            let ns = post.scopes@;
            assert forall|s: int, v: ManagedVar|
                0 <= s < os.len() && #[trigger] post.scope_has(s, v)
                    implies pre.scope_has(s, v) by {
                assert(ns[s] == os[s]);
                let k = choose|k: int|
                    0 <= k < ns[s].vars@.len() && #[trigger] ns[s].vars@[k] == v;
                assert(os[s].vars@[k] == v);
            }
            assert forall|s: int, v: ManagedVar|
                0 <= s < os.len() && #[trigger] pre.scope_has(s, v)
                    implies post.scope_has(s, v) by {
                assert(ns[s] == os[s]);
                let k = choose|k: int|
                    0 <= k < os[s].vars@.len() && #[trigger] os[s].vars@[k] == v;
                assert(ns[s].vars@[k] == v);
            }
            assert forall|v: ManagedVar| !post.scope_has(os.len() as int, v) by {
                if post.scope_has(os.len() as int, v) {
                    let k = choose|k: int|
                        0 <= k < ns[os.len() as int].vars@.len()
                            && #[trigger] ns[os.len() as int].vars@[k] == v;
                    assert(false);
                }
            }
            assert forall|s: int, k: int|
                0 <= s < ns.len() && 0 <= k < ns[s].vars@.len()
                    implies post.has_var(#[trigger] ns[s].vars@[k]) by {
                assert(s < os.len());
                assert(ns[s] == os[s]);
                assert(pre.has_var(os[s].vars@[k]));
                let i = choose|i: int|
                    0 <= i < pre.entries().len() && (#[trigger] pre.entries()[i]).0
                        == os[s].vars@[k];
                assert((post.entries()[i]).0 == ns[s].vars@[k]);
            }
            assert forall|s1: int, k1: int, s2: int, k2: int|
                0 <= s1 < ns.len() && 0 <= k1 < ns[s1].vars@.len()
                    && 0 <= s2 < ns.len() && 0 <= k2 < ns[s2].vars@.len()
                    && (s1 != s2 || k1 != k2)
                    implies #[trigger] ns[s1].vars@[k1] != #[trigger] ns[s2].vars@[k2] by {
                assert(s1 < os.len() && s2 < os.len());
                assert(ns[s1] == os[s1] && ns[s2] == os[s2]);
            }
        }
    }

    /// Grow the frame: round the high-water mark up to the requested
    /// alignment and reserve `size` bytes past it. Returns the offset of
    /// the new bytes; the mark never decreases.
    pub fn extend_stack(&mut self, size: i32, alignment: i32) -> (r: i32)
        requires
            old(self).wf(),
            0 < size,
            0 < alignment,
            align_up(old(self).spec_stacksize(), alignment as int) + size <= i32::MAX,
        ensures
            final(self).wf(),
            final(self).spec_stacksize()
                == align_up(old(self).spec_stacksize(), alignment as int) + size,
            r == -final(self).spec_stacksize(),
            final(self).spec_stacksize() >= old(self).spec_stacksize() + size,
            final(self).entries() == old(self).entries(),
            final(self).scope_list() == old(self).scope_list(),
            final(self).open_scopes() == old(self).open_scopes(),
            forall|s: int, v: ManagedVar|
                0 <= s < old(self).open_scopes()
                    ==> (#[trigger] final(self).scope_has(s, v) <==> old(self).scope_has(s, v)),
            final(self).next_id() == old(self).next_id(),
            forall|x: int|
                #[trigger] final(self).free_covers(x) <==> old(self).free_covers(x),
    {
        proof {
            lemma_align_up_properties(self.stacksize as int, alignment as int);
        }
        self.stacksize = align_i32(self.stacksize, alignment) + size;
        proof {
            Self::lemma_scopes_preserved(*old(self), *self);
            Self::lemma_entries_preserved(*old(self), *self);
        }
        -self.stacksize
    }

    /// Reserve a starting frame area (for instance for argument passing)
    /// before any allocation has happened.
    pub fn initial_stacksize(&mut self, size: i32)
        requires
            old(self).wf(),
            old(self).spec_stacksize() == 0,
            0 <= size,
        ensures
            final(self).wf(),
            final(self).spec_stacksize() == size,
            final(self).entries() == old(self).entries(),
            final(self).scope_list() == old(self).scope_list(),
            final(self).open_scopes() == old(self).open_scopes(),
            forall|s: int, v: ManagedVar|
                0 <= s < old(self).open_scopes()
                    ==> (#[trigger] final(self).scope_has(s, v) <==> old(self).scope_has(s, v)),
            final(self).next_id() == old(self).next_id(),
            forall|x: int|
                #[trigger] final(self).free_covers(x) <==> old(self).free_covers(x),
    {
        self.stacksize = size;
        proof {
            Self::lemma_scopes_preserved(*old(self), *self);
            Self::lemma_entries_preserved(*old(self), *self);
        }
    }

    /// Issue a fresh slot for a value of type `ty`. The best-fitting free
    /// hole is reused; when none fits, the frame grows. Either way the
    /// bytes the slot receives were not live before the call, so no live
    /// slot is disturbed, and the frame size never decreases.
    #[verifier::rlimit(80)]
    pub fn allocate(&mut self, ty: BuiltinType) -> (slot: ManagedStackSlot)
        requires
            old(self).wf(),
            ty.spec_size() > 0,
            old(self).spec_stacksize() + 16 <= i32::MAX,
            old(self).next_id() < usize::MAX,
        ensures
            final(self).wf(),
            slot.var.0 == old(self).next_id(),
            !old(self).has_var(slot.var),
            final(self).next_id() == old(self).next_id() + 1,
            final(self).entries() == old(self).entries().push((slot.var, ty, slot.offset)),
            final(self).var_maps(slot.var, ty, slot.offset),
            forall|v: ManagedVar|
                #[trigger] final(self).has_var(v) <==> (old(self).has_var(v) || v == slot.var),
            old(self).spec_stacksize() <= final(self).spec_stacksize()
                <= old(self).spec_stacksize() + 16,
            final(self).open_scopes() == old(self).open_scopes(),
            forall|s: int, v: ManagedVar|
                0 <= s < old(self).open_scopes()
                    ==> (#[trigger] final(self).scope_has(s, v) <==> old(self).scope_has(s, v)),
            -final(self).spec_stacksize() <= slot.offset < 0,
            forall|x: int|
                #[trigger] entry_contains((slot.var, ty, slot.offset), x)
                    ==> !old(self).live_at(x),
            // the allocation policy: when a free range can serve the
            // request, the best fit is reused and the frame keeps its size
            (exists|i: int|
                #[trigger] is_best_fit(
                    old(self).arena(), ty.spec_size() as u32, ty.spec_align() as u32, i))
                ==> {
                &&& final(self).spec_stacksize() == old(self).spec_stacksize()
                &&& exists|i: int|
                    #[trigger] is_best_fit(
                        old(self).arena(), ty.spec_size() as u32, ty.spec_align() as u32, i)
                        && slot.offset == -(align_up(
                            old(self).arena()[i].start as int, ty.spec_align() as int)
                            + ty.spec_size())
                &&& forall|x: int|
                    #[trigger] final(self).free_covers(x)
                        <==> (old(self).free_covers(x)
                            && !entry_contains((slot.var, ty, slot.offset), x))
            },
            // and when none can, the frame is extended past its aligned
            // high-water mark, leaving the free ranges alone
            (forall|i: int|
                0 <= i < old(self).arena().len()
                    ==> !slot_fits(
                        #[trigger] old(self).arena()[i],
                        ty.spec_size() as u32, ty.spec_align() as u32))
                ==> {
                &&& final(self).spec_stacksize()
                    == align_up(old(self).spec_stacksize(), ty.spec_align() as int)
                        + ty.spec_size()
                &&& slot.offset == -final(self).spec_stacksize()
                &&& forall|x: int|
                    #[trigger] final(self).free_covers(x) <==> old(self).free_covers(x)
            },
    {
        let ghost pre = *old(self);
        let var = self.next_var;
        self.next_var = ManagedVar(var.0 + 1);

        let (size, alignment) = if ty.is_nil() {
            (ptr_width(), ptr_width())
        } else {
            (ty.size(), ty.align())
        };
        proof {
            assert(size == ty.spec_size());
            assert(alignment == ty.spec_align());
            assert(1 <= size <= 8 && 1 <= alignment <= 8);
        }

        let res = self.free_slots.allocate(size as u32, alignment as u32);
        let ghost m1 = *self;

        let offset: i32;
        if let Some(free_start) = res {
            proof {
                assert(pre.free_slots.spec_covers(free_start as int));
                assert(free_start + size <= pre.spec_stacksize()) by {
                    assert(pre.free_slots.spec_covers(free_start + size - 1));
                }
            }
            offset = -((free_start as i32) + size);
        } else {
            proof {
                lemma_align_up_properties(self.stacksize as int, alignment as int);
                Self::lemma_entries_preserved(pre, *self);
                Self::lemma_scopes_preserved(pre, *self);
            }
            offset = self.extend_stack(size, alignment);
        }

        let ghost mid = *self;
        let entry = (var, ty, offset);
        self.vars.push(entry);
        let slot = ManagedStackSlot { var, offset };

        proof {
            let post = *self;
            let es = pre.entries();
            assert(post.entries() == es.push(entry));
            assert(post.entries()[es.len() as int] == entry);
            assert(post.var_maps(var, ty, offset));
            // the new slot's bytes were free or beyond the old frame end
            assert(entry_start(entry) >= 0);
            assert(entry_start(entry) + ty.spec_size() <= post.spec_stacksize());
            assert forall|x: int| #[trigger] entry_contains(entry, x)
                implies !pre.live_at(x) && !covers(mid.free_slots.slots@, x) by {
                if res is Some {
                    assert(pre.free_slots.spec_covers(x));
                    if pre.live_at(x) {
                        let i = choose|i: int|
                            0 <= i < es.len() && entry_contains(#[trigger] es[i], x);
                        assert(!covers(pre.free_slots.slots@, x));
                    }
                } else {
                    assert(x >= pre.spec_stacksize());
                    if pre.live_at(x) {
                        let i = choose|i: int|
                            0 <= i < es.len() && entry_contains(#[trigger] es[i], x);
                        assert(entry_start(es[i]) + es[i].1.spec_size() <= pre.spec_stacksize());
                    }
                    if covers(mid.free_slots.slots@, x) {
                        assert(mid.free_covers(x));
                        assert(m1.free_covers(x));
                        assert(covers(pre.free_slots.slots@, x));
                        assert(x < pre.spec_stacksize());
                    }
                }
            }
            // well-formedness of the grown entry list
            assert forall|i: int| 0 <= i < post.vars@.len() implies {
                let e = #[trigger] post.vars@[i];
                &&& e.1.spec_size() > 0
                &&& 0 <= entry_start(e)
                &&& entry_start(e) + e.1.spec_size() <= post.stacksize
                &&& e.0.0 < post.next_var.0
            } by {
                if i < es.len() {
                    assert(post.vars@[i] == es[i]);
                    assert(es[i].1.spec_size() > 0 && 0 <= entry_start(es[i]));
                    assert(entry_start(es[i]) + es[i].1.spec_size() <= pre.spec_stacksize());
                } else {
                    assert(post.vars@[i] == entry);
                }
            }
            assert forall|i: int, j: int| 0 <= i < j < post.vars@.len()
                implies (#[trigger] post.vars@[i]).0 != (#[trigger] post.vars@[j]).0 by {
                if j < es.len() {
                    assert(post.vars@[i] == es[i] && post.vars@[j] == es[j]);
                } else {
                    assert(post.vars@[i] == es[i] && post.vars@[j] == entry);
                    assert(es[i].0.0 < pre.next_var.0);
                }
            }
            assert forall|i: int, j: int, x: int|
                0 <= i < post.vars@.len() && 0 <= j < post.vars@.len() && i != j
                    && #[trigger] entry_contains(post.vars@[i], x)
                    implies !(#[trigger] entry_contains(post.vars@[j], x)) by {
                if i < es.len() && j < es.len() {
                    assert(post.vars@[i] == es[i] && post.vars@[j] == es[j]);
                } else if i < es.len() {
                    assert(post.vars@[i] == es[i] && post.vars@[j] == entry);
                    if entry_contains(entry, x) {
                        assert(!pre.live_at(x));
                        assert(entry_contains(es[i], x));
                        assert(pre.live_at(x));
                    }
                } else {
                    assert(post.vars@[i] == entry && post.vars@[j] == es[j]);
                    assert(!pre.live_at(x));
                    if entry_contains(es[j], x) {
                        assert(pre.live_at(x));
                    }
                }
            }
            assert forall|i: int, x: int|
                0 <= i < post.vars@.len() && #[trigger] entry_contains(post.vars@[i], x)
                    implies !covers(post.free_slots.slots@, x) by {
                if i < es.len() {
                    assert(post.vars@[i] == es[i]);
                    assert(!covers(pre.free_slots.slots@, x));
                    if covers(post.free_slots.slots@, x) {
                        assert(mid.free_slots.spec_covers(x));
                        if res is Some {
                            assert(pre.free_slots.spec_covers(x));
                        } else {
                            assert(m1.free_covers(x));
                            assert(covers(pre.free_slots.slots@, x));
                        }
                        assert(false);
                    }
                } else {
                    assert(post.vars@[i] == entry);
                }
            }
            assert forall|x: int| #[trigger] covers(post.free_slots.slots@, x)
                implies 0 <= x < post.stacksize by {
                assert(mid.free_slots.spec_covers(x));
                assert(mid.free_covers(x));
                if res is Some {
                    assert(pre.free_slots.spec_covers(x));
                    assert(covers(pre.free_slots.slots@, x));
                } else {
                    assert(m1.free_covers(x));
                }
            }
            // scopes are untouched and their ids all predate the new one
            Self::lemma_scopes_preserved(mid, post);
            Self::lemma_scopes_preserved(pre, mid);
            assert forall|s: int, k: int|
                0 <= s < post.scopes@.len() && 0 <= k < post.scopes@[s].vars@.len()
                    implies post.has_var(#[trigger] post.scopes@[s].vars@[k]) by {
                assert(post.scopes@[s] == pre.scopes@[s]);
                assert(pre.has_var(pre.scopes@[s].vars@[k]));
                let i = choose|i: int|
                    0 <= i < es.len() && (#[trigger] es[i]).0 == pre.scopes@[s].vars@[k];
                assert((post.entries()[i]).0 == post.scopes@[s].vars@[k]);
            }
            assert forall|s1: int, k1: int, s2: int, k2: int|
                0 <= s1 < post.scopes@.len() && 0 <= k1 < post.scopes@[s1].vars@.len()
                    && 0 <= s2 < post.scopes@.len() && 0 <= k2 < post.scopes@[s2].vars@.len()
                    && (s1 != s2 || k1 != k2)
                    implies #[trigger] post.scopes@[s1].vars@[k1]
                        != #[trigger] post.scopes@[s2].vars@[k2] by {
                assert(post.scopes@[s1] == pre.scopes@[s1]);
                assert(post.scopes@[s2] == pre.scopes@[s2]);
            }
            // the fresh id was not live before
            if pre.has_var(var) {
                let i = choose|i: int|
                    0 <= i < es.len() && (#[trigger] es[i]).0 == var;
                assert(es[i].0.0 < pre.next_var.0);
                assert(false);
            }
            assert forall|v: ManagedVar|
                #[trigger] post.has_var(v) implies (pre.has_var(v) || v == var) by {
                let i = choose|i: int|
                    0 <= i < post.entries().len() && (#[trigger] post.entries()[i]).0 == v;
                if i < es.len() {
                    assert(es[i].0 == v);
                }
            }
            assert forall|v: ManagedVar|
                pre.has_var(v) || v == var implies #[trigger] post.has_var(v) by {
                if v == var {
                    assert((post.entries()[es.len() as int]).0 == v);
                } else {
                    let i = choose|i: int|
                        0 <= i < es.len() && (#[trigger] es[i]).0 == v;
                    assert((post.entries()[i]).0 == v);
                }
            }
            // the stated policy follows from the arena's own contract
            if res is Some {
                let rs = res->Some_0;
                let i0 = choose|i: int|
                    #[trigger] is_best_fit(pre.arena(), size as u32, alignment as u32, i)
                        && rs == align_up(pre.arena()[i].start as int, alignment as int);
                assert(is_best_fit(
                    pre.arena(), ty.spec_size() as u32, ty.spec_align() as u32, i0));
                assert(slot.offset
                    == -(align_up(pre.arena()[i0].start as int, ty.spec_align() as int)
                        + ty.spec_size()));
                assert(post.spec_stacksize() == pre.spec_stacksize());
                assert forall|x: int| #[trigger] post.free_covers(x)
                    == (pre.free_covers(x) && !entry_contains(entry, x)) by {
                    assert(post.free_covers(x) == mid.free_slots.spec_covers(x));
                    assert(mid.free_slots.spec_covers(x)
                        == (pre.free_slots.spec_covers(x) && !(rs <= x < rs + size)));
                }
            } else {
                assert(post.spec_stacksize()
                    == align_up(pre.spec_stacksize(), ty.spec_align() as int) + ty.spec_size());
                assert(slot.offset == -post.spec_stacksize());
                assert forall|x: int| #[trigger] post.free_covers(x) == pre.free_covers(x) by {
                    assert(post.free_covers(x) == mid.free_slots.spec_covers(x));
                    assert(mid.free_covers(x) == m1.free_covers(x));
                    assert(m1.free_slots.spec_covers(x) == pre.free_slots.spec_covers(x));
                }
            }
        }
        slot
    }

    /// Index of the live entry for `var`.
    #[verifier::loop_isolation(false)]
    fn find_var(&self, var: ManagedVar) -> (idx: usize)
        requires
            self.has_var(var),
        ensures
            idx < self.entries().len(),
            (self.entries()[idx as int]).0 == var,
    {
        let n: usize = self.vars.len();
        let mut i: usize = 0;
        while i < n
            invariant
                0 <= i <= n,
                forall|k: int| 0 <= k < i ==> (#[trigger] self.vars@[k]).0 != var,
            decreases n - i,
        {
            let e = self.vars[i];
            if e.0 == var {
                return i;
            }
            i = i + 1;
        }
        proof {
            let j = choose|j: int|
                0 <= j < self.entries().len() && (#[trigger] self.entries()[j]).0 == var;
            assert(false);
        }
        0
    }

    /// Release the live slot `var`, returning its bytes to the arena for
    /// reuse by a later allocation. The frame size never shrinks: freeing
    /// only remembers the hole.
    #[verifier::rlimit(80)]
    pub fn free(&mut self, var: ManagedVar)
        requires
            old(self).wf(),
            old(self).has_var(var),
            !old(self).scoped(var),
        ensures
            final(self).wf(),
            forall|v: ManagedVar|
                #[trigger] final(self).has_var(v) <==> (old(self).has_var(v) && v != var),
            forall|v: ManagedVar, t: BuiltinType, o: i32|
                v != var
                    ==> (#[trigger] final(self).var_maps(v, t, o) <==> old(self).var_maps(v, t, o)),
            final(self).spec_stacksize() == old(self).spec_stacksize(),
            final(self).next_id() == old(self).next_id(),
            final(self).scope_list() == old(self).scope_list(),
            final(self).open_scopes() == old(self).open_scopes(),
            forall|s: int, v: ManagedVar|
                0 <= s < old(self).open_scopes()
                    ==> (#[trigger] final(self).scope_has(s, v) <==> old(self).scope_has(s, v)),
            // the slot's bytes go back to the arena, and nothing else does
            forall|x: int|
                #[trigger] final(self).free_covers(x)
                    <==> (old(self).free_covers(x) || old(self).entry_of(var, x)),
    {
        let ghost pre = *old(self);
        let idx = self.find_var(var);
        let entry = self.vars.remove(idx);
        let ghost es = pre.entries();
        let ghost r = es.remove(idx as int);
        proof {
            es.remove_ensures(idx as int);
        }
        let (v0, ty, offset) = entry;
        let size = if ty.is_nil() { ptr_width() } else { ty.size() };
        proof {
            assert(es[idx as int] == entry);
            assert(size == ty.spec_size());
            assert(0 <= entry_start(entry));
            assert(entry_start(entry) + ty.spec_size() <= pre.spec_stacksize());
        }
        let start = -(offset + size);
        let hole = FreeSlot::new(start as u32, size as u32);
        proof {
            assert(start == entry_start(entry));
            assert(hole.wf());
            assert forall|x: int| hole.spec_contains(x)
                implies !self.free_slots.spec_covers(x) by {
                assert(entry_contains(entry, x));
                assert(entry_contains(es[idx as int], x));
                assert(!covers(pre.free_slots.slots@, x));
            }
        }
        let ghost pre_arena = self.free_slots;
        self.free_slots.free(hole);

        proof {
            let post = *self;
            assert(pre_arena == pre.free_slots);
            assert(post.entries() == r);
            // removing the entry and freeing its bytes keeps every part of
            // the invariant: the other entries still avoid each other and
            // the enlarged free coverage
            assert forall|i: int| 0 <= i < r.len() implies {
                let e = #[trigger] r[i];
                &&& e.1.spec_size() > 0
                &&& 0 <= entry_start(e)
                &&& entry_start(e) + e.1.spec_size() <= post.stacksize
                &&& e.0.0 < post.next_var.0
            } by {
                if i < idx {
                    assert(r[i] == es[i]);
                } else {
                    assert(r[i] == es[i + 1]);
                }
            }
            assert forall|i: int, j: int| 0 <= i < j < r.len()
                implies (#[trigger] r[i]).0 != (#[trigger] r[j]).0 by {
                if j < idx {
                    assert(r[i] == es[i] && r[j] == es[j]);
                } else if i < idx {
                    assert(r[i] == es[i] && r[j] == es[j + 1]);
                } else {
                    assert(r[i] == es[i + 1] && r[j] == es[j + 1]);
                }
            }
            assert forall|i: int, j: int, x: int|
                0 <= i < r.len() && 0 <= j < r.len() && i != j
                    && #[trigger] entry_contains(r[i], x)
                    implies !(#[trigger] entry_contains(r[j], x)) by {
                let i0: int = if i < idx { i } else { i + 1 };
                let j0: int = if j < idx { j } else { j + 1 };
                assert(r[i] == es[i0] && r[j] == es[j0]);
            }
            assert forall|i: int, x: int|
                0 <= i < r.len() && #[trigger] entry_contains(r[i], x)
                    implies !covers(post.free_slots.slots@, x) by {
                let i0: int = if i < idx { i } else { i + 1 };
                assert(r[i] == es[i0]);
                assert(!covers(pre.free_slots.slots@, x));
                if hole.spec_contains(x) {
                    assert(entry_contains(es[idx as int], x));
                    assert(entry_contains(es[i0], x));
                    assert(false);
                }
            }
            assert forall|x: int| #[trigger] covers(post.free_slots.slots@, x)
                implies 0 <= x < post.stacksize by {
                if covers(pre.free_slots.slots@, x) {
                } else {
                    assert(hole.spec_contains(x));
                    assert(entry_start(entry) <= x < entry_start(entry) + ty.spec_size());
                }
            }
            // the scopes kept every id they had; none of them owned `var`
            Self::lemma_scopes_preserved(pre, post);
            assert forall|s: int, k: int|
                0 <= s < post.scopes@.len() && 0 <= k < post.scopes@[s].vars@.len()
                    implies post.has_var(#[trigger] post.scopes@[s].vars@[k]) by {
                let w = post.scopes@[s].vars@[k];
                assert(pre.scopes@[s].vars@[k] == w);
                assert(pre.has_var(w));
                assert(pre.scope_has(s, w));
                if w == var {
                    assert(pre.scoped(var));
                }
                let i = choose|i: int| 0 <= i < es.len() && (#[trigger] es[i]).0 == w;
                assert(es[idx as int].0 == var);
                if i < idx {
                    assert((r[i]).0 == w);
                } else {
                    assert((r[i - 1]).0 == w);
                }
            }
            // the departed id is gone, every other id and mapping survives
            assert forall|v: ManagedVar|
                #[trigger] post.has_var(v) implies (pre.has_var(v) && v != var) by {
                let i = choose|i: int|
                    0 <= i < r.len() && (#[trigger] r[i]).0 == v;
                let i0: int = if i < idx { i } else { i + 1 };
                assert(r[i] == es[i0]);
                assert(es[i0].0 == v);
            }
            assert forall|v: ManagedVar|
                pre.has_var(v) && v != var implies #[trigger] post.has_var(v) by {
                let i = choose|i: int| 0 <= i < es.len() && (#[trigger] es[i]).0 == v;
                if i < idx {
                    assert((r[i]).0 == v);
                } else {
                    assert(i != idx);
                    assert((r[i - 1]).0 == v);
                }
            }
            assert forall|v: ManagedVar, t: BuiltinType, o: i32|
                v != var && #[trigger] post.var_maps(v, t, o) implies pre.var_maps(v, t, o) by {
                let i = choose|i: int|
                    0 <= i < r.len() && #[trigger] r[i] == (v, t, o);
                let i0: int = if i < idx { i } else { i + 1 };
                assert(es[i0] == (v, t, o));
            }
            assert forall|v: ManagedVar, t: BuiltinType, o: i32|
                v != var && #[trigger] pre.var_maps(v, t, o) implies post.var_maps(v, t, o) by {
                let i = choose|i: int|
                    0 <= i < es.len() && #[trigger] es[i] == (v, t, o);
                if i < idx {
                    assert(r[i] == (v, t, o));
                } else {
                    assert(i != idx);
                    assert(r[i - 1] == (v, t, o));
                }
            }
            // the coverage grew by exactly the released range
            assert forall|x: int| #[trigger] post.free_covers(x)
                == (pre.free_covers(x) || pre.entry_of(var, x)) by {
                assert(post.free_covers(x) == covers(post.free_slots.slots@, x));
                assert(hole.spec_contains(x) ==> post.free_slots.spec_covers(x));
                assert(pre_arena.spec_covers(x) ==> post.free_slots.spec_covers(x));
                assert(post.free_slots.spec_covers(x)
                    ==> (pre_arena.spec_covers(x) || hole.spec_contains(x)));
                assert(post.free_slots.spec_covers(x)
                    == (pre.free_slots.spec_covers(x) || hole.spec_contains(x)));
                if pre.entry_of(var, x) {
                    let i = choose|i: int|
                        0 <= i < es.len() && (#[trigger] es[i]).0 == var
                            && entry_contains(es[i], x);
                    assert(i == idx as int);
                    assert(hole.spec_contains(x));
                }
                if hole.spec_contains(x) {
                    assert(entry_contains(es[idx as int], x));
                    assert(pre.entry_of(var, x));
                }
            }
        }
    }


    /// Allocate a slot owned by the innermost scope: it is released when
    /// that scope pops.
    #[verifier::rlimit(60)]
    pub fn add_scope(&mut self, ty: BuiltinType) -> (slot: ManagedStackSlot)
        requires
            old(self).wf(),
            old(self).open_scopes() > 0,
            ty.spec_size() > 0,
            old(self).spec_stacksize() + 16 <= i32::MAX,
            old(self).next_id() < usize::MAX,
        ensures
            final(self).wf(),
            slot.var.0 == old(self).next_id(),
            !old(self).has_var(slot.var),
            final(self).next_id() == old(self).next_id() + 1,
            final(self).entries() == old(self).entries().push((slot.var, ty, slot.offset)),
            final(self).var_maps(slot.var, ty, slot.offset),
            forall|v: ManagedVar|
                #[trigger] final(self).has_var(v) <==> (old(self).has_var(v) || v == slot.var),
            old(self).spec_stacksize() <= final(self).spec_stacksize()
                <= old(self).spec_stacksize() + 16,
            final(self).open_scopes() == old(self).open_scopes(),
            final(self).scoped(slot.var),
            forall|s: int, v: ManagedVar|
                0 <= s < old(self).open_scopes() - 1
                    ==> (#[trigger] final(self).scope_has(s, v) <==> old(self).scope_has(s, v)),
            forall|v: ManagedVar|
                #[trigger] final(self).scope_has(old(self).open_scopes() - 1, v)
                    <==> (old(self).scope_has(old(self).open_scopes() - 1, v) || v == slot.var),
            forall|x: int|
                #[trigger] entry_contains((slot.var, ty, slot.offset), x)
                    ==> !old(self).live_at(x),
    {
        let ghost pre = *old(self);
        let slot = self.allocate(ty);
        let ghost mid = *self;
        let last = self.scopes.len() - 1;
        let scope = &mut self.scopes[last];
        scope.add_var(slot.var);
        proof {
            let post = *self;
            let li = pre.scopes@.len() - 1;
            Self::lemma_entries_preserved(mid, post);
            assert(post.scopes@[li].vars@ == mid.scopes@[li].vars@.push(slot.var));
            assert(post.scopes@[li].vars@.last() == slot.var);
            assert(post.scope_has(li, slot.var));
            assert forall|s: int, v: ManagedVar|
                0 <= s < li && #[trigger] post.scope_has(s, v)
                    implies mid.scope_has(s, v) by {
                assert(post.scopes@[s] == mid.scopes@[s]);
                let k = choose|k: int|
                    0 <= k < post.scopes@[s].vars@.len()
                        && #[trigger] post.scopes@[s].vars@[k] == v;
                assert(mid.scopes@[s].vars@[k] == v);
            }
            assert forall|s: int, v: ManagedVar|
                0 <= s < li && #[trigger] mid.scope_has(s, v)
                    implies post.scope_has(s, v) by {
                assert(post.scopes@[s] == mid.scopes@[s]);
                let k = choose|k: int|
                    0 <= k < mid.scopes@[s].vars@.len()
                        && #[trigger] mid.scopes@[s].vars@[k] == v;
                assert(post.scopes@[s].vars@[k] == v);
            }
            assert forall|v: ManagedVar|
                #[trigger] post.scope_has(li, v)
                    implies (mid.scope_has(li, v) || v == slot.var) by {
                let k = choose|k: int|
                    0 <= k < post.scopes@[li].vars@.len()
                        && #[trigger] post.scopes@[li].vars@[k] == v;
                if k < mid.scopes@[li].vars@.len() {
                    assert(mid.scopes@[li].vars@[k] == v);
                }
            }
            assert forall|v: ManagedVar|
                mid.scope_has(li, v) || v == slot.var implies #[trigger] post.scope_has(li, v) by {
                if v == slot.var {
                } else {
                    let k = choose|k: int|
                        0 <= k < mid.scopes@[li].vars@.len()
                            && #[trigger] mid.scopes@[li].vars@[k] == v;
                    assert(post.scopes@[li].vars@[k] == v);
                }
            }
            assert forall|s: int, v: ManagedVar|
                0 <= s < li implies
                    (#[trigger] post.scope_has(s, v) <==> pre.scope_has(s, v)) by {
                assert(mid.scope_has(s, v) == pre.scope_has(s, v));
            }
            assert forall|v: ManagedVar|
                #[trigger] post.scope_has(li, v)
                    <==> (pre.scope_has(li, v) || v == slot.var) by {
                assert(mid.scope_has(li, v) == pre.scope_has(li, v));
            }
            // the new id joins the innermost scope; everything that was
            // owned somewhere still is, and no id is owned twice
            assert forall|s: int, k: int|
                0 <= s < post.scopes@.len() && 0 <= k < post.scopes@[s].vars@.len()
                    implies post.has_var(#[trigger] post.scopes@[s].vars@[k]) by {
                if s != li || k < mid.scopes@[li].vars@.len() {
                    assert(post.scopes@[s].vars@[k] == mid.scopes@[s].vars@[k]);
                    assert(mid.has_var(mid.scopes@[s].vars@[k]));
                } else {
                    assert(post.scopes@[s].vars@[k] == slot.var);
                    assert(mid.has_var(slot.var));
                }
            }
            assert forall|s1: int, k1: int, s2: int, k2: int|
                0 <= s1 < post.scopes@.len() && 0 <= k1 < post.scopes@[s1].vars@.len()
                    && 0 <= s2 < post.scopes@.len() && 0 <= k2 < post.scopes@[s2].vars@.len()
                    && (s1 != s2 || k1 != k2)
                    implies #[trigger] post.scopes@[s1].vars@[k1]
                        != #[trigger] post.scopes@[s2].vars@[k2] by {
                let e1_new = s1 == li && k1 == mid.scopes@[li].vars@.len();
                let e2_new = s2 == li && k2 == mid.scopes@[li].vars@.len();
                if e1_new && !e2_new {
                    assert(post.scopes@[s2].vars@[k2] == mid.scopes@[s2].vars@[k2]);
                    assert(mid.scope_has(s2, mid.scopes@[s2].vars@[k2]));
                    assert(pre.scope_has(s2, mid.scopes@[s2].vars@[k2]));
                    assert(pre.has_var(mid.scopes@[s2].vars@[k2]));
                } else if !e1_new && e2_new {
                    assert(post.scopes@[s1].vars@[k1] == mid.scopes@[s1].vars@[k1]);
                    assert(mid.scope_has(s1, mid.scopes@[s1].vars@[k1]));
                    assert(pre.scope_has(s1, mid.scopes@[s1].vars@[k1]));
                    assert(pre.has_var(mid.scopes@[s1].vars@[k1]));
                } else if !e1_new && !e2_new {
                    assert(post.scopes@[s1].vars@[k1] == mid.scopes@[s1].vars@[k1]);
                    assert(post.scopes@[s2].vars@[k2] == mid.scopes@[s2].vars@[k2]);
                }
            }
        }
        slot
    }

    /// Allocate an unscoped temporary; the caller must release it with
    /// `free_temp`.
    pub fn add_temp(&mut self, ty: BuiltinType) -> (slot: ManagedStackSlot)
        requires
            old(self).wf(),
            ty.spec_size() > 0,
            old(self).spec_stacksize() + 16 <= i32::MAX,
            old(self).next_id() < usize::MAX,
        ensures
            final(self).wf(),
            slot.var.0 == old(self).next_id(),
            !old(self).has_var(slot.var),
            !final(self).scoped(slot.var),
            final(self).next_id() == old(self).next_id() + 1,
            final(self).entries() == old(self).entries().push((slot.var, ty, slot.offset)),
            final(self).var_maps(slot.var, ty, slot.offset),
            forall|v: ManagedVar|
                #[trigger] final(self).has_var(v) <==> (old(self).has_var(v) || v == slot.var),
            old(self).spec_stacksize() <= final(self).spec_stacksize()
                <= old(self).spec_stacksize() + 16,
            final(self).open_scopes() == old(self).open_scopes(),
            forall|s: int, v: ManagedVar|
                0 <= s < old(self).open_scopes()
                    ==> (#[trigger] final(self).scope_has(s, v) <==> old(self).scope_has(s, v)),
            forall|x: int|
                #[trigger] entry_contains((slot.var, ty, slot.offset), x)
                    ==> !old(self).live_at(x),
    {
        let slot = self.allocate(ty);
        proof {
            if self.scoped(slot.var) {
                let s = choose|s: int|
                    0 <= s < self.open_scopes() && #[trigger] self.scope_has(s, slot.var);
                assert(old(self).scope_has(s, slot.var));
                assert(old(self).has_var(slot.var));
            }
        }
        slot
    }

    /// Release a temporary returned by `add_temp`.
    pub fn free_temp(&mut self, temp: ManagedStackSlot)
        requires
            old(self).wf(),
            old(self).has_var(temp.var),
            !old(self).scoped(temp.var),
        ensures
            final(self).wf(),
            forall|v: ManagedVar|
                #[trigger] final(self).has_var(v) <==> (old(self).has_var(v) && v != temp.var),
            final(self).spec_stacksize() == old(self).spec_stacksize(),
            final(self).next_id() == old(self).next_id(),
            final(self).open_scopes() == old(self).open_scopes(),
            forall|s: int, v: ManagedVar|
                0 <= s < old(self).open_scopes()
                    ==> (#[trigger] final(self).scope_has(s, v) <==> old(self).scope_has(s, v)),
            forall|v: ManagedVar, t: BuiltinType, o: i32|
                v != temp.var
                    ==> (#[trigger] final(self).var_maps(v, t, o) <==> old(self).var_maps(v, t, o)),
            // the temporary's bytes go back to the arena, and nothing else
            forall|x: int|
                #[trigger] final(self).free_covers(x)
                    <==> (old(self).free_covers(x) || old(self).entry_of(temp.var, x)),
    {
        self.free(temp.var);
        proof {
            Self::lemma_scopes_preserved(*old(self), *self);
        }
    }

    /// The slot id `v` appears among the first `upto` ids of the list.
    pub open spec fn id_prefix_has(sv: Seq<ManagedVar>, upto: int, v: ManagedVar) -> bool {
        exists|j: int| 0 <= j < upto && j < sv.len() && #[trigger] sv[j] == v
    }

    /// Close the innermost scope, releasing every slot it owns in the order
    /// they were declared. The frame size never shrinks.
    #[verifier::loop_isolation(false)]
    #[verifier::rlimit(80)]
    pub fn pop_scope(&mut self)
        requires
            old(self).wf(),
            old(self).open_scopes() > 0,
        ensures
            final(self).wf(),
            final(self).open_scopes() == old(self).open_scopes() - 1,
            final(self).spec_stacksize() == old(self).spec_stacksize(),
            final(self).next_id() == old(self).next_id(),
            forall|v: ManagedVar|
                #[trigger] final(self).has_var(v)
                    <==> (old(self).has_var(v)
                        && !old(self).scope_has(old(self).open_scopes() - 1, v)),
            forall|s: int, v: ManagedVar|
                0 <= s < old(self).open_scopes() - 1
                    ==> (#[trigger] final(self).scope_has(s, v) <==> old(self).scope_has(s, v)),
            forall|v: ManagedVar, t: BuiltinType, o: i32|
                !old(self).scope_has(old(self).open_scopes() - 1, v)
                    ==> (#[trigger] final(self).var_maps(v, t, o) <==> old(self).var_maps(v, t, o)),
            // the popped scope's bytes all go back to the arena, and
            // nothing else does
            forall|x: int|
                #[trigger] final(self).free_covers(x)
                    <==> (old(self).free_covers(x)
                        || old(self).scope_frees(old(self).open_scopes() - 1, x)),
    {
        let ghost pre = *old(self);
        let ghost li = pre.scopes@.len() - 1;
        let scope = self.scopes.pop().unwrap();
        let ghost sv = scope.vars@;
        proof {
            assert(sv == pre.scopes@[li].vars@);
            assert(self.scopes@ == pre.scopes@.subrange(0, li));
            assert(self.vars@ == pre.vars@);
            Self::lemma_entries_preserved(pre, *self);
            assert forall|s: int, v: ManagedVar|
                0 <= s < li implies
                    (#[trigger] self.scope_has(s, v) <==> pre.scope_has(s, v)) by {
                assert(self.scopes@[s] == pre.scopes@[s]);
                if self.scope_has(s, v) {
                    let k = choose|k: int|
                        0 <= k < self.scopes@[s].vars@.len()
                            && #[trigger] self.scopes@[s].vars@[k] == v;
                    assert(pre.scopes@[s].vars@[k] == v);
                }
                if pre.scope_has(s, v) {
                    let k = choose|k: int|
                        0 <= k < pre.scopes@[s].vars@.len()
                            && #[trigger] pre.scopes@[s].vars@[k] == v;
                    assert(self.scopes@[s].vars@[k] == v);
                }
            }
            assert forall|s: int, k: int|
                0 <= s < self.scopes@.len() && 0 <= k < self.scopes@[s].vars@.len()
                    implies self.has_var(#[trigger] self.scopes@[s].vars@[k]) by {
                assert(self.scopes@[s] == pre.scopes@[s]);
                assert(pre.has_var(pre.scopes@[s].vars@[k]));
            }
            assert forall|s1: int, k1: int, s2: int, k2: int|
                0 <= s1 < self.scopes@.len() && 0 <= k1 < self.scopes@[s1].vars@.len()
                    && 0 <= s2 < self.scopes@.len() && 0 <= k2 < self.scopes@[s2].vars@.len()
                    && (s1 != s2 || k1 != k2)
                    implies #[trigger] self.scopes@[s1].vars@[k1]
                        != #[trigger] self.scopes@[s2].vars@[k2] by {
                assert(self.scopes@[s1] == pre.scopes@[s1]);
                assert(self.scopes@[s2] == pre.scopes@[s2]);
            }
        }

        let n: usize = scope.vars.len();
        let mut k: usize = 0;
        while k < n
            invariant
                n == sv.len(),
                0 <= k <= n,
                self.wf(),
                self.open_scopes() == li,
                self.spec_stacksize() == pre.spec_stacksize(),
                self.next_id() == pre.next_id(),
                forall|s: int, v: ManagedVar| #![trigger self.scope_has(s, v)]
                    0 <= s < li ==> (self.scope_has(s, v) <==> pre.scope_has(s, v)),
                forall|v: ManagedVar| #![trigger self.has_var(v)]
                    self.has_var(v) <==> (pre.has_var(v) && !Self::id_prefix_has(sv, k as int, v)),
                forall|v: ManagedVar, t: BuiltinType, o: i32| #![trigger self.var_maps(v, t, o)]
                    !Self::id_prefix_has(sv, k as int, v)
                        ==> (self.var_maps(v, t, o) <==> pre.var_maps(v, t, o)),
                forall|x: int| #![trigger self.free_covers(x)]
                    self.free_covers(x)
                        <==> (pre.free_covers(x)
                            || exists|j: int| 0 <= j < k && #[trigger] pre.entry_of(sv[j], x)),
            decreases n - k,
        {
            let v = scope.vars[k];
            proof {
                assert(sv[k as int] == v);
                assert(pre.scopes@[li].vars@[k as int] == v);
                assert(pre.has_var(v));
                assert forall|j: int| 0 <= j < k implies #[trigger] sv[j] != v by {
                    assert(pre.scopes@[li].vars@[j] == sv[j]);
                }
                assert(!Self::id_prefix_has(sv, k as int, v));
                assert(self.has_var(v));
                if self.scoped(v) {
                    let s = choose|s: int|
                        0 <= s < self.open_scopes() && #[trigger] self.scope_has(s, v);
                    assert(pre.scope_has(s, v));
                    let k2 = choose|k2: int|
                        0 <= k2 < pre.scopes@[s].vars@.len()
                            && #[trigger] pre.scopes@[s].vars@[k2] == v;
                    assert(pre.scopes@[li].vars@[k as int] == v);
                    assert(false);
                }
            }
            let ghost before = *self;
            self.free(v);
            proof {
                assert forall|w: ManagedVar| #[trigger] self.has_var(w)
                    == (pre.has_var(w) && !Self::id_prefix_has(sv, k + 1 as int, w)) by {
                    if Self::id_prefix_has(sv, k as int, w) {
                        let j = choose|j: int|
                            0 <= j < k && j < sv.len() && #[trigger] sv[j] == w;
                        assert(Self::id_prefix_has(sv, k + 1 as int, w));
                    }
                    if w == v {
                        assert(sv[k as int] == w);
                        assert(Self::id_prefix_has(sv, k + 1 as int, w));
                    }
                    if Self::id_prefix_has(sv, k + 1 as int, w)
                        && !Self::id_prefix_has(sv, k as int, w) && w != v {
                        let j = choose|j: int|
                            0 <= j < k + 1 && j < sv.len() && #[trigger] sv[j] == w;
                        assert(false);
                    }
                }
                assert forall|w: ManagedVar, t: BuiltinType, o: i32|
                    !Self::id_prefix_has(sv, k + 1 as int, w)
                        implies (#[trigger] self.var_maps(w, t, o) <==> pre.var_maps(w, t, o)) by {
                    assert(sv[k as int] == v);
                    assert(!Self::id_prefix_has(sv, k as int, w)) by {
                        if Self::id_prefix_has(sv, k as int, w) {
                            let j = choose|j: int|
                                0 <= j < k && j < sv.len() && #[trigger] sv[j] == w;
                            assert(Self::id_prefix_has(sv, k + 1 as int, w));
                        }
                    }
                    assert(w != v) by {
                        if w == v {
                            assert(Self::id_prefix_has(sv, k + 1 as int, w));
                        }
                    }
                    assert(self.var_maps(w, t, o) == before.var_maps(w, t, o));
                    assert(before.var_maps(w, t, o) == pre.var_maps(w, t, o));
                }
                // the freed slot's range in the state before this step is
                // the same range it had at the start of the pop
                assert forall|x: int| #[trigger] before.entry_of(v, x)
                    == pre.entry_of(v, x) by {
                    if before.entry_of(v, x) {
                        let i = choose|i: int|
                            0 <= i < before.entries().len()
                                && (#[trigger] before.entries()[i]).0 == v
                                && entry_contains(before.entries()[i], x);
                        let e = before.entries()[i];
                        assert(before.var_maps(v, e.1, e.2));
                        assert(pre.var_maps(v, e.1, e.2));
                        let i2 = choose|i2: int|
                            0 <= i2 < pre.entries().len()
                                && #[trigger] pre.entries()[i2] == (v, e.1, e.2);
                        assert(entry_contains(pre.entries()[i2], x));
                    }
                    if pre.entry_of(v, x) {
                        let i = choose|i: int|
                            0 <= i < pre.entries().len()
                                && (#[trigger] pre.entries()[i]).0 == v
                                && entry_contains(pre.entries()[i], x);
                        let e = pre.entries()[i];
                        assert(pre.var_maps(v, e.1, e.2));
                        assert(before.var_maps(v, e.1, e.2));
                        let i2 = choose|i2: int|
                            0 <= i2 < before.entries().len()
                                && #[trigger] before.entries()[i2] == (v, e.1, e.2);
                        assert(entry_contains(before.entries()[i2], x));
                    }
                }
                assert forall|x: int| #[trigger] self.free_covers(x)
                    == (pre.free_covers(x)
                        || exists|j: int| 0 <= j < k + 1 && #[trigger] pre.entry_of(sv[j], x)) by {
                    assert(self.free_covers(x)
                        == (before.free_covers(x) || before.entry_of(v, x)));
                    if exists|j: int| 0 <= j < k && #[trigger] pre.entry_of(sv[j], x) {
                        let j = choose|j: int| 0 <= j < k && #[trigger] pre.entry_of(sv[j], x);
                        assert(0 <= j < k + 1 && pre.entry_of(sv[j], x));
                    }
                    if before.entry_of(v, x) {
                        assert(pre.entry_of(sv[k as int], x));
                    }
                    if (exists|j: int| 0 <= j < k + 1 && #[trigger] pre.entry_of(sv[j], x))
                        && !(exists|j: int| 0 <= j < k && #[trigger] pre.entry_of(sv[j], x)) {
                        let j = choose|j: int|
                            0 <= j < k + 1 && #[trigger] pre.entry_of(sv[j], x);
                        assert(j == k);
                        assert(before.entry_of(v, x));
                    }
                }
            }
            k = k + 1;
        }

        proof {
            let post = *self;
            assert forall|v: ManagedVar| #[trigger] post.has_var(v)
                == (pre.has_var(v) && !pre.scope_has(li, v)) by {
                if Self::id_prefix_has(sv, n as int, v) {
                    let j = choose|j: int|
                        0 <= j < n && j < sv.len() && #[trigger] sv[j] == v;
                    assert(pre.scopes@[li].vars@[j] == v);
                    assert(pre.scope_has(li, v));
                }
                if pre.scope_has(li, v) {
                    let j = choose|j: int|
                        0 <= j < pre.scopes@[li].vars@.len()
                            && #[trigger] pre.scopes@[li].vars@[j] == v;
                    assert(sv[j] == v);
                    assert(Self::id_prefix_has(sv, n as int, v));
                }
            }
            assert forall|v: ManagedVar, t: BuiltinType, o: i32|
                !pre.scope_has(li, v)
                    implies (#[trigger] post.var_maps(v, t, o) <==> pre.var_maps(v, t, o)) by {
                assert(!Self::id_prefix_has(sv, n as int, v)) by {
                    if Self::id_prefix_has(sv, n as int, v) {
                        let j = choose|j: int|
                            0 <= j < n && j < sv.len() && #[trigger] sv[j] == v;
                        assert(pre.scopes@[li].vars@[j] == v);
                        assert(pre.scope_has(li, v));
                    }
                }
            }
            assert forall|x: int| #[trigger] post.free_covers(x)
                == (pre.free_covers(x) || pre.scope_frees(li, x)) by {
                if exists|j: int| 0 <= j < n && #[trigger] pre.entry_of(sv[j], x) {
                    let j = choose|j: int| 0 <= j < n && #[trigger] pre.entry_of(sv[j], x);
                    let i = choose|i: int|
                        0 <= i < pre.entries().len()
                            && (#[trigger] pre.entries()[i]).0 == sv[j]
                            && entry_contains(pre.entries()[i], x);
                    assert(pre.scopes@[li].vars@[j] == sv[j]);
                    assert(pre.scope_has(li, pre.entries()[i].0));
                    assert(pre.scope_frees(li, x));
                }
                if pre.scope_frees(li, x) {
                    let i = choose|i: int|
                        0 <= i < pre.entries().len()
                            && pre.scope_has(li, (#[trigger] pre.entries()[i]).0)
                            && entry_contains(pre.entries()[i], x);
                    let j = choose|j: int|
                        0 <= j < pre.scopes@[li].vars@.len()
                            && #[trigger] pre.scopes@[li].vars@[j] == pre.entries()[i].0;
                    assert(sv[j] == pre.entries()[i].0);
                    assert(pre.entry_of(sv[j], x));
                    assert(exists|j2: int| 0 <= j2 < n && #[trigger] pre.entry_of(sv[j2], x));
                }
            }
        }
    }

    /// Some entry among the first `upto` is reference-typed at offset `o`.
    pub open spec fn ref_prefix(es: Seq<VarEntry>, upto: int, o: i32) -> bool {
        exists|j: int|
            0 <= j < upto && j < es.len() && (#[trigger] es[j]).1.spec_is_reference()
                && es[j].2 == o
    }

    /// Snapshot of the offsets of all live reference-typed slots: the GC
    /// point for the instruction about to be emitted.
    #[verifier::loop_isolation(false)]
    pub fn gcpoint(&self) -> (r: GcPoint)
        ensures
            forall|o: i32| #[trigger] r.has_offset(o) <==> self.ref_at(o),
    {
        let mut offsets: Vec<i32> = Vec::new();
        let n: usize = self.vars.len();
        let mut i: usize = 0;
        while i < n
            invariant
                0 <= i <= n,
                n == self.entries().len(),
                forall|o: i32| #![trigger offsets@.contains(o)]
                    offsets@.contains(o) <==> Self::ref_prefix(self.entries(), i as int, o),
            decreases n - i,
        {
            let e = self.vars[i];
            let ghost prev = offsets@;
            if e.1.reference_type() {
                proof {
                    lemma_push_contains(prev, e.2);
                }
                offsets.push(e.2);
            }
            proof {
                let es = self.entries();
                assert(es[i as int] == e);
                assert forall|o: i32| #[trigger] offsets@.contains(o)
                    == Self::ref_prefix(es, i + 1 as int, o) by {
                    assert(prev.contains(o) == Self::ref_prefix(es, i as int, o));
                    if e.1.spec_is_reference() {
                        assert(offsets@ == prev.push(e.2));
                        assert(offsets@.contains(o) == (prev.contains(o) || o == e.2));
                    } else {
                        assert(offsets@ == prev);
                    }
                    if Self::ref_prefix(es, i as int, o) {
                        let j = choose|j: int|
                            0 <= j < i && j < es.len()
                                && (#[trigger] es[j]).1.spec_is_reference() && es[j].2 == o;
                        assert(Self::ref_prefix(es, i + 1 as int, o));
                    }
                    if e.1.spec_is_reference() && o == e.2 {
                        assert(es[i as int].1.spec_is_reference() && es[i as int].2 == o);
                        assert(Self::ref_prefix(es, i + 1 as int, o));
                    }
                    if Self::ref_prefix(es, i + 1 as int, o)
                        && !Self::ref_prefix(es, i as int, o)
                        && !(e.1.spec_is_reference() && o == e.2) {
                        let j = choose|j: int|
                            0 <= j < i + 1 && j < es.len()
                                && (#[trigger] es[j]).1.spec_is_reference() && es[j].2 == o;
                        assert(false);
                    }
                }
            }
            i = i + 1;
        }
        proof {
            let es = self.entries();
            assert forall|o: i32| #[trigger] offsets@.contains(o) == self.ref_at(o) by {
                if Self::ref_prefix(es, n as int, o) {
                    let j = choose|j: int|
                        0 <= j < n && j < es.len()
                            && (#[trigger] es[j]).1.spec_is_reference() && es[j].2 == o;
                    assert(self.ref_at(o));
                }
                if self.ref_at(o) {
                    let j = choose|j: int|
                        0 <= j < es.len() && (#[trigger] es[j]).1.spec_is_reference()
                            && es[j].2 == o;
                    assert(Self::ref_prefix(es, n as int, o));
                }
            }
        }
        GcPoint::from_offsets(offsets)
    }

    /// Frame size to reserve: the high-water mark rounded up to the
    /// platform's frame alignment.
    pub fn stacksize(&self) -> (r: i32)
        requires
            self.wf(),
            self.spec_stacksize() + 15 <= i32::MAX,
        ensures
            r == align_up(self.spec_stacksize(), STACK_FRAME_ALIGNMENT as int),
            r >= self.spec_stacksize(),
            r % 16 == 0,
    {
        proof {
            lemma_align_up_properties(self.stacksize as int, STACK_FRAME_ALIGNMENT as int);
        }
        align_i32(self.stacksize, STACK_FRAME_ALIGNMENT)
    }
}

/// Law: once a frame build is balanced — every scope popped, every
/// temporary freed, so that `is_empty` holds — its GC point is empty: no
/// offset is reported as holding a reference.
pub proof fn lemma_empty_frame_gc_point(f: ManagedStackFrame)
    requires
        f.spec_is_empty(),
    ensures
        forall|o: i32| !f.ref_at(o),
{
    assert forall|o: i32| !f.ref_at(o) by {
        if f.ref_at(o) {
            let i = choose|i: int|
                0 <= i < f.entries().len() && (#[trigger] f.entries()[i]).1.spec_is_reference()
                    && f.entries()[i].2 == o;
            assert(false);
        }
    }
}

/// Every id an open scope owns is live.
pub proof fn lemma_scoped_is_live(f: ManagedStackFrame)
    requires
        f.wf(),
    ensures
        forall|s: int, v: ManagedVar|
            0 <= s < f.open_scopes() && #[trigger] f.scope_has(s, v) ==> f.has_var(v),
{
    assert forall|s: int, v: ManagedVar|
        0 <= s < f.open_scopes() && #[trigger] f.scope_has(s, v) implies f.has_var(v) by {
        let k = choose|k: int|
            0 <= k < f.scopes@[s].vars@.len() && #[trigger] f.scopes@[s].vars@[k] == v;
        assert(f.has_var(f.scopes@[s].vars@[k]));
    }
}

/// A frame with no open scope and no live id is empty.
pub proof fn lemma_no_vars_empty(f: ManagedStackFrame)
    requires
        f.open_scopes() == 0,
        forall|v: ManagedVar| !f.has_var(v),
    ensures
        f.spec_is_empty(),
{
    if f.entries().len() > 0 {
        assert(f.has_var(f.entries()[0].0));
    }
}

/// Law: a byte the arena reports free lies inside no live slot, so a range
/// served out of the free list never intersects a live allocation.
pub proof fn lemma_free_byte_not_live(f: ManagedStackFrame, x: int)
    requires
        f.wf(),
        f.free_covers(x),
    ensures
        !f.live_at(x),
{
    if f.live_at(x) {
        let i = choose|i: int|
            0 <= i < f.entries().len() && entry_contains(#[trigger] f.entries()[i], x);
        assert(!covers(f.free_slots.slots@, x));
        assert(false);
    }
}

} // verus!
