use dora::frame::{ManagedStackFrame, StackFrame};
use dora::ty::BuiltinType;

fn sorted_offsets(offsets: &Vec<i32>) -> Vec<i32> {
    let mut v = offsets.clone();
    v.sort();
    v
}

#[test]
fn gc_point_tracks_reference_slots() {
    // a reference variable, a non-reference variable and a reference temp:
    // only the references appear in the GC point
    let mut frame = StackFrame::new();
    frame.push_scope();
    frame.add_var(BuiltinType::Str, -8);
    frame.add_var(BuiltinType::Int, -16);
    frame.add_temp(BuiltinType::Str, -24);

    let p = frame.gcpoint();
    assert_eq!(sorted_offsets(&p.offsets), vec![-24, -8]);

    frame.free_temp(BuiltinType::Str, -24);
    let p = frame.gcpoint();
    assert_eq!(sorted_offsets(&p.offsets), vec![-8]);

    frame.pop_scope();
    let p = frame.gcpoint();
    assert!(p.is_empty());
    assert!(frame.is_empty());
}

#[test]
fn balanced_build_leaves_frame_empty() {
    let mut frame = StackFrame::new();
    frame.push_scope();
    frame.add_var(BuiltinType::Str, -8);
    frame.push_scope();
    frame.add_var(BuiltinType::Int, -12);
    frame.add_temp(BuiltinType::IntArray, -24);
    frame.free_temp(BuiltinType::IntArray, -24);
    frame.pop_scope();
    frame.pop_scope();
    assert!(frame.is_empty());
    assert!(frame.gcpoint().is_empty());
}

#[test]
fn managed_frame_extends_and_reuses_slots() {
    // two 8-byte references then a 4-byte int extend the frame to 20
    // bytes; the frame size is reported rounded to the frame alignment
    let mut frame = ManagedStackFrame::new();
    let r1 = frame.add_temp(BuiltinType::Str);
    let r2 = frame.add_temp(BuiltinType::Str);
    let i1 = frame.add_temp(BuiltinType::Int);
    assert_eq!(r1.offset(), -8);
    assert_eq!(r2.offset(), -16);
    assert_eq!(i1.offset(), -20);
    assert_eq!(frame.stacksize(), 32);

    // freeing the middle reference leaves an 8-byte hole; a 4-byte int
    // takes its lower half and the upper 4 bytes stay free
    frame.free_temp(r2);
    let i2 = frame.add_temp(BuiltinType::Int);
    assert_eq!(i2.offset(), -12);
    assert_eq!(frame.stacksize(), 32);

    // the remaining free bytes are the range [12, 16): an exact fit for
    // one more 4-byte int
    let i3 = frame.add_temp(BuiltinType::Int);
    assert_eq!(i3.offset(), -16);
}

#[test]
fn managed_frame_balanced_scopes() {
    let mut frame = ManagedStackFrame::new();
    frame.push_scope();
    let v1 = frame.add_scope(BuiltinType::Str);
    let v2 = frame.add_scope(BuiltinType::Int);
    assert_eq!(v1.offset(), -8);
    assert_eq!(v2.offset(), -12);

    let p = frame.gcpoint();
    assert_eq!(sorted_offsets(&p.offsets), vec![-8]);

    frame.pop_scope();
    assert!(frame.is_empty());
    assert!(frame.gcpoint().is_empty());
}

#[test]
fn managed_frame_nil_slot_gets_pointer_width() {
    let mut frame = ManagedStackFrame::new();
    let n = frame.add_temp(BuiltinType::Nil);
    assert_eq!(n.offset(), -8);
    let p = frame.gcpoint();
    assert_eq!(sorted_offsets(&p.offsets), vec![-8]);
    frame.free_temp(n);
    assert!(frame.is_empty());
}

#[test]
fn initial_stacksize_reserves_argument_area() {
    let mut frame = ManagedStackFrame::new();
    frame.initial_stacksize(24);
    let v = frame.add_temp(BuiltinType::Int);
    // the frame grows past the reserved area, never into it
    assert_eq!(v.offset(), -28);
    assert_eq!(frame.stacksize(), 32);
}

#[test]
fn freeing_never_shrinks_the_frame() {
    let mut frame = ManagedStackFrame::new();
    let a = frame.add_temp(BuiltinType::Str);
    let b = frame.add_temp(BuiltinType::Str);
    assert_eq!(frame.stacksize(), 16);
    frame.free_temp(a);
    frame.free_temp(b);
    assert_eq!(frame.stacksize(), 16);
}
