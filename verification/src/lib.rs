//! Baseline JIT stack-frame management and generational heap layout.
//!
//! The crate has two halves. The first is the frame manager used while
//! lowering a function body: a best-fit free-slot arena ([`slots`]), two
//! scoped frame builders that assign stack offsets to variables and
//! temporaries and answer GC-point queries ([`frame`]), the call-site plans
//! recorded during the first lowering pass ([`callsite`]) and the two-pass
//! driver itself ([`baseline`]). The second half is the geometry of the
//! two-generation heap with its card table and crossing map ([`swiper`]).

pub mod mem;
pub mod slots;
pub mod ty;
pub mod frame;
pub mod ast;
pub mod baseline;
pub mod callsite;
pub mod swiper;
