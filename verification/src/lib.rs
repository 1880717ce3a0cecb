//! Components of a small AArch64 kernel, centred on a buddy memory
//! allocator: a bitmap-backed binary tree managing power-of-two block
//! allocations (`tree`), and a page-level wrapper adapting it to a physical
//! byte range (`allocator`). Around the core stand the kernel's pure
//! register-field layer (`reg`, `a53`), the GIC interrupt identities and
//! devicetree interrupt specifiers (`gicv2`), lossless numeric conversions
//! (`num`), power-of-two arithmetic (`math`), and the task runner's command
//! builders (`command`).

pub mod a53;
pub mod allocator;
pub mod command;
pub mod gicv2;
pub mod math;
pub mod num;
pub mod reg;
pub mod tree;
