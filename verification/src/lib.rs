//! A small x86-64 kernel's logic: framebuffer drawing, a text terminal,
//! a page-frame allocator with four-level page tables, a round-robin
//! process ring, and the decoders behind the keyboard, mouse and timer
//! interrupts.
pub mod framebuffer;
pub mod terminal;
pub mod memory;
pub mod keyboard;
pub mod pic;
pub mod mouse;
pub mod idt;
pub mod process;
pub mod isrs;

use vstd::prelude::*;

verus! {

/// The marker that leads the built-in test image. It holds no data and no
/// alignment of its own: the kernel copies the image's code into a page of
/// its own before a process runs it, so the code starts a page.
pub struct A4096;

/// The built-in test image: its code is `jmp $`, a loop on itself.
pub const TEST_IMAGE: (A4096, [u8; 2]) = (A4096, [0xEB, 0xFE]);

} // verus!
