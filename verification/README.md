# kernel

The logic of a small x86-64 hobby kernel, written in Verus with its
behaviour stated in contracts and proved.

- `src/framebuffer.rs`: a linear framebuffer of 32-bit pixels; `pixel`,
  `rect`, `clear`, `character` (8x16 glyphs) and a Bresenham `line` whose
  shape is proved (end points, 8-connected steps, bounding box, length).
- `src/terminal.rs`: the text console; `write_str` is specified byte by
  byte (control characters, wrapping, scrolling back to the top row).
- `src/memory.rs`: the free-frame list, building it from the bootloader's
  memory map, and four-level page tables (`map_to`, `translate_page`) with
  a proved read-after-write law.
- `src/process.rs`: the round-robin process ring, the saved register
  state, and `create_process`, which maps an image, a stack and the process
  page into a fresh address space and takes an exactly known number of
  frames.
- `src/keyboard.rs`, `src/mouse.rs`, `src/pic.rs`, `src/idt.rs`: the
  decisions behind the keyboard, mouse and timer interrupts, as functions
  from state and input byte to new state.
- `src/isrs.rs`: the text of the interrupt stub declarations.
- `app/`: the boot code around the library: bootloader requests, port
  I/O, control registers, descriptor tables and the interrupt entry points.
