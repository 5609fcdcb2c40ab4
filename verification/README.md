# lumen

The logic of Lumen, a hobby x86_64 kernel with a compositing desktop, as a
Verus-verified library, with the kernel that runs it around it.

## Layout

- `src/` is the verified library:
  - `gfx/`: rectangles, colour compositing, damage tracking, antialiased
    coverage, the canvas model, shapes, surfaces, the framebuffer with its
    pixel formats, the box blur and bitmap text;
  - `display.rs`: a frame of the screen with its frosted-glass backdrop;
  - `widgets.rs`: embossed text and the rolling clock's digits;
  - `mem/`: the first-fit heap with coalescing, and the boot frame allocator;
  - `input/`: PS/2 routing, mouse packets, the key queue and key mapping;
  - `arch/`: timer divisor, interrupt vectors, CMOS clock decoding;
  - `datefmt.rs`, `timekeeping.rs`: the German date line and the clock
    bookkeeping of the frame loop;
  - `shell.rs`, `dock.rs`, `apps.rs`, `wm.rs`: the decisions and geometry of
    the shell, the dock, the apps and the window stack;
  - `rng.rs`, `serial.rs`: xorshift and the serial line encoding.
- `tests/` runs the library on concrete values.
- `app/` is the kernel itself: boot, interrupts, port I/O, paging, the global
  allocator, and the floating-point animation of the scene, windows and apps.
  It builds for `x86_64-unknown-none`.
