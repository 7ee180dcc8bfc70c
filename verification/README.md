# my_os

The core of a small x86-64 hobby kernel, written in Verus and proved against its
contracts.

`src/` is the verified library:

- `linked_list_allocator` — the first-fit heap allocator: free blocks kept in address
  order, alignment padding, splitting, and coalescing on free.
- `scheduler`, `task` — round-robin scheduling, blocking, waking, exiting and clean-up
  of tasks; the stack layout and register frame of a new task; task ids.
- `mutex` — the blocking mutex: lock bit and wait stack, driven against the scheduler.
- `framebuffer` — the text console: glyphs, cursor, newline, scrolling and backspace on
  a linear framebuffer.
- `CMOS` — decoding and showing the real-time clock's values.
- `frames` — which physical frame the frame allocator hands out next, from the usable
  regions of the memory map.
- `pml4`, `primes`, `gdt` — a new address space's top-level table, the demonstration
  workload, descriptor-table constants.

`app/` is the kernel binary around it: the boot entry, port I/O, control registers,
the context-switch and exit trampolines, interrupt masking and the global instances.
`tests/` exercises the library on concrete values.
