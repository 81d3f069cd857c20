# kernel

A small x86-64 kernel whose decisions are verified with Verus.

`src/` is the verified library. Each module states what its functions do in
`requires`/`ensures` over mathematical models (sequences of page flags, maps
of page tables, allocator states, scheduler views), and proves it:

- `memory::address`, `memory::hhdm`: page arithmetic, aligned address types,
  the higher-half direct map, and the check of user buffers against a user
  address space.
- `memory::physical`: the boot memory map scan, the bump allocator used at
  boot, the buddy page allocators, the page tables (an arena of tables by
  physical address, walks, iterators that create tables on the way, dumps, the mapping of a
  run of pages with flags per page), and the set-up of all of it from the
  bootloader's memory map.
- `memory::virt`: the allocator of virtual address ranges.
- `memory::slab`: the kernel heap's free lists by size class.
- `task`: the task table, the run and sleep queues, the scheduler's
  decisions and the layout of new stacks (guard page, first words);
  `console`: the console's escape-sequence state machine.
- `elf_loader`: the load plan of an ELF program, read with the `elf` crate.
- `ports`, `interrupts`, `gdt`, `cpu`, `syscall`, `core_local`, `drivers`,
  `log`, `lock`, `volatile`: I/O port claims, descriptor tables, interrupt
  handler tables, register values, system-call results, per-core layout,
  driver order and log headers.

`app/` holds what runs on the hardware: the bootloader requests, assembly
(port I/O, control and model-specific registers, interrupt and system-call
entry, stack switches), the kernel's state, and the boot sequence. It hands
plain values to the library and carries out what the library decides.

`tests/` runs the library on concrete values.
