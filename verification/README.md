# tg_rcore

The logic of a small RISC-V teaching kernel, its machine-mode firmware and its user
programs, written in Verus and proved against its contracts.

- `src/` is the verified library: the firmware's SBI decisions (`sbi`), boot helpers
  (`boot`), device probing and interrupt routing (`devices`), the legacy VirtIO block
  queue (`virtio_blk`), ELF loading (`elf_load`, reading files with `xmas-elf`), the
  kernel's address-space plans and system-call rules (`kernel`, `vm`, `fd_table`,
  `user_alloc` over `rangemap`), keyboard records (`input`, `ring_buffer`), the stress
  test's log check (`stress`), the shell's line editor (`shell`), the cursor image
  (`cursor`, decoded with `tinybmp`), and the games: drawing (`display`), `tetris`,
  `snake`, `breakout`, `pingpong` and `tangram`.
- `app/` holds what touches the machine: register and device-memory access, the kernel
  heaps, interrupt-masking locks, the VirtIO drivers of `virtio-drivers`, the devicetree
  walk, the process system calls and run loop over an address-space interface, and the
  game loops.
- `tests/` runs the library on concrete values.
