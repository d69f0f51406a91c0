# toast

The verified core of Toast, a small x86_64 hobby kernel.

- `src/` is the library, checked by Verus: physical frame allocators and their
  metadata layout, the kernel's virtual address space allocator, page-table
  entries, walks and the kernel's initial mappings, the kernel heap's slab
  allocator, the text consoles (VGA text mode and framebuffer) and the scanlines
  that draw them, the virtual file system tree, ext2 superblock decoding,
  ACPI/CPUID/PCI decoding and the debug shell's command decisions.
- `app/` is the kernel's entry and its glue to the boot loader (Limine), port and
  register I/O, the global allocator, and the global state.
- `tests/` exercise the library on concrete values.
