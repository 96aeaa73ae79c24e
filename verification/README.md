# neo_riscv_vm

The decision logic of a NeoVM runtime hosted on PolkaVM, written in Verus and proved
against its contracts.

`src/` is the verified library:

- `stack_value`, `compound`, `guest_abi` — stack items with identities for compound items,
  alias refreshing after an update, deep copies with fresh identities, and the identity-free
  form a syscall receives (handing it out and taking it back is a deep copy).
- `values`, `integer`, `modular` — the operand rules of the interpreter: popping and
  converting operands, VM equality, little-endian integer encoding, bitwise operations and
  shifts, integer square root, modular exponentiation and inverse.
- `retained` — the byte format in which the guest keeps stacks across a syscall, with its
  round-trip law.
- `storage`, `bridge`, `syscalls` — the built-in storage cache (small, inline and heap tiers
  with a remembered hot entry), the storage syscalls answered from an encoded stack, and the
  built-in syscall table.
- `pricing`, `execution` — opcode prices, fee and gas accounting, the instruction ceiling,
  auxiliary-memory layout and how an execution's outcome is settled.
- `abi`, `native`, `error`, `text`, `render`, `interop`, `profiling` — the host's exchange
  types, the adapter's stack items and their read-back, the host error, message text, the
  debug text of stack items, syscall ids, and memory counters.

`app/` holds what cannot be verified: the `#[repr(C)]` structures and raw pointers of the
adapter boundary, per-thread fault side channels, the PolkaVM host imports that move bytes
between guest memory and the library, and the host error with its `Display` form.

`tests/` runs the library on concrete values.
