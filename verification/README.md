# mir_vm

A mid-level intermediate representation (MIR) of a small functional
language and the code of the stack machine it runs on, as a Verus library.

- `src/mir.rs`: constants, intrinsics, patterns and expressions; refutability
  of bindings, the names a binding introduces, and the locals an expression
  requires (proved to be exactly its free locals not already held).
- `src/mir_print.rs`: the printed form of expressions, as text pieces plus the
  constants and globals they show.
- `src/code.rs`: instructions, addresses with relative jumps, and programs
  built by pushing instructions, patching jumps and recording debug notes;
  the listing of a program.
- `src/text.rs`: decimal and hexadecimal number text used by listings.
- `app/lib.rs`: writing listings to `io::Write`, `Display` for printed
  expressions, and constants holding their numbers as `f64`.
