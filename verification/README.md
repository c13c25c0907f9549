# pixelflow_ir

An expression compiler for pixel kernels. Expressions are built in an arena,
lowered to machine primitives, scheduled, given registers, and emitted as machine
code for AArch64 (NEON), x86-64 (SSE) and x86-64 (AVX-512). The whole of it is
written in Verus: what each function returns is stated in its contract and proved.

A float is its 32-bit pattern throughout, since the compiler moves constants but
never computes with them.

## Layout

- `src/arena*`: expression arenas, their terms, traversals, substitution, splicing
  and linking.
- `src/binding.rs`, `src/variance.rs`, `src/fold.rs`: buffers and uniforms, which
  variables an expression depends on, and folds.
- `src/backend/emit`: the compiler. `lowering` expands transcendentals, buffer reads
  and folds; `schedule` orders values and finds what can be hoisted or skipped;
  `regalloc` gives out registers; `plan` says what to load and store around an
  instruction; `isa` is what a machine must provide; `driver` emits a kernel for any
  machine; `aarch64`, `x86_64` and `avx512` encode instructions; `kernels` are the
  entry points, with derivatives in `kernels/jets.rs`.
- `src/backend/lanes.rs`, `arm.rs`, `wasm.rs`: the parts of four-lane vectors that
  work on bits.
- `app/`: executable memory, kernels as functions, and floating-point lanes.
- `tests/`: among them interpreters of both instruction sets, which run the emitted
  kernels.

## What is proved of the whole

- `driver::meaning`: the plans of a kernel compute the value of the expression, for
  any interpretation of the operations.
- `driver::guarded`: so does a kernel that skips arms of a select, whichever of its
  branches are taken.
- `kernels::pixels`: a scanline kernel computes the expression at every pixel, with a
  setup block or without, and whichever branches are taken.
- `lowering`: an expansion leaves none of the operations that it expands, and
  keeps the meaning of everything else. No transcendental that an expression reaches
  is left after it is expanded.
- `kernels::derivative`: the partials of a jet are the derivatives of the
  expression.
- `schedule::hoisting`: what is put in the setup block of a scanline does not depend
  on X.
- `regalloc`: each value has one place, and values alive together do not share one
  unless both are bound to it in advance. Interference graphs of schedules are
  chordal, and chordal graphs are colored with as few registers as possible.
- `aarch64::frame`: the end of a scanline kernel loads what its start saved and puts
  the stack pointer back; its branches lead to the loop header and behind the loop.
- Encoders: words of branches and addresses decode to what was encoded.
