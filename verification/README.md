# rjava

A Java bytecode engine written in Verus: executable Rust whose behaviour is stated in contracts and
proved.

- `src/` is the library.
  - `ids`, `value`, `text`, `inline`: identifiers, 128-bit tagged values, text and short lists.
  - `diff`, `env`: chains of effects, and the register file with its unlanded writes.
  - `registry`, `lock`, `heap`: bounds-checked stores, control blocks, locks, and the object heap with
    its reference counts. `refcount` shows that counts count references, and that no batch of changes
    reclaims an object that is still referenced.
  - `classfile`, `verify`: the class-file parser and the type-checking verifier.
  - `ir`, `ssa`: SSA form and its construction from bytecode. `ssa::laws` shows that every value is
    defined at most once, `ssa::accepted` that verified methods can be built, `ssa::meaning` what
    bytecode means and that verified code is type-safe, and `ssa::preserved` that the SSA form computes
    what the bytecode means.
  - `native`, `stdlib`, `loader`, `world`: builtin classes, linking, and what guest code acts on.
  - `interp`: the machine. `interp::machine` specifies one step, `interp::program` runs programs,
    `interp::soundness` shows what every step keeps and that every run ends, `interp::accounts` that
    no step loses or invents a reference, `interp::exclusive` that scope-exclusive objects stay with
    their scope, `interp::survival` that no step reclaims an object that is still referenced and that
    interned strings are never released, except where an allocation initialises its class while
    changes are pending, and `interp::bytecode` that a call comes to what the bytecode of its method
    means.
- `tests/` runs the library on concrete classes, values and programs.
- `app/` is the launcher: command line, files, standard output, the floating-point unit, and waiting
  for locks.

Floating-point arithmetic is done outside the library: the machine stops with a request on raw bits
and goes on with the answer.
