# starlight

The logic of a hardware design toolkit, verified with Verus: lookup tables
and their reductions, the lowering of bit vector operations into lookup table
circuits, the evaluation of lookup table nodes over partly unknown values,
the optimizer's and the delayer's queues, permutations, a grid, a seeded
random number generator, and the data of the router.

- `src/` is the library. Every function has a contract, and the laws that
  relate several functions are public proof functions (`law_*`).
  - `lut`, `lnode`: tables of `2^n` entries, their reduction on an input,
    independence of an input, and the exchange of two inputs.
  - `meta`: the circuits that operations lower to (shifts, fields, adders,
    comparisons, counts, multiplication, division), on vectors of bits.
  - `lower_op`, `lower_state`, `state`: lowering an operation, with the
    value of the circuit stated against the meaning of the operation;
    the static forms of operations with literal operands; and what each
    output bit of an elementary operation becomes.
  - `eval`: the value of a lookup table node, known exactly when no choice
    of its unknown inputs could change it.
  - `optimize`, `tdag`, `tnode`, `value`: the optimizer's queue and
    decisions, the folding of constant inputs, the delayer and the
    evaluator's events, and multistate values.
  - `ensemble`, `stator`: the equivalences of bits with their back
    references, lookup table nodes, temporal nodes and external nodes, kept
    well formed by every optimization, which also keeps what each external
    bit reads; and the states, whose rootward trees are lowered to
    elementary operations. Their entries live in vectors of slots that are
    never reused.
  - `render`: the web of nodes around fixed ones, laid out for drawing in
    two dimensions.
  - `stream`, `rng`: the word stream of the seeded xoshiro generator, and
    the generator that hands it out bit by bit.
  - `perm`, `grid`, `small_map`, `route`, `debug`, `ptr`, `error`:
    the rest of the data structures.
- `tests/` runs the library on concrete values.
- `app/` holds what stays in ordinary Rust: printing, formatting, and the
  `rand_core` traits for the generator.
