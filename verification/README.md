# moose

Kernels for computing on tensors that are encoded in rings and shared among hosts, and the protocol
by which the hosts exchange values, verified with Verus.

- `src/` is the library. `array.rs` holds the mathematical model that the contracts of all tensor
  types speak of; `host_ops.rs` holds the calls into `ndarray`, whose contracts are trusted.
- `app/` is what surrounds it: `f64` as the number type of fixed-point encoding, serialized values,
  and TCP streams.
- `tests/` runs the library, with floating-point sessions where a kernel asks for exponentials and
  quotients.

Numbers stay abstract in the library: a number type is an implementation of `Real` and `Quantize`,
with exact fractions (`ratio.rs`) as the one that the library itself has. Exponentials and quotients
of shared tensors are up to the session (`PlacementExp`, `PlacementDiv`).
