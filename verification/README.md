# faer-precond

Preconditioners for iterative linear solvers, verified with Verus.

A preconditioner approximates `A^{-1}` for a sparse matrix `A`. This crate holds
point Jacobi, block Jacobi, SSOR, ILU(0), ILU(k), IC(0), ICT, ILUTP, polynomial
(Neumann and Chebyshev), FSAI and SPAI preconditioners, and an adapter that wraps
a solver. The contracts say which entries every factor holds and in what order
they are computed, when a construction fails and with which error, and what each
apply makes of a right-hand side.

## Layout

- `src/` is the verified library.
  - `scalar`, `fixed`: abstract matrix entries, and fixed-point numbers as one
    instance.
  - `sparse`, `dense`, `linalg`, `triangular`, `transpose`, `heap`, `overlay`,
    `util`: matrices, the operations on them, and the texts of errors.
  - `op`, `scratch`: how a preconditioner is applied, and the memory it asks for.
  - `jacobi`, `block_jacobi`, `ssor`, `lu`, `ilu0`, `iluk`, `ic0`, `ict`, `ilutp`,
    `poly`, `fsai`, `spai`, `adapters`: the preconditioners.
  - `sums`, `inverse`, `conjugates`, `reals`, `reading` and the `laws` modules:
    what holds of them in exact arithmetic. The `unique` modules: that a threshold
    factorisation is determined by its matrix and parameters.
  - `poly::chebyshev`, `alternation`, `differences`, `minimax` and `spectral`: why
    the Chebyshev polynomial is the best of its degree.
- `tests/` runs the library on double precision and complex matrices, with faer's
  dense kernels and inside faer's iterative solvers.
- `app/` puts the library behind faer's matrix types and operator traits.

## Arithmetic

Matrix entries are abstract. A contract names the operations (`plus`, `times`,
`reciprocal`, ...) without assuming that they are associative or exact, so it
holds for floating point too, and fixes the order of evaluation. Tuning parameters
have a type of their own, so that single precision matrices take parameters in
double precision. Laws are the
public proof functions whose names begin with `law_`. Those that need exact
arithmetic, such as that ILU(0) inverts a tridiagonal matrix, ask for it by name
(`exact_field`, `exact_conjugation`, ...).
