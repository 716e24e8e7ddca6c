# fastsim

A block-diagram simulation engine with proofs. The library in `src/` is written in
[Verus](https://github.com/verus-lang/verus): what each function does is stated in its
`requires` and `ensures` clauses, and Verus proves that the code meets them.

## What it holds

| module | contents |
| --- | --- |
| `scalar`, `expr`, `numeric`, `matrix` | numbers behind a trait, formulas over them, norms and dense matrices |
| `optim` | Anderson acceleration, Newton steps, cached dense and sparse solves, least squares, loop accelerators, collocation for boundary-value problems |
| `ir` | the serializable snapshot of a model: schema, lowering of op graphs, reference evaluation, whole scopes |
| `linearize` | linear models of blocks and of whole diagrams, and their sensitivities |
| `simulation` | assembly of a diagram, evaluation, steps, events, runs, operating points and limit cycles |
| `model`, `scheduling` | descriptions of live models, and what the scheduler is given of a scope |
| `front` | what a scripting surface decides: options, arguments, tracing of callbacks, errors and warnings |

## How it is specified

Numbers are a trait, `Scalar`, that promises nothing about its operations. A contract
says which operations are applied to which operands, in which order; it holds for every
implementation, rounding included. Factorizations stand behind `Backend`, the blocks,
connections, events and engines of a running system behind `Runtime`, the analysis of
evaluation orders behind `Scheduler`.

A simulation reaches its runtime through a `Driver`, which holds the runtime and a ghost
log, both private to `simulation::runtime`. A method of the driver makes one call of the
runtime: its contract says that the runtime was called with the arguments given, that what
it returned is handed back, that the runtime is left as that call left it, and that the
log grows by just that call. A simulation cannot write the log in any other way, and
lending the runtime to code outside is a call of its own in the log. The contracts of a
simulation say what the log becomes; what a call does to the blocks behind it is theirs to
say.

Statements about several functions at once are public proof functions whose names begin
with `law_`. Where one needs arithmetic to be exact or a backend to be deterministic, it
says so among its premises.

`tests/` runs the library on double-precision numbers and with the factorizations of
faer. `app/` is the surface around the library: those numbers and factorizations, JSON,
messages, systems of Python objects, and the Python extension. Blocks, solvers, tracing and
scheduling are the work of a host, an object that a script names with `use_host`.
