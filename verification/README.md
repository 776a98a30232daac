# sheaf_coherence

Sheaf-theoretic consistency checking for fleets of agents, verified with Verus.

Each agent observes a subset of the shared state variables (an open set of an
`OpenCover`) and holds a local section over it. The verified library (`src/`)
holds the combinatorial side of the theory, with contracts and proofs:

| Module        | Contents |
|---------------|----------|
| `sorted`      | sorted, repeat-free index sets; merge-walk intersection |
| `cover`       | open covers, their intersection lattice, restriction maps |
| `section`     | local sections, families of sections, overlap restrictions |
| `cochain`     | the Čech coboundary matrices d⁰ and d¹ (entries in {-1, 0, 1}); d¹·d⁰ = 0 |
| `gluing`      | collating sections into a global section that restricts to each of them |
| `obstruction` | classification of local-to-global obstructions |
| `persistence` | cover refinement (never fewer sets at a higher resolution) and birth/death tracking of features |
| `sheaf`       | cellular sheaves over graphs, their builder and validation |
| `agent`       | groups of agents as cellular sheaves (complete, path, or given edges) |
| `error`       | the error type |

Values (section data, resolutions, matrix entries) are generic; the
floating-point parts (ranks and kernels by Gaussian elimination, tolerance
comparisons, clamping of confidences, the sheaf Laplacian and coherence
measures) and the serde-enabled
copies of the types live in `app/`, which calls the library.

`AgentSheaf` has no global-section check of its own: whether sections agree
and glue is decided by `gluing` and `obstruction`.

`tests/` runs the library on concrete values.
