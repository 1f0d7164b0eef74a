# extremal

A verified core for a Ramsey-graph search system: graphs `G` on `n`
vertices with no `k`-clique in `G` and no `ell`-clique in its complement.

The library (`src/`) is written in Verus. Its own functions carry
contracts that Verus proves; the small wrappers around outside crates
(listed below) carry contracts that are trusted, not proved, and some of
them, for random draws, state nothing of their result. It holds

- the data: packed upper-triangle adjacency matrices (`adjacency`), graph6
  text (`graph6`), bitmask neighbour sets and clique counting (`clique`,
  `guilty`), clique histograms and Goodman's bound (`histogram`,
  `goodman`), content identifiers (`cid`, `types`, `hexstr`, `digest`);
- the constructions: Paley, circulant and Cayley graphs, Seidel switching
  (`paley`, `circulant`, `cayley`, `seidel`);
- the searches, each a function from its parameters to a result whose
  discoveries are proved valid: beam search (`tree2`, `beam`), gradient
  descent (`gradient`), tabu search (`tabu`), crossover (`crossover`),
  greedy construction (`construct`), large-neighbourhood search (`lns`),
  template enumeration (`template`), refinement (`refine`), path relinking
  (`relink`), simulated annealing (`sa`, `experiments`; the temperature
  rule, in floating point, is handed in by the caller), and the score-aware polish walks they share (`polish`), with
  the flip laws that keep the violation counts exact (`exchange`);
- identities and signatures (`identity`, `submission`), the worker
  engine's round decisions (`engine`), the dashboard's worker registry
  (`dashboard`) and the server's request checks and records (`server`).

Randomness, hashing and signatures come from the `rand`, `blake3`, `sha2`,
`ed25519-dalek` and `hex` crates through small trusted wrappers
(`random`, `digest`, `hexstr`, and a few in `identity` and `graph6`) whose
contracts say what those crates document and no more.

`app/` is a command-line front end (key files on disk, scoring, signing,
offline search rounds); `tests/` runs the library on concrete inputs.
