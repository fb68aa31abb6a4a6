# pso_rs

Particle swarm optimisation (Clerc–Kennedy constriction, lbest/gbest
neighbourhoods, optional objective cache), split in two:

- `src/` — the library, verified with Verus. It holds what the swarm decides:
  comparison keys for doubles (`order_key`), best-particle selection (`best`),
  ring neighbourhoods and local bests (`neighborhood`), placement of moved
  coordinates in their bounds (`bounds`), configuration checks (`config`),
  particle shape arithmetic (`layout`), the evaluation cache (`cache`), the
  evaluation budget of a run (`budget`) and the seeded generator (`rng`).
- `app/` — the floating-point side: configuration, model and swarm types,
  velocity updates, parallel objective evaluation, progress bar, trajectory
  files and two demonstration objectives. It calls the library for every
  decision.
- `tests/` — tests of the library.
