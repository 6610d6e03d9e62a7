# fabriken

The core of a small distributed build system, verified with Verus.

A build definition lists the steps of a pipeline. The library numbers the steps,
builds the graph of their dependencies (a `petgraph` graph map), refuses cyclic
definitions, hands steps to the executor in dependency order, decides the container
commands that run each step, and keeps the controller's records of its agents and
their health watches.

- `src/` holds the library, with its contracts and proofs:
  `graph` (the dependency graph and what is known of `petgraph`), `pipeline`
  (pipelines and their producer), `scheduler` (dependency-ordered dispatch),
  `executor` and `executors` (steps, container commands, and the decisions taken
  while a step runs), `env` (environment variables), `models` (the build
  definition), `channels` (the messages between the parts and the updates a build
  reports), `agents` (agent records and health watches), `text` (joining and
  trimming).
- `app/` is the controller program: a REST API that reads `ritning.yaml`, runs
  the pipeline with `podman`, `docker` or `buildah`, and watches registered
  agents over gRPC health checks; it logs the updates of each build.
- `tests/` runs the library on concrete builds.
