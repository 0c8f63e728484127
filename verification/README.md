# ci-pipeline

A runner of continuous integration pipelines, with a server for a shared cache.
A pipeline is a YAML file with jobs. Jobs depend on each other, run in parallel,
can be multiplied by a matrix, run under conditions, and pass on outputs and
artifacts.

## Layout

- `src/` is the library. It holds all rules and is verified with Verus. It does
  no input or output: what it needs of the outside world it is given as plain
  values, and what is to be done there it returns as plain values.
- `app/` is the program around it: arguments, files, processes, containers and
  the network. Started under the name `ci-cache-server` it serves the cache.
- `tests/` runs the library on concrete values.

## Modules of the library

- Definitions: `models`, `string_map`, `parser`, `validator`, `syntax`.
- Order of jobs: `dag`, `digraph`, `matrix`, `trigger`, `scheduler`, `plan`,
  `prepare`.
- One job: `flow`, `executor`, `variables`, `conditions`, `services`,
  `artifacts`, `logging`.
- What stays of a run: `state`, `history`, `reporting`.
- The shared cache: `remote_cache`, `cache_server`.
- The command line: `cli`.
- Text and numbers: `text`, `order`, `letters`, `numbers`, `rounding`, `paths`,
  `pattern`, `color`, `clock`, `digest`.

## What is taken on trust

Calls into other crates stand behind small functions whose contracts are not
proved: graphs of `petgraph` (`digraph`), patterns of `glob` and `regex`
(`pattern`), colours of `colored` (`color`), times of `chrono` (`clock`), and
digests of `sha2` and fields of `serde_json` (`digest`); and of the standard
library the classes of characters (`letters`) and `String::push` (`text`).
