# ecs_benchmarking

Benchmarks that run the same workloads on several Rust ECS libraries (freecs,
bevy_ecs, sky_ecs) and a report that compares their Criterion timings.

- `src/` is the verified library (Verus): the ordering of the library columns, the
  choice of the fastest library and of the two times the speedup compares, the
  terminal table, the Markdown report and the UTC timestamp, each with a contract,
  and the laws they satisfy.
- `app/` is the report program (reading Criterion's files, float formatting,
  printing and writing the report) and the benchmark scenarios themselves, whose
  `f32` components and outside ECS worlds stay outside the verified library.
- `tests/` exercises the library on concrete values.
