# dslab

A verified core for a distributed-systems simulation toolkit, written in Verus.

`src/` is the verified library:

- `util` — `Counter`, `VecMap` and `DefaultVecMap`, maps keyed by small integers;
- `placement` — a model of the resource pool and the first-fit, best-fit and
  worst-fit virtual machine placement policies;
- `placement_config` — reading a policy description such as
  `BestFitThreshold[threshold=0.8]` and its `key=value` arguments;
- `trace` — turning task-table lines of a batch-cluster trace into records and
  selecting the jobs to convert into DAGs;
- `dag_links` — the dependency links between the instances of a job;
- `wfcommons` — schema-version, stage and graph-building rules of the WfCommons
  workflow format;
- `numbers`, `text` — decimal numbers and character-level helpers;
- `invocation`, `migration` — types shared with the simulator.

`app/` holds what works with floating-point quantities or I/O: the trace
conversion tool, the load-threshold placement policy, the power model, the
invocation registry, migration decisions and the WfCommons reader.
