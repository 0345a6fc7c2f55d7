# scx_cohort

The policy core of a CCD-affine scheduler, written in Verus: every function in
`src/` is verified against the contract it carries, except the two in
`src/glob.rs` that call an outside crate.

The scheduler groups related tasks into cohorts, gives each cohort a home CCD
(the CPUs that share one last-level cache, LLC), and crosses between CCDs only
when the load clearly asks for it. The library decides; the programs in `app/`
read and write kernel maps, sockets, files and terminals.

## Layout

- `src/balancer.rs`, `src/spill.rs`, `src/spill_map.rs`: which whole cohorts
  move, and which members of an oversized cohort run elsewhere
- `src/wake_graph.rs`, `src/components.rs`: which cohorts merge or split, from
  observed wakeups
- `src/config.rs`, `src/glob.rs`, `src/options.rs`: rules and options
- `src/intake.rs`, `src/scheduler.rs`, `src/topology.rs`: what a daemon tick
  reads and comes to, and the machine it runs on
- `src/stats.rs`, `src/procs.rs`, `src/server.rs`, `src/top.rs`: what is
  reported
- `src/tunables.rs`, `src/domain.rs`: shared definitions
- `src/bench.rs`: bookkeeping of the message round-trip benchmark
- `src/*_laws.rs`, and the ends of the smaller modules: what holds across calls
- `tests/`: the same functions on concrete values
- `app/`: the daemon and the benchmark

## What is trusted

`check_glob` and `match_glob` in `src/glob.rs` call the `globset` crate; their
contracts say that the outcome depends on the pattern and the path alone, that
there is an answer exactly where the pattern is a glob, and no more.

Rates and percentages that are doubles at the edges are integers inside: a wake
rate is held by a rank that orders as the double does, a percentage by the two
numbers it divides.
