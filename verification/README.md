# blsmr

Verified building blocks of three replication protocols, written in Verus and
driven by the `dscale` discrete-event simulator:

- BLSMR, a leaderless protocol: dependency discovery (`blsmr::dds`) with a fast
  path and a slow path (`blsmr::quorum`, or a PBFT committee in `blsmr::pbft`),
  and a per-process command log (`blsmr::log`) that promotes committed commands
  to stable once their dependencies are committed and executes them
  dependencies first (strongly connected components in Tarjan's order, each in
  identity order).
- HotStuff (`hotstuff`), chained, with a commit rule on great-grandparents.
- Bullshark (`bullshark`), on a round-based DAG (`bullshark::dag_utils`) fed
  by a consistent broadcast (`bullshark::consistent_broadcast`).

Quorum systems (`quorum`: thresholds and grids, with proofs that grid quorums
intersect), commands (`client`), small ordered maps keyed by command identity
(`cmd_map`) and the simulation configurations (`sims`) complete the library.
The protocol handlers are state machines: each takes a message or a timer and
returns the actions to perform, with contracts that say what changes and what
is sent.

`app/` runs the simulations: it owns the simulator, the network topologies,
timing, file output and the floating-point statistics, and calls the library
for every decision.
