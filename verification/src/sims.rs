use vstd::prelude::*;

use itertools::Itertools;

verus! {

/// The network model a latency run is simulated over.
#[derive(Clone, Copy, PartialEq, Eq, Debug, Structural)]
pub enum NetworkTopology {
    Uniform,
    Terrestrial,
}

impl NetworkTopology {
    /// The label under which the samples of a topology are written.
    pub fn name(self) -> (s: &'static str)
        ensures
            s@ == (match self {
                NetworkTopology::Uniform => "uniform"@,
                NetworkTopology::Terrestrial => "terrestrial"@,
            }),
    {
        match self {
            NetworkTopology::Uniform => "uniform",
            NetworkTopology::Terrestrial => "terrestrial",
        }
    }
}

/// Where the latency samples of every protocol are written.
pub fn csv_path() -> (s: &'static str)
    ensures
        s@ == "crates/sims/src/bin/latency_cdf/latency_cdf.csv"@,
{
    "crates/sims/src/bin/latency_cdf/latency_cdf.csv"
}

/// Where the decision paths of the Wintermute commands are written.
pub fn path_csv_path() -> (s: &'static str)
    ensures
        s@ == "crates/sims/src/bin/latency_cdf/wintermute_paths.csv"@,
{
    "crates/sims/src/bin/latency_cdf/wintermute_paths.csv"
}

/// The protocols compared by the scalability runs.
#[derive(Clone, Copy, PartialEq, Eq, Debug, Structural)]
pub enum Protocol {
    Bullshark,
    ThreeJane,
    ThreeJaneMaxFaults,
    Wintermute,
    Hotstuff,
}

impl Protocol {
    /// The label under which the results of a protocol are written.
    pub fn name(self) -> (s: &'static str)
        ensures
            s@ == (match self {
                Protocol::Bullshark => "Bullshark"@,
                Protocol::ThreeJane => "3Jane"@,
                Protocol::ThreeJaneMaxFaults => "3Jane*"@,
                Protocol::Wintermute => "Wintermute"@,
                Protocol::Hotstuff => "HotStuff"@,
            }),
    {
        match self {
            Protocol::Bullshark => "Bullshark",
            Protocol::ThreeJane => "3Jane",
            Protocol::ThreeJaneMaxFaults => "3Jane*",
            Protocol::Wintermute => "Wintermute",
            Protocol::Hotstuff => "HotStuff",
        }
    }
}

/// One scalability run: a protocol on a number of nodes.
#[derive(Clone, Copy, PartialEq, Eq, Debug, Structural)]
pub struct Config {
    pub nodes: usize,
    pub protocol: Protocol,
}

/// Node counts on which Bullshark and HotStuff are measured.
pub open spec fn baseline_node_counts() -> Seq<usize> {
    seq![4, 8, 16, 32, 64, 128, 256, 512, 1024]
}

/// Node counts on which Wintermute is measured.
pub open spec fn wintermute_node_counts() -> Seq<usize> {
    seq![6, 8, 16, 32, 64, 128, 256, 512, 1024]
}

/// Node counts on which 3Jane is measured (perfect squares, for its grid).
pub open spec fn three_jane_node_counts() -> Seq<usize> {
    seq![25, 36, 64, 121, 256, 529, 1024]
}

/// Each node count paired with two protocols in turn, `first` before `second`.
pub open spec fn paired_configs(counts: Seq<usize>, first: Protocol, second: Protocol) -> Seq<Config> {
    Seq::new(
        2 * counts.len(),
        |i: int| Config { nodes: counts[i / 2], protocol: if i % 2 == 0 { first } else { second } },
    )
}

/// Each node count paired with one protocol.
pub open spec fn single_configs(counts: Seq<usize>, protocol: Protocol) -> Seq<Config> {
    counts.map_values(|nodes: usize| Config { nodes, protocol })
}

/// Every scalability run, in the order in which the runs are made.
pub open spec fn spec_configs() -> Seq<Config> {
    paired_configs(baseline_node_counts(), Protocol::Bullshark, Protocol::Hotstuff)
        + single_configs(wintermute_node_counts(), Protocol::Wintermute)
        + paired_configs(three_jane_node_counts(), Protocol::ThreeJane, Protocol::ThreeJaneMaxFaults)
}

fn push_paired(out: &mut Vec<Config>, counts: &[usize], first: Protocol, second: Protocol)
    ensures
        final(out)@ == old(out)@ + paired_configs(counts@, first, second),
{
    let ghost start = out@;
    let mut i: usize = 0;
    while i < counts.len()
        invariant
            i <= counts@.len(),
            out@ =~= start + paired_configs(counts@.take(i as int), first, second),
        decreases counts@.len() - i,
    {
        out.push(Config { nodes: counts[i], protocol: first });
        out.push(Config { nodes: counts[i], protocol: second });
        i = i + 1;
        proof {
            let p = paired_configs(counts@.take(i as int), first, second);
            assert forall|k: int| 0 <= k < p.len() implies #[trigger] p[k] == (
                start + paired_configs(counts@.take(i as int), first, second))[start.len() + k]
                by {}
            assert(out@ =~= start + paired_configs(counts@.take(i as int), first, second));
        }
    }
    assert(counts@.take(counts@.len() as int) =~= counts@);
}

fn push_single(out: &mut Vec<Config>, counts: &[usize], protocol: Protocol)
    ensures
        final(out)@ == old(out)@ + single_configs(counts@, protocol),
{
    let ghost start = out@;
    let mut i: usize = 0;
    while i < counts.len()
        invariant
            i <= counts@.len(),
            out@ =~= start + single_configs(counts@.take(i as int), protocol),
        decreases counts@.len() - i,
    {
        out.push(Config { nodes: counts[i], protocol });
        i = i + 1;
        assert(out@ =~= start + single_configs(counts@.take(i as int), protocol));
    }
    assert(counts@.take(counts@.len() as int) =~= counts@);
}

/// Every scalability run: Bullshark and HotStuff on each baseline node count, then
/// Wintermute on its node counts, then both 3Jane variants on each grid size.
pub fn configs() -> (result: Vec<Config>)
    ensures
        result@ == spec_configs(),
{
    let baseline: [usize; 9] = [4, 8, 16, 32, 64, 128, 256, 512, 1024];
    let wintermute: [usize; 9] = [6, 8, 16, 32, 64, 128, 256, 512, 1024];
    let three_jane: [usize; 7] = [25, 36, 64, 121, 256, 529, 1024];
    assert(baseline@ =~= baseline_node_counts());
    assert(wintermute@ =~= wintermute_node_counts());
    assert(three_jane@ =~= three_jane_node_counts());
    let mut out: Vec<Config> = Vec::new();
    push_paired(&mut out, &baseline, Protocol::Bullshark, Protocol::Hotstuff);
    push_single(&mut out, &wintermute, Protocol::Wintermute);
    push_paired(&mut out, &three_jane, Protocol::ThreeJane, Protocol::ThreeJaneMaxFaults);
    assert(out@ =~= spec_configs());
    out
}

/// The runs kept when only the node count `nodes` is asked for (all runs when none
/// is), in the order of `configs`.
pub fn selected_configs(nodes: Option<usize>) -> (result: Vec<Config>)
    ensures
        result@ == spec_configs().filter(|c: Config| nodes is None || Some(c.nodes) == nodes),
{
    let all = configs();
    let ghost pred = |c: Config| nodes is None || Some(c.nodes) == nodes;
    let mut out: Vec<Config> = Vec::new();
    let mut i: usize = 0;
    while i < all.len()
        invariant
            all@ == spec_configs(),
            i <= all@.len(),
            pred == (|c: Config| nodes is None || Some(c.nodes) == nodes),
            out@ == all@.take(i as int).filter(pred),
        decreases all@.len() - i,
    {
        proof {
            assert(all@.take(i as int + 1).drop_last() =~= all@.take(i as int));
            reveal(Seq::filter);
        }
        let c = all[i];
        let keep = match nodes {
            None => true,
            Some(n) => c.nodes == n,
        };
        if keep {
            out.push(c);
        }
        i = i + 1;
    }
    assert(all@.take(all@.len() as int) =~= all@);
    out
}

/// Calls itertools' `cartesian_product`, which pairs each element of `a` with each
/// element of `b`, going through `b` for each element of `a` in turn.
#[verifier::external_body]
fn cartesian<A: Copy, B: Copy>(a: Vec<A>, b: Vec<B>) -> (out: Vec<(A, B)>)
    requires
        a@.len() * b@.len() <= usize::MAX,
    ensures
        out@.len() == a@.len() * b@.len(),
        forall|i: int, j: int| 0 <= i < a@.len() && 0 <= j < b@.len() ==> #[trigger] out@[i * b@.len() + j] == (a@[i], b@[j]),
{
    a.into_iter().cartesian_product(b).collect()
}

/// One run of the latency sweep: the key count, the submit interval, the announce
/// timeout, and the bounds of the uniform network latency.
#[derive(Clone, Copy, PartialEq, Eq, Debug, Structural)]
pub struct LatencyParams {
    pub key_count: usize,
    pub submit_interval: usize,
    pub announce_timeout: usize,
    pub latency_low: usize,
    pub latency_high: usize,
}

/// Key counts of the latency sweep.
pub open spec fn sweep_key_counts() -> Seq<usize> {
    seq![1, 16, 128, 256, 1024, 65535]
}

/// Submit intervals of the latency sweep.
pub open spec fn sweep_submit_intervals() -> Seq<usize> {
    seq![1, 2, 5, 10, 20, 50, 100, 200, 500]
}

/// Announce timeouts of the latency sweep.
pub open spec fn sweep_announce_timeouts() -> Seq<usize> {
    seq![20, 50, 100, 200, 500]
}

/// The latency sweep: every key count, with every submit interval, with every
/// announce timeout (in that nesting), over a fixed latency of 20.
pub fn sweep() -> (out: Vec<LatencyParams>)
    ensures
        out@.len() == 270,
        forall|i: int, j: int, k: int| 0 <= i < 6 && 0 <= j < 9 && 0 <= k < 5 ==> #[trigger] out@[(i * 9 + j) * 5 + k] == (LatencyParams {
            key_count: sweep_key_counts()[i],
            submit_interval: sweep_submit_intervals()[j],
            announce_timeout: sweep_announce_timeouts()[k],
            latency_low: 20,
            latency_high: 20,
        }),
{
    let key_counts: Vec<usize> = vec![1, 16, 128, 256, 1024, 65535];
    let submit_intervals: Vec<usize> = vec![1, 2, 5, 10, 20, 50, 100, 200, 500];
    let announce_timeouts: Vec<usize> = vec![20, 50, 100, 200, 500];
    let latencies: Vec<(usize, usize)> = vec![(20, 20)];
    assert(key_counts@ =~= sweep_key_counts());
    assert(submit_intervals@ =~= sweep_submit_intervals());
    assert(announce_timeouts@ =~= sweep_announce_timeouts());
    let ghost timeouts = announce_timeouts@;
    let p1 = cartesian(key_counts, submit_intervals);
    assert(p1@.len() == 54);
    let p2 = cartesian(p1, announce_timeouts);
    assert(p2@.len() == 270);
    let p3 = cartesian(p2, latencies);
    assert(p3@.len() == 270);
    let mut out: Vec<LatencyParams> = Vec::new();
    let mut n: usize = 0;
    while n < p3.len()
        invariant
            n <= p3@.len(),
            p3@.len() == 270,
            out@.len() == n,
            forall|m: int| 0 <= m < n ==> #[trigger] out@[m] == (LatencyParams {
                key_count: p3@[m].0.0.0,
                submit_interval: p3@[m].0.0.1,
                announce_timeout: p3@[m].0.1,
                latency_low: p3@[m].1.0,
                latency_high: p3@[m].1.1,
            }),
        decreases p3@.len() - n,
    {
        let (((key_count, submit_interval), announce_timeout), (latency_low, latency_high)) = p3[n];
        out.push(LatencyParams { key_count, submit_interval, announce_timeout, latency_low, latency_high });
        n = n + 1;
    }
    assert forall|i: int, j: int, k: int| 0 <= i < 6 && 0 <= j < 9 && 0 <= k < 5 implies #[trigger] out@[(i * 9 + j) * 5 + k] == (LatencyParams {
        key_count: sweep_key_counts()[i],
        submit_interval: sweep_submit_intervals()[j],
        announce_timeout: sweep_announce_timeouts()[k],
        latency_low: 20,
        latency_high: 20,
    }) by {
        let a = i * 9 + j;
        let b = a * 5 + k;
        assert(0 <= a < 54 && 0 <= b < 270) by (nonlinear_arith)
            requires
                0 <= i < 6,
                0 <= j < 9,
                0 <= k < 5,
                a == i * 9 + j,
                b == a * 5 + k,
        {}
        assert(p3@[b * 1 + 0] == (p2@[b], (20usize, 20usize)));
        assert(b * 1 + 0 == b);
        assert(p2@[a * 5 + k] == (p1@[a], timeouts[k]));
        assert(p1@[i * 9 + j] == (sweep_key_counts()[i], sweep_submit_intervals()[j]));
    }
    out
}

/// One run of the conflict-rate sweep: a submit interval and a seed.
#[derive(Clone, Copy, PartialEq, Eq, Debug, Structural)]
pub struct ConflictRateParams {
    pub submit_interval: usize,
    pub seed: u64,
}

/// Submit intervals of the conflict-rate sweep.
pub open spec fn conflict_rate_intervals() -> Seq<usize> {
    seq![1, 19, 24, 31, 37, 46, 59, 78, 114, 200, 20000]
}

/// Seeds of the conflict-rate sweep.
pub open spec fn conflict_rate_seeds() -> Seq<u64> {
    seq![42, 43, 44, 45, 46]
}

/// The conflict-rate sweep: every submit interval with every seed, interval by
/// interval.
pub fn conflict_rate_sweep() -> (out: Vec<ConflictRateParams>)
    ensures
        out@.len() == 55,
        forall|i: int, j: int| 0 <= i < 11 && 0 <= j < 5 ==> #[trigger] out@[i * 5 + j] == (ConflictRateParams {
            submit_interval: conflict_rate_intervals()[i],
            seed: conflict_rate_seeds()[j],
        }),
{
    let intervals: [usize; 11] = [1, 19, 24, 31, 37, 46, 59, 78, 114, 200, 20000];
    let seeds: [u64; 5] = [42, 43, 44, 45, 46];
    assert(intervals@ =~= conflict_rate_intervals());
    assert(seeds@ =~= conflict_rate_seeds());
    let mut out: Vec<ConflictRateParams> = Vec::new();
    let mut i: usize = 0;
    while i < 11
        invariant
            i <= 11,
            intervals@ == conflict_rate_intervals(),
            seeds@ == conflict_rate_seeds(),
            out@.len() == i * 5,
            forall|a: int, b: int| 0 <= a < i && 0 <= b < 5 ==> #[trigger] out@[a * 5 + b] == (ConflictRateParams {
                submit_interval: conflict_rate_intervals()[a],
                seed: conflict_rate_seeds()[b],
            }),
        decreases 11 - i,
    {
        let mut j: usize = 0;
        let ghost before = out@;
        while j < 5
            invariant
                i < 11,
                j <= 5,
                intervals@ == conflict_rate_intervals(),
                seeds@ == conflict_rate_seeds(),
                before.len() == i * 5,
                out@.len() == i * 5 + j,
                forall|m: int| 0 <= m < i * 5 ==> #[trigger] out@[m] == before[m],
                forall|b: int| 0 <= b < j ==> #[trigger] out@[i * 5 + b] == (ConflictRateParams {
                    submit_interval: conflict_rate_intervals()[i as int],
                    seed: conflict_rate_seeds()[b],
                }),
            decreases 5 - j,
        {
            out.push(ConflictRateParams { submit_interval: intervals[i], seed: seeds[j] });
            j = j + 1;
        }
        proof {
            assert forall|a: int, b: int| 0 <= a < i + 1 && 0 <= b < 5 implies #[trigger] out@[a * 5 + b] == (ConflictRateParams {
                submit_interval: conflict_rate_intervals()[a],
                seed: conflict_rate_seeds()[b],
            }) by {
                if a < i {
                    assert(a * 5 + b < i * 5) by (nonlinear_arith)
                        requires
                            0 <= a < i,
                            0 <= b < 5,
                    {}
                    assert(out@[a * 5 + b] == before[a * 5 + b]);
                }
            }
        }
        i = i + 1;
    }
    out
}

}
