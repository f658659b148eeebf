use vstd::prelude::*;

use crate::client::Pid;
use dscale::rand::rngs::SmallRng;

pub mod grid;
pub mod thres;

verus! {

enum Flavor {
    Threshold(thres::QuorumSystem),
    WitnessGrid(grid::QuorumSystem),
}

/// A quorum system of either flavor: a threshold system (any large enough group) or
/// a witness grid (full rows and columns of a square grid).
pub struct QuorumSystem {
    flavor: Flavor,
}

/// Faults that the default witness grid of side `n` tolerates in consensus:
/// `max(1, (n - 2) / 3)`.
pub open spec fn default_grid_faults(n: int) -> int {
    if (n - 2) / 3 > 1 { (n - 2) / 3 } else { 1 }
}

/// On a grid of side `n >= 2` the default committee of `3f + 1` members, for
/// `f = max(1, (n - 2) / 3)`, always fits in the grid, so it is never cut down to the
/// population; it tolerates at least one fault, and it grows with the side: it has at
/// least `n - 3` members, and a larger grid never gets a smaller committee.
pub proof fn lemma_default_grid_committee(n: int)
    requires
        n >= 2,
    ensures
        default_grid_faults(n) >= 1,
        default_grid_faults(n) >= (n - 2) / 3,
        3 * default_grid_faults(n) + 1 <= n * n,
        3 * default_grid_faults(n) + 1 >= 4,
        3 * default_grid_faults(n) + 1 >= n - 3,
        forall|m: int| n <= m ==> default_grid_faults(n) <= #[trigger] default_grid_faults(m),
{
    let f = default_grid_faults(n);
    assert(3 * ((n - 2) / 3) <= n - 2) by (nonlinear_arith) requires n >= 2;
    assert(3 * ((n - 2) / 3) >= n - 4) by (nonlinear_arith) requires n >= 2;
    assert(n * n >= 2 * n) by (nonlinear_arith) requires n >= 2;
    assert forall|m: int| n <= m implies default_grid_faults(n) <= #[trigger] default_grid_faults(m) by {
        assert((n - 2) / 3 <= (m - 2) / 3) by (nonlinear_arith) requires n <= m;
    }
}

impl QuorumSystem {
    /// The system is usable: a threshold system has a defined quorum size, a grid is
    /// well formed.
    pub closed spec fn wf(&self) -> bool {
        match self.flavor {
            Flavor::Threshold(qs) => qs.size_defined(),
            Flavor::WitnessGrid(qs) => qs.wf(),
        }
    }

    /// Whether the system is a witness grid.
    pub closed spec fn is_grid(&self) -> bool {
        self.flavor is WitnessGrid
    }

    /// The processes of the system.
    pub closed spec fn members(&self) -> Seq<Pid> {
        match self.flavor {
            Flavor::Threshold(qs) => qs.members(),
            Flavor::WitnessGrid(qs) => qs.grid(),
        }
    }

    /// Number of processes in a quorum.
    pub closed spec fn spec_size(&self) -> int {
        match self.flavor {
            Flavor::Threshold(qs) => qs.spec_size(),
            Flavor::WitnessGrid(qs) => qs.rows_per_quorum() * qs.side(),
        }
    }

    /// Side of the grid of a witness grid (zero for a threshold system).
    pub closed spec fn grid_side(&self) -> int {
        match self.flavor {
            Flavor::Threshold(_) => 0,
            Flavor::WitnessGrid(qs) => qs.side(),
        }
    }

    /// Rows (and columns) that a quorum of a witness grid holds in full (zero for a
    /// threshold system).
    pub closed spec fn grid_rows(&self) -> int {
        match self.flavor {
            Flavor::Threshold(_) => 0,
            Flavor::WitnessGrid(qs) => qs.rows_per_quorum(),
        }
    }

    /// Committee size of the consensus step.
    pub closed spec fn spec_committee_size(&self) -> int {
        match self.flavor {
            Flavor::Threshold(qs) => qs.spec_size(),
            Flavor::WitnessGrid(qs) => qs.committee_size(),
        }
    }

    /// Whether `members` form a quorum of the system.
    pub closed spec fn spec_is_quorum(&self, members: Seq<Pid>) -> bool {
        match self.flavor {
            Flavor::Threshold(qs) => members.len() >= qs.spec_size(),
            Flavor::WitnessGrid(qs) => qs.spec_is_quorum(members),
        }
    }

    /// The system describes the same quorums as `other`.
    pub open spec fn same_quorums(&self, other: &QuorumSystem) -> bool {
        &&& self.wf() == other.wf()
        &&& self.is_grid() == other.is_grid()
        &&& self.members() == other.members()
        &&& self.spec_size() == other.spec_size()
        &&& self.spec_committee_size() == other.spec_committee_size()
        &&& forall|m: Seq<Pid>| self.spec_is_quorum(m) == other.spec_is_quorum(m)
    }

    /// Threshold system for dissemination: `2k + 1` of `3k + 1` processes.
    pub fn new_dissemination(pids: Vec<Pid>) -> (qs: Self)
        ensures
            !qs.is_grid(),
            qs.members() == pids@,
            qs.spec_size() == 2 * ((pids@.len() - 1) / 3) + 1,
            qs.wf() <==> pids@.len() >= 1,
    {
        let ghost len = pids@.len();
        assert(pids@.len() == pids.len());
        let inner = thres::QuorumSystem::new(pids, 3, 2);
        proof {
            if len >= 1 {
                assert(2 * ((len - 1) / 3) + 1 <= len) by (nonlinear_arith) requires len >= 1;
            }
            inner.lemma_size_defined();
        }
        QuorumSystem { flavor: Flavor::Threshold(inner) }
    }

    /// Threshold system for witnessing: `4k + 3` of `5k + 1` processes.
    pub fn new_witnessing(pids: Vec<Pid>) -> (qs: Self)
        ensures
            !qs.is_grid(),
            qs.members() == pids@,
            qs.spec_size() == 4 * ((pids@.len() - 1) / 5) + 3,
            qs.wf() <==> pids@.len() >= 1,
    {
        let ghost len = pids@.len();
        assert(pids@.len() == pids.len());
        let inner = thres::QuorumSystem::new(pids, 5, 4);
        proof {
            if len >= 1 {
                assert(4 * ((len - 1) / 5) + 3 <= len + 3) by (nonlinear_arith) requires len >= 1;
                assert(len + 3 <= usize::MAX + 3);
            }
            inner.lemma_size_defined();
        }
        QuorumSystem { flavor: Flavor::Threshold(inner) }
    }

    /// Witness grid over `pids`, tolerating `max(1, (n - 2) / 3)` faults in consensus
    /// for a grid of side `n`. `pids` must fill a square grid of side at least two.
    pub fn new_witnessing_grid(pids: Vec<Pid>) -> (qs: Self)
        requires
            grid::fills_square(pids@.len() as int),
            pids@.len() >= 4,
        ensures
            qs.is_grid(),
            qs.wf(),
            qs.members() == pids@,
            qs.grid_side() >= 2,
            qs.grid_side() * qs.grid_side() == pids@.len(),
            grid::is_rows_per_quorum(qs.grid_side(), qs.grid_rows()),
            qs.spec_size() == qs.grid_rows() * qs.grid_side(),
            qs.spec_committee_size() == 3 * default_grid_faults(qs.grid_side()) + 1,
    {
        let qs = QuorumSystem { flavor: Flavor::WitnessGrid(grid::QuorumSystem::new(pids)) };
        proof {
            lemma_default_grid_committee(qs.grid_side());
        }
        qs
    }

    /// Witness grid over `pids` tolerating `faults` faults in consensus.
    pub fn new_witnessing_grid_with_faults(pids: Vec<Pid>, faults: usize) -> (qs: Self)
        requires
            grid::fills_square(pids@.len() as int),
            3 * faults + 1 <= usize::MAX,
        ensures
            qs.is_grid(),
            qs.wf(),
            qs.members() == pids@,
            qs.spec_committee_size() == if 3 * faults + 1 < pids@.len() {
                3 * faults + 1
            } else {
                pids@.len() as int
            },
    {
        QuorumSystem {
            flavor: Flavor::WitnessGrid(grid::QuorumSystem::with_faults(pids, faults)),
        }
    }

    /// Draws a quorum at random. The system keeps describing the same quorums, the
    /// drawn processes are processes of the system, and they form a quorum (for a
    /// threshold system, as soon as the system has at least a quorum's worth of
    /// processes).
    pub fn choose_random_quorum(&mut self, rng: &mut SmallRng) -> (quorum: Vec<Pid>)
        requires
            old(self).wf(),
        ensures
            final(self).same_quorums(old(self)),
            forall|i: int| 0 <= i < quorum@.len() ==> old(self).members().contains(#[trigger] quorum@[i]),
            (old(self).is_grid() || old(self).spec_size() <= old(self).members().len())
                ==> old(self).spec_is_quorum(quorum@),
    {
        match &mut self.flavor {
            Flavor::Threshold(qs) => {
                let quorum = qs.choose_random_quorum(rng);
                proof {
                    let index_seq = choose|index_seq: Seq<int>|
                        crate::random::picked_at_distinct_positions(qs.members(), quorum@, index_seq);
                    assert forall|i: int| 0 <= i < quorum@.len() implies qs.members().contains(#[trigger] quorum@[i]) by {
                        assert(qs.members()[index_seq[i]] == quorum@[i]);
                    }
                }
                quorum
            },
            Flavor::WitnessGrid(qs) => {
                let ghost before = *qs;
                let quorum = qs.choose_random_quorum(rng);
                proof {
                    let (rows, cols) = choose|rows: Seq<usize>, cols: Seq<usize>|
                        #![trigger before.grid_quorum(rows, cols)]
                        before.valid_lines(rows) && before.valid_lines(cols)
                            && quorum@ == before.grid_quorum(rows, cols);
                    before.lemma_chosen_quorum_is_quorum(rows, cols);
                    qs.lemma_same_layout(&before);
                    assert forall|i: int| 0 <= i < quorum@.len() implies before.grid().contains(#[trigger] quorum@[i]) by {
                        before.lemma_grid_quorum_in_grid(rows, cols, i);
                    }
                }
                quorum
            },
        }
    }

    /// Number of processes in a quorum.
    pub fn size(&self) -> (s: usize)
        requires
            self.wf(),
        ensures
            s == self.spec_size(),
    {
        match &self.flavor {
            Flavor::Threshold(qs) => qs.size(),
            Flavor::WitnessGrid(qs) => qs.size(),
        }
    }

    /// Committee size of the consensus step: the quorum size of a threshold system, the
    /// configured committee size of a grid.
    pub fn consensus_committee_size(&self) -> (s: usize)
        requires
            self.wf(),
        ensures
            s == self.spec_committee_size(),
    {
        match &self.flavor {
            Flavor::Threshold(qs) => qs.size(),
            Flavor::WitnessGrid(qs) => qs.consensus_committee_size(),
        }
    }

    /// Whether `members` form a quorum of the system.
    pub fn is_quorum(&self, members: &[Pid]) -> (q: bool)
        requires
            self.wf(),
        ensures
            q == self.spec_is_quorum(members@),
    {
        match &self.flavor {
            Flavor::Threshold(qs) => qs.is_quorum(members),
            Flavor::WitnessGrid(qs) => qs.is_quorum(members),
        }
    }
}

}
