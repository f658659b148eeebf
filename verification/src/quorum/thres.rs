use vstd::prelude::*;

use crate::client::Pid;
use crate::random::sample_pids;
use dscale::rand::rngs::SmallRng;

verus! {

/// A threshold quorum system over `pids`: any `m * ((|pids| - 1) / f) + m - 1`
/// processes form a quorum (with `f = 3, m = 2` the usual `2t + 1` out of `3t + 1`).
pub struct QuorumSystem {
    pub(crate) pids: Vec<Pid>,
    pub(crate) f: usize,
    pub(crate) m: usize,
}

impl QuorumSystem {
    /// The quorum size as an integer.
    pub closed spec fn spec_size(&self) -> int {
        self.m * ((self.pids@.len() - 1) / (self.f as int)) + self.m - 1
    }

    /// The processes of the system, in the order it was built with.
    pub closed spec fn members(&self) -> Seq<Pid> {
        self.pids@
    }

    /// The parameters `(f, m)` of the size formula.
    pub closed spec fn params(&self) -> (usize, usize) {
        (self.f, self.m)
    }

    /// The quorum size is defined (there is a process and `f > 0`) and fits in a `usize`.
    pub closed spec fn size_defined(&self) -> bool {
        &&& self.pids@.len() >= 1
        &&& self.f >= 1
        &&& self.m >= 1
        &&& self.spec_size() <= usize::MAX
    }

    /// The quorum size is defined as soon as there is a process and the parameters
    /// keep it within a `usize`.
    pub proof fn lemma_size_defined(&self)
        ensures
            self.size_defined() <==> (self.members().len() >= 1 && self.params().0 >= 1
                && self.params().1 >= 1 && self.spec_size() <= usize::MAX),
    {
    }

    /// The system over `pids` with parameters `f` and `m`.
    pub fn new(pids: Vec<Pid>, f: usize, m: usize) -> (qs: Self)
        ensures
            qs.members() == pids@,
            qs.params() == (f, m),
            qs.spec_size() == m * ((pids@.len() - 1) / (f as int)) + m - 1,
    {
        QuorumSystem { pids, f, m }
    }

    /// Number of processes a quorum needs.
    pub fn size(&self) -> (s: usize)
        requires
            self.size_defined(),
        ensures
            s == self.spec_size(),
    {
        let per: usize = (self.pids.len() - 1) / self.f;
        assert(per == (self.pids@.len() - 1) / (self.f as int));
        proof {
            assert(0 <= self.m * per) by (nonlinear_arith)
                requires self.m >= 1, per >= 0;
        }
        self.m * per + (self.m - 1)
    }

    /// Draws a quorum at random: `size()` distinct processes of the system (all of
    /// them when the system is smaller than a quorum).
    pub fn choose_random_quorum(&mut self, rng: &mut SmallRng) -> (quorum: Vec<Pid>)
        requires
            old(self).size_defined(),
        ensures
            *final(self) == *old(self),
            quorum@.len() == if old(self).spec_size() < old(self).members().len() {
                old(self).spec_size()
            } else {
                old(self).members().len() as int
            },
            exists|index_seq: Seq<int>|
                crate::random::picked_at_distinct_positions(old(self).members(), quorum@, index_seq),
    {
        let size = self.size();
        sample_pids(self.pids.as_slice(), rng, size)
    }

    /// A group of replies forms a quorum when it counts at least `size()` members.
    pub fn is_quorum(&self, members: &[Pid]) -> (r: bool)
        requires
            self.size_defined(),
        ensures
            r == (members@.len() >= self.spec_size()),
    {
        members.len() >= self.size()
    }
}

}
