use vstd::prelude::*;

use dscale::rand::rngs::SmallRng;

use crate::random::choose_below;

verus! {

/// Identity of a process in the simulation.
pub type Pid = usize;

/// Unique identity of a client command: the process that created it and a number
/// that no other command of the run carries.
#[derive(Clone, Copy, PartialEq, Eq, Debug, Hash, Structural)]
pub struct CmdId {
    pub pid: Pid,
    pub id: usize,
}

/// A client command. Two commands conflict when they touch the same key.
#[derive(Clone, Copy, PartialEq, Eq, Debug, Structural)]
pub struct Command {
    pub id: CmdId,
    pub key: usize,
}

/// Lexicographic order on command identities: by creator, then by number.
pub open spec fn cmd_id_lt(a: CmdId, b: CmdId) -> bool {
    a.pid < b.pid || (a.pid == b.pid && a.id < b.id)
}

/// Strict order of two command identities, as the derived `Ord` of the pair orders them.
pub fn cmd_id_less(a: CmdId, b: CmdId) -> (r: bool)
    ensures
        r == cmd_id_lt(a, b),
{
    a.pid < b.pid || (a.pid == b.pid && a.id < b.id)
}

impl Command {
    /// Two commands conflict exactly when they access the same key.
    pub fn conflicts_with(&self, other_cmd: &Command) -> (r: bool)
        ensures
            r == (self.key == other_cmd.key),
    {
        self.key == other_cmd.key
    }
}

/// The command on `key` created by process `pid` under the number `id`, which the
/// simulation hands out once per run.
pub fn create_cmd_for_key(key: usize, pid: Pid, id: usize) -> (cmd: Command)
    ensures
        cmd == (Command { id: CmdId { pid, id }, key }),
{
    Command { id: CmdId { pid, id }, key }
}

/// A command created by process `pid` under the number `id`, on a key drawn at random
/// among the `key_count` keys.
pub fn create_cmd(rng: &mut SmallRng, key_count: usize, pid: Pid, id: usize) -> (cmd: Command)
    requires
        key_count > 0,
    ensures
        cmd.id == (CmdId { pid, id }),
        cmd.key < key_count,
{
    let key = match choose_below(key_count, rng) {
        Some(k) => k,
        None => 0,
    };
    create_cmd_for_key(key, pid, id)
}

}
