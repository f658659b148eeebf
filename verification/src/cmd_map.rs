use vstd::prelude::*;

use crate::client::{CmdId, Pid};

verus! {

/// The keys of `entries` are pairwise distinct.
pub open spec fn distinct_keys<V>(entries: Seq<(CmdId, V)>) -> bool {
    forall|i: int, j: int|
        0 <= i < entries.len() && 0 <= j < entries.len() && i != j ==> #[trigger] entries[i].0
            != #[trigger] entries[j].0
}

/// `k` is the key of some entry.
pub open spec fn has_key<V>(entries: Seq<(CmdId, V)>, k: CmdId) -> bool {
    exists|i: int| 0 <= i < entries.len() && #[trigger] entries[i].0 == k
}

/// The map that a list of entries with distinct keys stands for.
pub open spec fn entries_map<V>(entries: Seq<(CmdId, V)>) -> Map<CmdId, V> {
    Map::new(
        |k: CmdId| has_key(entries, k),
        |k: CmdId| entries[choose|i: int| 0 <= i < entries.len() && #[trigger] entries[i].0 == k].1,
    )
}

/// With distinct keys, the entry at `i` is the value of its key.
pub proof fn lemma_entry_value<V>(entries: Seq<(CmdId, V)>, i: int)
    requires
        distinct_keys(entries),
        0 <= i < entries.len(),
    ensures
        entries_map(entries).contains_key(entries[i].0),
        entries_map(entries)[entries[i].0] == entries[i].1,
{
    let k = entries[i].0;
    assert(has_key(entries, k));
    let j = choose|j: int| 0 <= j < entries.len() && #[trigger] entries[j].0 == k;
    assert(j == i);
}

/// A copy of a list of command identities.
pub fn copy_ids(ids: &Vec<CmdId>) -> (out: Vec<CmdId>)
    ensures
        out@ == ids@,
{
    let mut out: Vec<CmdId> = Vec::new();
    let mut i: usize = 0;
    while i < ids.len()
        invariant
            i <= ids@.len(),
            out@ == ids@.take(i as int),
        decreases ids@.len() - i,
    {
        out.push(ids[i]);
        i = i + 1;
        assert(out@ =~= ids@.take(i as int));
    }
    assert(ids@.take(ids@.len() as int) =~= ids@);
    out
}

/// A copy of a list of process identities.
pub fn copy_pids(pids: &Vec<Pid>) -> (out: Vec<Pid>)
    ensures
        out@ == pids@,
{
    let mut out: Vec<Pid> = Vec::new();
    let mut i: usize = 0;
    while i < pids.len()
        invariant
            i <= pids@.len(),
            out@ == pids@.take(i as int),
        decreases pids@.len() - i,
    {
        out.push(pids[i]);
        i = i + 1;
        assert(out@ =~= pids@.take(i as int));
    }
    assert(pids@.take(pids@.len() as int) =~= pids@);
    out
}

/// `pids` with `pid` added at the end unless it is already there.
pub open spec fn with_pid(pids: Seq<Pid>, pid: Pid) -> Seq<Pid> {
    if pids.contains(pid) { pids } else { pids.push(pid) }
}

/// Adds `pid` to a list of distinct processes unless it is already there.
pub fn insert_pid(pids: &mut Vec<Pid>, pid: Pid)
    ensures
        final(pids)@ == with_pid(old(pids)@, pid),
{
    let mut i: usize = 0;
    while i < pids.len()
        invariant
            i <= pids@.len(),
            pids@ == old(pids)@,
            forall|j: int| 0 <= j < i ==> pids@[j] != pid,
        decreases pids@.len() - i,
    {
        if pids[i] == pid {
            return;
        }
        i = i + 1;
    }
    pids.push(pid);
}

/// Adding a process keeps the processes distinct.
pub proof fn lemma_with_pid_distinct(pids: Seq<Pid>, pid: Pid)
    requires
        pids.no_duplicates(),
    ensures
        with_pid(pids, pid).no_duplicates(),
        with_pid(pids, pid).contains(pid),
        forall|p: Pid| pids.contains(p) ==> with_pid(pids, p).contains(p),
{
    if !pids.contains(pid) {
        assert(pids.push(pid)[pids.len() as int] == pid);
    } else {
    }
}

/// An association list keyed by command identities, standing for a finite map.
pub struct CmdMap<V> {
    entries: Vec<(CmdId, V)>,
}

impl<V> View for CmdMap<V> {
    type V = Map<CmdId, V>;

    closed spec fn view(&self) -> Map<CmdId, V> {
        entries_map(self.entries@)
    }
}

impl<V> CmdMap<V> {
    /// The keys are pairwise distinct.
    pub closed spec fn wf(&self) -> bool {
        distinct_keys(self.entries@)
    }

    /// The keys in the order the map holds them.
    pub closed spec fn key_seq(&self) -> Seq<CmdId> {
        self.entries@.map_values(|e: (CmdId, V)| e.0)
    }

    /// The key order lists exactly the keys of the map, each once.
    pub proof fn lemma_key_seq(&self)
        requires
            self.wf(),
        ensures
            self.key_seq().no_duplicates(),
            self.key_seq().len() == self@.dom().len(),
            forall|k: CmdId| self@.contains_key(k) <==> self.key_seq().contains(k),
            self@.dom().finite(),
            self@.dom() == self.key_seq().to_set(),
    {
        let ks = self.key_seq();
        assert forall|k: CmdId| self@.contains_key(k) <==> ks.contains(k) by {
            if self@.contains_key(k) {
                let i = choose|i: int| 0 <= i < self.entries@.len() && #[trigger] self.entries@[i].0 == k;
                assert(ks[i] == k);
            }
            if ks.contains(k) {
                let i = choose|i: int| 0 <= i < ks.len() && ks[i] == k;
                assert(self.entries@[i].0 == k);
            }
        }
        assert(self@.dom() =~= ks.to_set());
        ks.unique_seq_to_set();
    }

    /// The empty map.
    pub fn new() -> (m: Self)
        ensures
            m.wf(),
            m@ == Map::<CmdId, V>::empty(),
    {
        let m = CmdMap { entries: Vec::new() };
        assert(m@ =~= Map::<CmdId, V>::empty());
        m
    }

    /// Number of keys.
    pub fn len(&self) -> (n: usize)
        requires
            self.wf(),
        ensures
            n == self@.dom().len(),
    {
        proof {
            self.lemma_key_seq();
        }
        self.entries.len()
    }

    fn position(&self, k: &CmdId) -> (pos: Option<usize>)
        requires
            self.wf(),
        ensures
            match pos {
                Some(i) => i < self.entries@.len() && self.entries@[i as int].0 == *k,
                None => !self@.contains_key(*k),
            },
    {
        let mut i: usize = 0;
        while i < self.entries.len()
            invariant
                i <= self.entries@.len(),
                forall|j: int| 0 <= j < i ==> self.entries@[j].0 != *k,
            decreases self.entries@.len() - i,
        {
            if self.entries[i].0 == *k {
                return Some(i);
            }
            i = i + 1;
        }
        None
    }

    /// Whether `k` is a key.
    pub fn contains_key(&self, k: &CmdId) -> (b: bool)
        requires
            self.wf(),
        ensures
            b == self@.contains_key(*k),
    {
        match self.position(k) {
            Some(i) => {
                proof {
                    lemma_entry_value(self.entries@, i as int);
                }
                true
            },
            None => false,
        }
    }

    /// The value of `k`, if any.
    pub fn get(&self, k: &CmdId) -> (v: Option<&V>)
        requires
            self.wf(),
        ensures
            match v {
                Some(v) => self@.contains_key(*k) && *v == self@[*k],
                None => !self@.contains_key(*k),
            },
    {
        match self.position(k) {
            Some(i) => {
                proof {
                    lemma_entry_value(self.entries@, i as int);
                }
                Some(&self.entries[i].1)
            },
            None => None,
        }
    }

    /// The key at position `i` of the key order.
    pub fn key_at(&self, i: usize) -> (k: CmdId)
        requires
            self.wf(),
            i < self.key_seq().len(),
        ensures
            k == self.key_seq()[i as int],
    {
        self.entries[i].0
    }

    /// The keys, in the map's key order.
    pub fn keys(&self) -> (keys: Vec<CmdId>)
        requires
            self.wf(),
        ensures
            keys@ == self.key_seq(),
    {
        let mut keys: Vec<CmdId> = Vec::new();
        let mut i: usize = 0;
        while i < self.entries.len()
            invariant
                i <= self.entries@.len(),
                keys@ == self.key_seq().take(i as int),
            decreases self.entries@.len() - i,
        {
            keys.push(self.entries[i].0);
            i = i + 1;
            assert(keys@ =~= self.key_seq().take(i as int));
        }
        assert(self.key_seq().take(self.entries@.len() as int) =~= self.key_seq());
        keys
    }

    /// Removes `k`, handing back its value.
    pub fn remove(&mut self, k: &CmdId) -> (v: Option<V>)
        requires
            old(self).wf(),
        ensures
            final(self).wf(),
            final(self)@ == old(self)@.remove(*k),
            match v {
                Some(v) => old(self)@.contains_key(*k) && v == old(self)@[*k],
                None => !old(self)@.contains_key(*k),
            },
    {
        match self.position(k) {
            Some(i) => {
                let ghost before = self.entries@;
                proof {
                    lemma_entry_value(before, i as int);
                }
                let (_, v) = self.entries.remove(i);
                let ghost after = self.entries@;
                assert(after =~= before.remove(i as int));
                assert forall|a: int, b: int|
                    0 <= a < after.len() && 0 <= b < after.len() && a != b implies #[trigger] after[a].0
                    != #[trigger] after[b].0 by {
                    let a0 = if a < i { a } else { a + 1 };
                    let b0 = if b < i { b } else { b + 1 };
                    assert(after[a] == before[a0]);
                    assert(after[b] == before[b0]);
                }
                assert forall|key: CmdId| #[trigger] entries_map(after).contains_key(key)
                    == old(self)@.remove(*k).contains_key(key) by {
                    if has_key(after, key) {
                        let a = choose|a: int| 0 <= a < after.len() && #[trigger] after[a].0 == key;
                        let a0 = if a < i { a } else { a + 1 };
                        assert(before[a0].0 == key);
                    }
                    if has_key(before, key) && key != *k {
                        let a0 = choose|a: int| 0 <= a < before.len() && #[trigger] before[a].0 == key;
                        let a = if a0 < i { a0 } else { a0 - 1 };
                        assert(after[a].0 == key);
                    }
                }
                assert forall|key: CmdId| #[trigger] entries_map(after).contains_key(key) implies
                    entries_map(after)[key] == old(self)@[key] by {
                    let a = choose|a: int| 0 <= a < after.len() && #[trigger] after[a].0 == key;
                    let a0 = if a < i { a } else { a + 1 };
                    lemma_entry_value(after, a);
                    lemma_entry_value(before, a0);
                }
                assert(self@ =~= old(self)@.remove(*k));
                Some(v)
            },
            None => {
                assert(self@ =~= old(self)@.remove(*k));
                None
            },
        }
    }

    /// Sets the value of `k` to `v`, replacing any earlier value. A new key goes last
    /// in the key order; an existing key keeps its place.
    pub fn insert(&mut self, k: CmdId, v: V)
        requires
            old(self).wf(),
        ensures
            final(self).wf(),
            final(self)@ == old(self)@.insert(k, v),
            old(self)@.contains_key(k) ==> final(self).key_seq() == old(self).key_seq(),
            !old(self)@.contains_key(k) ==> final(self).key_seq() == old(self).key_seq().push(k),
    {
        let ghost before = self.entries@;
        match self.position(&k) {
            Some(i) => {
                self.entries.set(i, (k, v));
                let ghost after = self.entries@;
                assert(after =~= before.update(i as int, (k, v)));
                assert forall|a: int, b: int|
                    0 <= a < after.len() && 0 <= b < after.len() && a != b implies #[trigger] after[a].0
                    != #[trigger] after[b].0 by {
                    assert(before[a].0 == after[a].0);
                    assert(before[b].0 == after[b].0);
                }
                assert forall|key: CmdId| #[trigger] entries_map(after).contains_key(key)
                    == old(self)@.insert(k, v).contains_key(key) by {
                    if has_key(after, key) {
                        let a = choose|a: int| 0 <= a < after.len() && #[trigger] after[a].0 == key;
                        assert(before[a].0 == key);
                    }
                    if has_key(before, key) {
                        let a = choose|a: int| 0 <= a < before.len() && #[trigger] before[a].0 == key;
                        assert(after[a].0 == key);
                    }
                }
                assert forall|key: CmdId| #[trigger] entries_map(after).contains_key(key) implies
                    entries_map(after)[key] == old(self)@.insert(k, v)[key] by {
                    let a = choose|a: int| 0 <= a < after.len() && #[trigger] after[a].0 == key;
                    lemma_entry_value(after, a);
                    if a != i {
                        lemma_entry_value(before, a);
                    }
                }
                assert(self@ =~= old(self)@.insert(k, v));
                assert(self.key_seq() =~= old(self).key_seq());
            },
            None => {
                self.entries.push((k, v));
                let ghost after = self.entries@;
                assert forall|a: int, b: int|
                    0 <= a < after.len() && 0 <= b < after.len() && a != b implies #[trigger] after[a].0
                    != #[trigger] after[b].0 by {
                    if a == before.len() {
                        assert(!has_key(before, k));
                        assert(after[b] == before[b]);
                    } else if b == before.len() {
                        assert(!has_key(before, k));
                        assert(after[a] == before[a]);
                    } else {
                        assert(after[a] == before[a]);
                        assert(after[b] == before[b]);
                    }
                }
                assert forall|key: CmdId| #[trigger] entries_map(after).contains_key(key)
                    == old(self)@.insert(k, v).contains_key(key) by {
                    if has_key(after, key) {
                        let a = choose|a: int| 0 <= a < after.len() && #[trigger] after[a].0 == key;
                        if a < before.len() {
                            assert(before[a].0 == key);
                        }
                    }
                    if has_key(before, key) {
                        let a = choose|a: int| 0 <= a < before.len() && #[trigger] before[a].0 == key;
                        assert(after[a].0 == key);
                    }
                    if key == k {
                        assert(after[before.len() as int].0 == key);
                    }
                }
                assert forall|key: CmdId| #[trigger] entries_map(after).contains_key(key) implies
                    entries_map(after)[key] == old(self)@.insert(k, v)[key] by {
                    let a = choose|a: int| 0 <= a < after.len() && #[trigger] after[a].0 == key;
                    lemma_entry_value(after, a);
                    if a < before.len() {
                        assert(after[a] == before[a]);
                        lemma_entry_value(before, a);
                    }
                }
                assert(self@ =~= old(self)@.insert(k, v));
                assert(self.key_seq() =~= old(self).key_seq().push(k));
            },
        }
    }
}

impl<V: Copy> CmdMap<V> {
    /// The values in the key order.
    pub fn values(&self) -> (vals: Vec<V>)
        requires
            self.wf(),
        ensures
            vals@ == self.key_seq().map_values(|k: CmdId| self@[k]),
    {
        let mut vals: Vec<V> = Vec::new();
        let mut i: usize = 0;
        while i < self.entries.len()
            invariant
                self.wf(),
                i <= self.entries@.len(),
                vals@ == self.key_seq().map_values(|k: CmdId| self@[k]).take(i as int),
            decreases self.entries@.len() - i,
        {
            proof {
                lemma_entry_value(self.entries@, i as int);
            }
            vals.push(self.entries[i].1);
            i = i + 1;
            assert(vals@ =~= self.key_seq().map_values(|k: CmdId| self@[k]).take(i as int));
        }
        assert(self.key_seq().map_values(|k: CmdId| self@[k]).take(self.entries@.len() as int)
            =~= self.key_seq().map_values(|k: CmdId| self@[k]));
        vals
    }
}

/// The keys of `entries` are pairwise distinct.
pub open spec fn distinct_id_keys<V>(entries: Seq<(usize, V)>) -> bool {
    forall|i: int, j: int|
        0 <= i < entries.len() && 0 <= j < entries.len() && i != j ==> #[trigger] entries[i].0
            != #[trigger] entries[j].0
}

/// `k` is the key of some entry.
pub open spec fn has_id_key<V>(entries: Seq<(usize, V)>, k: usize) -> bool {
    exists|i: int| 0 <= i < entries.len() && #[trigger] entries[i].0 == k
}

/// The map that a list of entries with distinct keys stands for.
pub open spec fn id_entries_map<V>(entries: Seq<(usize, V)>) -> Map<usize, V> {
    Map::new(
        |k: usize| has_id_key(entries, k),
        |k: usize| entries[choose|i: int| 0 <= i < entries.len() && #[trigger] entries[i].0 == k].1,
    )
}

/// With distinct keys, the entry at `i` is the value of its key.
pub proof fn lemma_id_entry_value<V>(entries: Seq<(usize, V)>, i: int)
    requires
        distinct_id_keys(entries),
        0 <= i < entries.len(),
    ensures
        id_entries_map(entries).contains_key(entries[i].0),
        id_entries_map(entries)[entries[i].0] == entries[i].1,
{
    let k = entries[i].0;
    assert(has_id_key(entries, k));
    let j = choose|j: int| 0 <= j < entries.len() && #[trigger] entries[j].0 == k;
    assert(j == i);
}

/// An association list keyed by numbers (timer or node identities), standing for a finite map.
pub struct IdMap<V> {
    entries: Vec<(usize, V)>,
}

impl<V> View for IdMap<V> {
    type V = Map<usize, V>;

    closed spec fn view(&self) -> Map<usize, V> {
        id_entries_map(self.entries@)
    }
}

impl<V> IdMap<V> {
    /// The keys are pairwise distinct.
    pub closed spec fn wf(&self) -> bool {
        distinct_id_keys(self.entries@)
    }

    /// The keys in the order the map holds them.
    pub closed spec fn key_seq(&self) -> Seq<usize> {
        self.entries@.map_values(|e: (usize, V)| e.0)
    }

    /// The key order lists exactly the keys of the map, each once.
    pub proof fn lemma_key_seq(&self)
        requires
            self.wf(),
        ensures
            self.key_seq().no_duplicates(),
            self.key_seq().len() == self@.dom().len(),
            forall|k: usize| self@.contains_key(k) <==> self.key_seq().contains(k),
            self@.dom().finite(),
            self@.dom() == self.key_seq().to_set(),
    {
        let ks = self.key_seq();
        assert forall|k: usize| self@.contains_key(k) <==> ks.contains(k) by {
            if self@.contains_key(k) {
                let i = choose|i: int| 0 <= i < self.entries@.len() && #[trigger] self.entries@[i].0 == k;
                assert(ks[i] == k);
            }
            if ks.contains(k) {
                let i = choose|i: int| 0 <= i < ks.len() && ks[i] == k;
                assert(self.entries@[i].0 == k);
            }
        }
        assert(self@.dom() =~= ks.to_set());
        ks.unique_seq_to_set();
    }

    /// The empty map.
    pub fn new() -> (m: Self)
        ensures
            m.wf(),
            m@ == Map::<usize, V>::empty(),
    {
        let m = IdMap { entries: Vec::new() };
        assert(m@ =~= Map::<usize, V>::empty());
        m
    }

    /// Number of keys.
    pub fn len(&self) -> (n: usize)
        requires
            self.wf(),
        ensures
            n == self@.dom().len(),
    {
        proof {
            self.lemma_key_seq();
        }
        self.entries.len()
    }

    fn position(&self, k: &usize) -> (pos: Option<usize>)
        requires
            self.wf(),
        ensures
            match pos {
                Some(i) => i < self.entries@.len() && self.entries@[i as int].0 == *k,
                None => !self@.contains_key(*k),
            },
    {
        let mut i: usize = 0;
        while i < self.entries.len()
            invariant
                i <= self.entries@.len(),
                forall|j: int| 0 <= j < i ==> self.entries@[j].0 != *k,
            decreases self.entries@.len() - i,
        {
            if self.entries[i].0 == *k {
                return Some(i);
            }
            i = i + 1;
        }
        None
    }

    /// Whether `k` is a key.
    pub fn contains_key(&self, k: &usize) -> (b: bool)
        requires
            self.wf(),
        ensures
            b == self@.contains_key(*k),
    {
        match self.position(k) {
            Some(i) => {
                proof {
                    lemma_id_entry_value(self.entries@, i as int);
                }
                true
            },
            None => false,
        }
    }

    /// The value of `k`, if any.
    pub fn get(&self, k: &usize) -> (v: Option<&V>)
        requires
            self.wf(),
        ensures
            match v {
                Some(v) => self@.contains_key(*k) && *v == self@[*k],
                None => !self@.contains_key(*k),
            },
    {
        match self.position(k) {
            Some(i) => {
                proof {
                    lemma_id_entry_value(self.entries@, i as int);
                }
                Some(&self.entries[i].1)
            },
            None => None,
        }
    }

    /// The key at position `i` of the key order.
    pub fn key_at(&self, i: usize) -> (k: usize)
        requires
            self.wf(),
            i < self.key_seq().len(),
        ensures
            k == self.key_seq()[i as int],
    {
        self.entries[i].0
    }

    /// The keys, in the map's key order.
    pub fn keys(&self) -> (keys: Vec<usize>)
        requires
            self.wf(),
        ensures
            keys@ == self.key_seq(),
    {
        let mut keys: Vec<usize> = Vec::new();
        let mut i: usize = 0;
        while i < self.entries.len()
            invariant
                i <= self.entries@.len(),
                keys@ == self.key_seq().take(i as int),
            decreases self.entries@.len() - i,
        {
            keys.push(self.entries[i].0);
            i = i + 1;
            assert(keys@ =~= self.key_seq().take(i as int));
        }
        assert(self.key_seq().take(self.entries@.len() as int) =~= self.key_seq());
        keys
    }

    /// Removes `k`, handing back its value.
    pub fn remove(&mut self, k: &usize) -> (v: Option<V>)
        requires
            old(self).wf(),
        ensures
            final(self).wf(),
            final(self)@ == old(self)@.remove(*k),
            match v {
                Some(v) => old(self)@.contains_key(*k) && v == old(self)@[*k],
                None => !old(self)@.contains_key(*k),
            },
    {
        match self.position(k) {
            Some(i) => {
                let ghost before = self.entries@;
                proof {
                    lemma_id_entry_value(before, i as int);
                }
                let (_, v) = self.entries.remove(i);
                let ghost after = self.entries@;
                assert(after =~= before.remove(i as int));
                assert forall|a: int, b: int|
                    0 <= a < after.len() && 0 <= b < after.len() && a != b implies #[trigger] after[a].0
                    != #[trigger] after[b].0 by {
                    let a0 = if a < i { a } else { a + 1 };
                    let b0 = if b < i { b } else { b + 1 };
                    assert(after[a] == before[a0]);
                    assert(after[b] == before[b0]);
                }
                assert forall|key: usize| #[trigger] id_entries_map(after).contains_key(key)
                    == old(self)@.remove(*k).contains_key(key) by {
                    if has_id_key(after, key) {
                        let a = choose|a: int| 0 <= a < after.len() && #[trigger] after[a].0 == key;
                        let a0 = if a < i { a } else { a + 1 };
                        assert(before[a0].0 == key);
                    }
                    if has_id_key(before, key) && key != *k {
                        let a0 = choose|a: int| 0 <= a < before.len() && #[trigger] before[a].0 == key;
                        let a = if a0 < i { a0 } else { a0 - 1 };
                        assert(after[a].0 == key);
                    }
                }
                assert forall|key: usize| #[trigger] id_entries_map(after).contains_key(key) implies
                    id_entries_map(after)[key] == old(self)@[key] by {
                    let a = choose|a: int| 0 <= a < after.len() && #[trigger] after[a].0 == key;
                    let a0 = if a < i { a } else { a + 1 };
                    lemma_id_entry_value(after, a);
                    lemma_id_entry_value(before, a0);
                }
                assert(self@ =~= old(self)@.remove(*k));
                Some(v)
            },
            None => {
                assert(self@ =~= old(self)@.remove(*k));
                None
            },
        }
    }

    /// Sets the value of `k` to `v`, replacing any earlier value. A new key goes last
    /// in the key order; an existing key keeps its place.
    pub fn insert(&mut self, k: usize, v: V)
        requires
            old(self).wf(),
        ensures
            final(self).wf(),
            final(self)@ == old(self)@.insert(k, v),
            old(self)@.contains_key(k) ==> final(self).key_seq() == old(self).key_seq(),
            !old(self)@.contains_key(k) ==> final(self).key_seq() == old(self).key_seq().push(k),
    {
        let ghost before = self.entries@;
        match self.position(&k) {
            Some(i) => {
                self.entries.set(i, (k, v));
                let ghost after = self.entries@;
                assert(after =~= before.update(i as int, (k, v)));
                assert forall|a: int, b: int|
                    0 <= a < after.len() && 0 <= b < after.len() && a != b implies #[trigger] after[a].0
                    != #[trigger] after[b].0 by {
                    assert(before[a].0 == after[a].0);
                    assert(before[b].0 == after[b].0);
                }
                assert forall|key: usize| #[trigger] id_entries_map(after).contains_key(key)
                    == old(self)@.insert(k, v).contains_key(key) by {
                    if has_id_key(after, key) {
                        let a = choose|a: int| 0 <= a < after.len() && #[trigger] after[a].0 == key;
                        assert(before[a].0 == key);
                    }
                    if has_id_key(before, key) {
                        let a = choose|a: int| 0 <= a < before.len() && #[trigger] before[a].0 == key;
                        assert(after[a].0 == key);
                    }
                }
                assert forall|key: usize| #[trigger] id_entries_map(after).contains_key(key) implies
                    id_entries_map(after)[key] == old(self)@.insert(k, v)[key] by {
                    let a = choose|a: int| 0 <= a < after.len() && #[trigger] after[a].0 == key;
                    lemma_id_entry_value(after, a);
                    if a != i {
                        lemma_id_entry_value(before, a);
                    }
                }
                assert(self@ =~= old(self)@.insert(k, v));
                assert(self.key_seq() =~= old(self).key_seq());
            },
            None => {
                self.entries.push((k, v));
                let ghost after = self.entries@;
                assert forall|a: int, b: int|
                    0 <= a < after.len() && 0 <= b < after.len() && a != b implies #[trigger] after[a].0
                    != #[trigger] after[b].0 by {
                    if a == before.len() {
                        assert(!has_id_key(before, k));
                        assert(after[b] == before[b]);
                    } else if b == before.len() {
                        assert(!has_id_key(before, k));
                        assert(after[a] == before[a]);
                    } else {
                        assert(after[a] == before[a]);
                        assert(after[b] == before[b]);
                    }
                }
                assert forall|key: usize| #[trigger] id_entries_map(after).contains_key(key)
                    == old(self)@.insert(k, v).contains_key(key) by {
                    if has_id_key(after, key) {
                        let a = choose|a: int| 0 <= a < after.len() && #[trigger] after[a].0 == key;
                        if a < before.len() {
                            assert(before[a].0 == key);
                        }
                    }
                    if has_id_key(before, key) {
                        let a = choose|a: int| 0 <= a < before.len() && #[trigger] before[a].0 == key;
                        assert(after[a].0 == key);
                    }
                    if key == k {
                        assert(after[before.len() as int].0 == key);
                    }
                }
                assert forall|key: usize| #[trigger] id_entries_map(after).contains_key(key) implies
                    id_entries_map(after)[key] == old(self)@.insert(k, v)[key] by {
                    let a = choose|a: int| 0 <= a < after.len() && #[trigger] after[a].0 == key;
                    lemma_id_entry_value(after, a);
                    if a < before.len() {
                        assert(after[a] == before[a]);
                        lemma_id_entry_value(before, a);
                    }
                }
                assert(self@ =~= old(self)@.insert(k, v));
                assert(self.key_seq() =~= old(self).key_seq().push(k));
            },
        }
    }
}

} // verus!
