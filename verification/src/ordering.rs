use vstd::prelude::*;

use crate::client::{cmd_id_less, cmd_id_lt, CmdId, Pid};

verus! {

broadcast use vstd::seq_lib::group_to_multiset_ensures;

/// The pairs are ordered by their keys, smallest first.
pub open spec fn sorted_by_key(s: Seq<(u64, Pid)>) -> bool {
    forall|i: int, j: int| 0 <= i <= j < s.len() ==> #[trigger] s[i].0 <= #[trigger] s[j].0
}

/// `sorted` holds the pairs of `items`, the pair at position `i` being the one at
/// position `perm[i]` of `items`, and among pairs of equal keys the earlier one in
/// `items` comes first.
pub open spec fn stable_sort_of(items: Seq<(u64, Pid)>, sorted: Seq<(u64, Pid)>, perm: Seq<int>) -> bool {
    &&& perm.len() == items.len()
    &&& sorted.len() == items.len()
    &&& perm.no_duplicates()
    &&& forall|i: int| 0 <= i < perm.len() ==> 0 <= #[trigger] perm[i] < items.len() && sorted[i] == items[perm[i]]
    &&& forall|i: int, j: int| 0 <= i < j < perm.len() && sorted[i].0 == sorted[j].0
        ==> #[trigger] perm[i] < #[trigger] perm[j]
}

/// Sorts `(key, pid)` pairs by key; among equal keys a pair stays behind those that
/// came before it.
pub fn sort_by_key(items: Vec<(u64, Pid)>) -> (sorted: Vec<(u64, Pid)>)
    ensures
        sorted_by_key(sorted@),
        sorted@.to_multiset() == items@.to_multiset(),
        exists|perm: Seq<int>| stable_sort_of(items@, sorted@, perm),
{
    let mut out: Vec<(u64, Pid)> = Vec::new();
    let mut i: usize = 0;
    let ghost mut perm: Seq<int> = Seq::empty();
    proof {
        assert(items@.take(0) =~= Seq::<(u64, Pid)>::empty());
    }
    while i < items.len()
        invariant
            i <= items@.len(),
            sorted_by_key(out@),
            out@.to_multiset() == items@.take(i as int).to_multiset(),
            stable_sort_of(items@.take(i as int), out@, perm),
        decreases items@.len() - i,
    {
        let item = items[i];
        let mut pos: usize = 0;
        while pos < out.len() && out[pos].0 <= item.0
            invariant
                pos <= out@.len(),
                forall|k: int| 0 <= k < pos ==> #[trigger] out@[k].0 <= item.0,
            decreases out@.len() - pos,
        {
            pos = pos + 1;
        }
        let ghost before = out@;
        out.insert(pos, item);
        proof {
            assert(out@ == before.insert(pos as int, item));
            assert forall|a: int, b: int| 0 <= a <= b < out@.len() implies #[trigger] out@[a].0
                <= #[trigger] out@[b].0 by {
                if a < pos && b < pos {
                    assert(out@[a] == before[a] && out@[b] == before[b]);
                } else if a < pos && b == pos {
                    assert(out@[a] == before[a]);
                } else if a < pos {
                    assert(out@[a] == before[a] && out@[b] == before[b - 1]);
                } else if a == pos && b > pos {
                    assert(out@[b] == before[b - 1]);
                    assert(pos < before.len() ==> before[pos as int].0 > item.0);
                    assert(before[pos as int].0 <= before[b - 1].0);
                } else if a > pos {
                    assert(out@[a] == before[a - 1] && out@[b] == before[b - 1]);
                }
            }
            assert(items@.take(i + 1) =~= items@.take(i as int).push(item));
            let p0 = perm;
            let t = items@.take(i + 1);
            perm = p0.insert(pos as int, i as int);
            assert(forall|k: int| 0 <= k < p0.len() ==> p0[k] < i);
            assert forall|k: int| 0 <= k < perm.len() implies 0 <= #[trigger] perm[k] < t.len() && out@[k] == t[perm[k]] by {
                if k < pos {
                    assert(perm[k] == p0[k] && out@[k] == before[k]);
                } else if k > pos {
                    assert(perm[k] == p0[k - 1] && out@[k] == before[k - 1]);
                } else {
                    assert(perm[k] == i);
                }
            }
            assert(perm.no_duplicates()) by {
                assert forall|a: int, b: int| 0 <= a < perm.len() && 0 <= b < perm.len() && a != b implies perm[a] != perm[b] by {
                    let a0 = if a < pos { a } else { a - 1 };
                    let b0 = if b < pos { b } else { b - 1 };
                    if a != pos && b != pos {
                        assert(perm[a] == p0[a0] && perm[b] == p0[b0]);
                    } else if a == pos {
                        assert(perm[b] == p0[b0]);
                    } else {
                        assert(perm[a] == p0[a0]);
                    }
                }
            }
            assert forall|a: int, b: int| 0 <= a < b < perm.len() && out@[a].0 == out@[b].0
                implies #[trigger] perm[a] < #[trigger] perm[b] by {
                if b < pos {
                    assert(perm[a] == p0[a] && perm[b] == p0[b] && out@[a] == before[a] && out@[b] == before[b]);
                } else if b == pos {
                    assert(perm[a] == p0[a]);
                } else if a == pos {
                    assert(out@[b] == before[b - 1]);
                    assert(before[pos as int].0 > item.0);
                    assert(before[pos as int].0 <= before[b - 1].0);
                } else if a < pos {
                    assert(perm[a] == p0[a] && perm[b] == p0[b - 1]);
                    assert(out@[b] == before[b - 1]);
                    assert(before[pos as int].0 > item.0);
                    assert(before[pos as int].0 <= before[b - 1].0);
                    assert(out@[a] == before[a]);
                    assert(before[a].0 <= item.0);
                } else {
                    assert(perm[a] == p0[a - 1] && perm[b] == p0[b - 1] && out@[a] == before[a - 1] && out@[b] == before[b - 1]);
                }
            }
            assert(stable_sort_of(t, out@, perm));
        }
        i = i + 1;
    }
    assert(items@.take(items@.len() as int) =~= items@);
    assert(stable_sort_of(items@, out@, perm));
    out
}

/// The identities are strictly increasing in the order of `cmd_id_lt`.
pub open spec fn strictly_sorted(s: Seq<CmdId>) -> bool {
    forall|i: int, j: int| 0 <= i < j < s.len() ==> cmd_id_lt(#[trigger] s[i], #[trigger] s[j])
}

/// Sorts command identities and drops repeated ones.
pub fn sort_dedup_ids(ids: &Vec<CmdId>) -> (out: Vec<CmdId>)
    ensures
        strictly_sorted(out@),
        out@.to_set() == ids@.to_set(),
{
    let mut out: Vec<CmdId> = Vec::new();
    let mut i: usize = 0;
    while i < ids.len()
        invariant
            i <= ids@.len(),
            strictly_sorted(out@),
            out@.to_set() == ids@.take(i as int).to_set(),
        decreases ids@.len() - i,
    {
        let id = ids[i];
        let mut pos: usize = 0;
        while pos < out.len() && cmd_id_less(out[pos], id)
            invariant
                pos <= out@.len(),
                forall|k: int| 0 <= k < pos ==> cmd_id_lt(#[trigger] out@[k], id),
            decreases out@.len() - pos,
        {
            pos = pos + 1;
        }
        let ghost before = out@;
        proof {
            assert(ids@.take(i + 1) =~= ids@.take(i as int).push(id));
            let t1 = ids@.take(i + 1);
            let t0 = ids@.take(i as int);
            assert forall|x: CmdId| t1.to_set().contains(x) <==> t0.to_set().insert(id).contains(x) by {
                if t1.contains(x) {
                    let k = choose|k: int| 0 <= k < t1.len() && #[trigger] t1[k] == x;
                    if k < i {
                        assert(t0[k] == x);
                    }
                }
                if t0.contains(x) {
                    let k = choose|k: int| 0 <= k < t0.len() && #[trigger] t0[k] == x;
                    assert(t1[k] == x);
                }
                if x == id {
                    assert(t1[i as int] == x);
                }
            }
            assert(t1.to_set() =~= t0.to_set().insert(id));
        }
        if pos < out.len() && out[pos] == id {
            proof {
                assert(before.contains(id));
                assert(before.to_set().insert(id) =~= before.to_set());
            }
        } else {
            out.insert(pos, id);
            proof {
                assert(out@ == before.insert(pos as int, id));
                assert forall|a: int, b: int| 0 <= a < b < out@.len() implies cmd_id_lt(
                    #[trigger] out@[a],
                    #[trigger] out@[b],
                ) by {
                    if b < pos {
                        assert(out@[a] == before[a] && out@[b] == before[b]);
                    } else if b == pos {
                        assert(out@[a] == before[a]);
                    } else if a < pos {
                        assert(out@[a] == before[a] && out@[b] == before[b - 1]);
                        assert(cmd_id_lt(before[a], id));
                        assert(pos < before.len());
                        assert(!cmd_id_lt(before[pos as int], id) && before[pos as int] != id);
                        if b - 1 > pos {
                            assert(cmd_id_lt(before[pos as int], before[b - 1]));
                        }
                    } else if a == pos {
                        assert(out@[b] == before[b - 1]);
                        assert(!cmd_id_lt(before[pos as int], id) && before[pos as int] != id);
                        if b - 1 > pos {
                            assert(cmd_id_lt(before[pos as int], before[b - 1]));
                        }
                    } else {
                        assert(out@[a] == before[a - 1] && out@[b] == before[b - 1]);
                    }
                }
                assert(out@.to_set() =~= before.to_set().insert(id)) by {
                    assert forall|x: CmdId| out@.to_set().contains(x) <==> before.to_set().insert(id).contains(x) by {
                        if out@.contains(x) {
                            let k = choose|k: int| 0 <= k < out@.len() && #[trigger] out@[k] == x;
                            if k < pos {
                                assert(before[k] == x);
                            } else if k > pos {
                                assert(before[k - 1] == x);
                            }
                        }
                        if before.contains(x) {
                            let k = choose|k: int| 0 <= k < before.len() && #[trigger] before[k] == x;
                            if k < pos {
                                assert(out@[k] == x);
                            } else {
                                assert(out@[k + 1] == x);
                            }
                        }
                        if x == id {
                            assert(out@[pos as int] == x);
                        }
                    }
                }
            }
        }
        i = i + 1;
    }
    assert(ids@.take(ids@.len() as int) =~= ids@);
    out
}

} // verus!
