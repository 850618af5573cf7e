//! Laws of the arena over whole runs of calls: what stays live, what stays
//! dead, and which slot the next `insert` reuses.
use vstd::prelude::*;

use crate::arena::lemma_insert_keeps_others;
use crate::arena::lemma_insert_revives_only_its_index;
use crate::arena::lemma_insert_then_lookup;
use crate::arena::lemma_remove_keeps_others;
use crate::arena::lemma_remove_revives_nothing;
use crate::arena::lemma_remove_then_lookup;
use crate::arena::lemma_stale_after_reuse;
use crate::arena::lemma_write_keeps_reuse;
use crate::arena::lemma_write_then_lookup;
use crate::arena::next_version;
use crate::arena::ArenaModel;
use crate::arena::Index;

verus! {

/// A call that changes an arena: `insert`, `remove`, or a write through the
/// value that `get_mut` hands out. (`get` changes nothing.)
pub enum Call<T> {
    Insert(T),
    Remove(Index),
    Write(Index, T),
}

/// The arena after one call. An `insert` without room is not made (its
/// `requires` refuses it), and a write through an index that reaches nothing
/// is not made (`get_mut` hands out nothing).
pub open spec fn step<T>(m: ArenaModel<T>, call: Call<T>) -> ArenaModel<T> {
    match call {
        Call::Insert(v) => if m.has_room() {
            m.inserted(v)
        } else {
            m
        },
        Call::Remove(i) => m.removed(i),
        Call::Write(i, v) => if m.lookup(i) is Some {
            m.written(i, v)
        } else {
            m
        },
    }
}

/// The arena after a run of calls, in order.
pub open spec fn run<T>(m: ArenaModel<T>, calls: Seq<Call<T>>) -> ArenaModel<T>
    decreases calls.len(),
{
    if calls.len() == 0 {
        m
    } else {
        step(run(m, calls.drop_last()), calls.last())
    }
}

/// The indices that the inserts of a run hand out, in order.
pub open spec fn issued<T>(m: ArenaModel<T>, calls: Seq<Call<T>>) -> Seq<Index>
    decreases calls.len(),
{
    if calls.len() == 0 {
        Seq::empty()
    } else {
        let before = run(m, calls.drop_last());
        let earlier = issued(m, calls.drop_last());
        if calls.last() is Insert && before.has_room() {
            earlier.push(before.insert_index())
        } else {
            earlier
        }
    }
}

/// How many times a run vacates slot `slot`: the removals that find a value there.
pub open spec fn vacations<T>(m: ArenaModel<T>, calls: Seq<Call<T>>, slot: u32) -> nat
    decreases calls.len(),
{
    if calls.len() == 0 {
        0
    } else {
        let before = run(m, calls.drop_last());
        let earlier = vacations(m, calls.drop_last(), slot);
        match calls.last() {
            Call::Remove(j) => if before.lookup(j) is Some && j.idx == slot {
                earlier + 1
            } else {
                earlier
            },
            _ => earlier,
        }
    }
}

/// Every call keeps the arena well formed.
pub proof fn lemma_step_wf<T>(m: ArenaModel<T>, call: Call<T>)
    requires
        m.wf(),
    ensures
        step(m, call).wf(),
{
    match call {
        Call::Insert(v) => {
            if m.has_room() {
                lemma_insert_then_lookup(m, v);
            }
        },
        Call::Remove(i) => {
            if m.lookup(i) is Some {
                lemma_remove_then_lookup(m, i);
            }
        },
        Call::Write(i, v) => {
            if m.lookup(i) is Some {
                lemma_write_then_lookup(m, i, v, i);
            }
        },
    }
}

/// Every run keeps the arena well formed.
pub proof fn lemma_run_wf<T>(m: ArenaModel<T>, calls: Seq<Call<T>>)
    requires
        m.wf(),
    ensures
        run(m, calls).wf(),
    decreases calls.len(),
{
    if calls.len() > 0 {
        lemma_run_wf(m, calls.drop_last());
        lemma_step_wf(run(m, calls.drop_last()), calls.last());
    }
}

/// An index that reaches nothing keeps reaching nothing over any run in
/// which no insert hands it out: nothing but an insert revives an index.
pub proof fn lemma_run_revives_nothing<T>(m: ArenaModel<T>, calls: Seq<Call<T>>, index: Index)
    requires
        m.wf(),
        m.lookup(index) is None,
        !issued(m, calls).contains(index),
    ensures
        run(m, calls).lookup(index) is None,
    decreases calls.len(),
{
    if calls.len() > 0 {
        let init = calls.drop_last();
        let before = run(m, init);
        assert(!issued(m, init).contains(index)) by {
            if issued(m, init).contains(index) {
                let k = choose|k: int| 0 <= k < issued(m, init).len() && issued(m, init)[k] == index;
                if calls.last() is Insert && before.has_room() {
                    assert(issued(m, calls)[k] == index);
                }
            }
        }
        lemma_run_revives_nothing(m, init, index);
        lemma_run_wf(m, init);
        match calls.last() {
            Call::Insert(v) => {
                if before.has_room() {
                    assert(issued(m, calls).last() == before.insert_index());
                    lemma_insert_revives_only_its_index(before, v, index);
                }
            },
            Call::Remove(j) => {
                lemma_remove_revives_nothing(before, j, index);
            },
            Call::Write(j, v) => {
                if before.lookup(j) is Some {
                    lemma_write_keeps_reuse(before, j, v, index);
                }
            },
        }
    }
}

/// A value stays reachable through its index over any run that neither
/// removes through that index nor writes through it.
pub proof fn lemma_run_keeps_value<T>(m: ArenaModel<T>, calls: Seq<Call<T>>, index: Index)
    requires
        m.wf(),
        m.lookup(index) is Some,
        forall|k: int|
            0 <= k < calls.len() ==> !((#[trigger] calls[k]) matches Call::Remove(j) && j == index),
        forall|k: int|
            0 <= k < calls.len() ==> !((#[trigger] calls[k]) matches Call::Write(j, _) && j == index),
    ensures
        run(m, calls).lookup(index) == m.lookup(index),
    decreases calls.len(),
{
    if calls.len() > 0 {
        let init = calls.drop_last();
        let before = run(m, init);
        assert forall|k: int| 0 <= k < init.len() implies !((#[trigger] init[k]) matches Call::Remove(
            j,
        ) && j == index) by {
            assert(init[k] == calls[k]);
        }
        assert forall|k: int| 0 <= k < init.len() implies !((#[trigger] init[k]) matches Call::Write(
            j,
            _,
        ) && j == index) by {
            assert(init[k] == calls[k]);
        }
        lemma_run_keeps_value(m, init, index);
        lemma_run_wf(m, init);
        let last = calls.last();
        assert(last == calls[calls.len() - 1]);
        match last {
            Call::Insert(v) => {
                if before.has_room() {
                    lemma_insert_keeps_others(before, v, index);
                }
            },
            Call::Remove(j) => {
                if j.idx != index.idx {
                    lemma_remove_keeps_others(before, j, index);
                }
            },
            Call::Write(j, v) => {
                if before.lookup(j) is Some && j.idx != index.idx {
                    lemma_write_then_lookup(before, j, v, index);
                }
            },
        }
    }
}

/// After a removal, a run that only writes through `get_mut` leaves the
/// removed slot first in line: the next insert reuses it under the version
/// bumped when it was freed.
pub proof fn lemma_reuse_after_writes<T>(m: ArenaModel<T>, index: Index, calls: Seq<Call<T>>)
    requires
        m.wf(),
        m.lookup(index) is Some,
        forall|k: int| 0 <= k < calls.len() ==> (#[trigger] calls[k]) is Write,
    ensures
        run(m.removed(index), calls).has_room(),
        run(m.removed(index), calls).insert_index() == (Index {
            idx: index.idx,
            version: next_version(index.version),
        }),
    decreases calls.len(),
{
    lemma_remove_then_lookup(m, index);
    lemma_stale_after_reuse(m, index, m.slots[index.idx as int].value.unwrap());
    if calls.len() > 0 {
        let init = calls.drop_last();
        assert forall|k: int| 0 <= k < init.len() implies (#[trigger] init[k]) is Write by {
            assert(init[k] == calls[k]);
        }
        lemma_reuse_after_writes(m, index, init);
        let before = run(m.removed(index), init);
        lemma_run_wf(m.removed(index), init);
        assert(calls[calls.len() - 1] is Write);
        match calls.last() {
            Call::Write(j, v) => {
                if before.lookup(j) is Some {
                    lemma_write_keeps_reuse(before, j, v, j);
                }
            },
            _ => {},
        }
    }
}

proof fn lemma_stale_invariant<T>(m: ArenaModel<T>, calls: Seq<Call<T>>, index: Index)
    requires
        m.wf(),
        index.idx < m.slots.len(),
        m.slots[index.idx as int].version as int == (index.version as int + 1) % 0x1_0000_0000,
        vacations(m, calls, index.idx) < u32::MAX,
    ensures
        run(m, calls).wf(),
        index.idx < run(m, calls).slots.len(),
        run(m, calls).slots[index.idx as int].version as int == (index.version as int + 1
            + vacations(m, calls, index.idx)) % 0x1_0000_0000,
        !issued(m, calls).contains(index),
    decreases calls.len(),
{
    let s = index.idx;
    if calls.len() > 0 {
        let init = calls.drop_last();
        let before = run(m, init);
        lemma_stale_invariant(m, init, index);
        lemma_run_wf(m, init);
        lemma_step_wf(before, calls.last());
        let r = vacations(m, init, s);
        let v = before.slots[s as int].version;
        assert(v as int != index.version as int) by {
            assert(1 <= 1 + r < 0x1_0000_0000);
        }
        match calls.last() {
            Call::Insert(x) => {
                if before.has_room() {
                    let issued_now = before.insert_index();
                    if issued_now.idx == s {
                        assert(issued_now.version == v);
                    }
                    assert(issued(m, calls) == issued(m, init).push(issued_now));
                    assert(!issued(m, calls).contains(index)) by {
                        if issued(m, calls).contains(index) {
                            let k = choose|k: int|
                                0 <= k < issued(m, calls).len() && issued(m, calls)[k] == index;
                            if k < issued(m, init).len() {
                                assert(issued(m, init)[k] == index);
                            }
                        }
                    }
                    if before.free.len() > 0 {
                        assert(before.free.contains(before.free[0]));
                    }
                }
            },
            Call::Remove(j) => {
                if before.lookup(j) is Some && j.idx == s {
                    assert(j.version == v);
                    let x = index.version as int + 1 + r;
                    assert(v as int == x % 0x1_0000_0000);
                    assert(next_version(v) as int == (x + 1) % 0x1_0000_0000);
                }
            },
            Call::Write(j, x) => {},
        }
    }
}

/// Once the value that an index reached is removed, the index stays dead
/// over any later run in which its slot is vacated fewer than `u32::MAX`
/// more times: no insert hands it out again and it reaches nothing.
pub proof fn lemma_stale_stays_dead<T>(m: ArenaModel<T>, index: Index, calls: Seq<Call<T>>)
    requires
        m.wf(),
        m.lookup(index) is Some,
        vacations(m.removed(index), calls, index.idx) < u32::MAX,
    ensures
        !issued(m.removed(index), calls).contains(index),
        run(m.removed(index), calls).lookup(index) is None,
{
    let m1 = m.removed(index);
    lemma_remove_then_lookup(m, index);
    assert(m1.slots[index.idx as int].version == next_version(index.version));
    lemma_stale_invariant(m1, calls, index);
    lemma_run_revives_nothing(m1, calls, index);
}

/// `insert` changes what no index but its own reaches.
pub proof fn lemma_insert_changes_only_its_index<T>(m: ArenaModel<T>, value: T, other: Index)
    requires
        m.wf(),
        m.has_room(),
        other != m.insert_index(),
    ensures
        m.inserted(value).lookup(other) == m.lookup(other),
{
    if m.lookup(other) is Some {
        lemma_insert_keeps_others(m, value, other);
    } else {
        lemma_insert_revives_only_its_index(m, value, other);
    }
}

} // verus!
