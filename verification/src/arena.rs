//! A generational arena: values live in numbered slots, freed slots are
//! chained into a free list and reused, and every slot carries a version that
//! is bumped on removal so that stale handles are refused.
use vstd::prelude::*;

verus! {

/// A handle to a slot of an [`Arena`]: the slot's position and the version
/// the slot had when the value was stored.
#[derive(Debug, Clone, Copy, PartialEq, Eq, Structural)]
pub struct Index {
    pub idx: u32,
    pub version: u32,
}

/// The 64-bit word that packs an index: the version in the high half, the
/// slot number in the low half.
pub open spec fn user_data_of(index: Index) -> int {
    index.version as int * 0x1_0000_0000 + index.idx as int
}

/// The version a slot takes when it is freed: one more, wrapping at `u32::MAX`.
pub open spec fn next_version(version: u32) -> u32 {
    if version == u32::MAX {
        0
    } else {
        (version + 1) as u32
    }
}

/// The index that a 64-bit word unpacks to.
pub open spec fn index_of(user_data: u64) -> Index {
    Index {
        idx: (user_data as int % 0x1_0000_0000) as u32,
        version: (user_data as int / 0x1_0000_0000) as u32,
    }
}

impl Index {
    /// Packs the index and version into a 64-bit integer for io_uring
    pub fn into_user_data(self) -> (user_data: u64)
        ensures
            user_data == user_data_of(self),
    {
        let v: u64 = self.version as u64;
        let i: u64 = self.idx as u64;
        assert((v << 32u64) | i == v * 0x1_0000_0000 + i) by (bit_vector)
            requires
                v < 0x1_0000_0000,
                i < 0x1_0000_0000,
        ;
        (v << 32u64) | i
    }

    /// Unpacks the 64-bit integer returned by the kernel
    pub fn from_user_data(user_data: u64) -> (index: Self)
        ensures
            index == index_of(user_data),
    {
        assert((user_data >> 32u64) == user_data / 0x1_0000_0000) by (bit_vector);
        assert((user_data & 0xFFFF_FFFFu64) == user_data % 0x1_0000_0000) by (bit_vector);
        Index { version: (user_data >> 32u64) as u32, idx: (user_data & 0xFFFF_FFFFu64) as u32 }
    }
}

/// Unpacking a packed index gives the index back.
pub proof fn lemma_unpack_pack(index: Index)
    ensures
        0 <= user_data_of(index) <= u64::MAX,
        index_of(user_data_of(index) as u64) == index,
{
    assert(0 <= user_data_of(index) <= u64::MAX) by (nonlinear_arith)
        requires
            0 <= index.version < 0x1_0000_0000,
            0 <= index.idx < 0x1_0000_0000,
            user_data_of(index) == index.version as int * 0x1_0000_0000 + index.idx as int,
    ;
    let w = user_data_of(index);
    assert(w / 0x1_0000_0000 == index.version as int && w % 0x1_0000_0000 == index.idx as int)
        by (nonlinear_arith)
        requires
            0 <= index.idx < 0x1_0000_0000,
            w == index.version as int * 0x1_0000_0000 + index.idx as int,
    ;
}

/// Packing an unpacked word gives the word back.
pub proof fn lemma_pack_unpack(user_data: u64)
    ensures
        user_data_of(index_of(user_data)) == user_data,
{
    let w = user_data as int;
    assert(0 <= w % 0x1_0000_0000 < 0x1_0000_0000);
    assert(0 <= w / 0x1_0000_0000 < 0x1_0000_0000) by (nonlinear_arith)
        requires
            0 <= w <= u64::MAX,
    ;
    assert(w == (w / 0x1_0000_0000) * 0x1_0000_0000 + w % 0x1_0000_0000) by (nonlinear_arith);
}

/// Reading through the index that `insert` returns gives back the inserted
/// value, and the arena stays well formed.
pub proof fn lemma_insert_then_lookup<T>(m: ArenaModel<T>, value: T)
    requires
        m.wf(),
        m.has_room(),
    ensures
        m.inserted(value).wf(),
        m.inserted(value).lookup(m.insert_index()) == Some(value),
{
    let post = m.inserted(value);
    if m.free.len() > 0 {
        let s = m.free[0];
        assert(m.free.contains(s));
        assert forall|k: int| 0 <= k < post.free.len() implies post.free[k] != s by {
            assert(m.free[k + 1] != m.free[0]);
        }
        assert forall|i: int| 0 <= i < post.slots.len() implies ((#[trigger] post.slots[i]).value
            is None <==> post.free.contains(i as u32)) by {
            if i != s as int {
                assert(m.slots[i] == post.slots[i]);
                if m.free.contains(i as u32) {
                    let k = choose|k: int| 0 <= k < m.free.len() && m.free[k] == i as u32;
                    assert(post.free[k - 1] == i as u32);
                }
                if post.free.contains(i as u32) {
                    let k = choose|k: int| 0 <= k < post.free.len() && post.free[k] == i as u32;
                    assert(m.free[k + 1] == i as u32);
                }
            }
        }
        assert forall|k: int| 0 <= k < post.free.len() implies (#[trigger] post.free[k])
            < post.slots.len() by {
            assert(m.free[k + 1] < m.slots.len());
        }
    } else {
        assert forall|i: int| 0 <= i < post.slots.len() implies ((#[trigger] post.slots[i]).value
            is None <==> post.free.contains(i as u32)) by {
            if i < m.slots.len() {
                assert(m.slots[i] == post.slots[i]);
            }
        }
    }
}

/// `insert` leaves every value that an index reached before where it was,
/// and never hands out the slot of such a value.
pub proof fn lemma_insert_keeps_others<T>(m: ArenaModel<T>, value: T, other: Index)
    requires
        m.wf(),
        m.has_room(),
        m.lookup(other) is Some,
    ensures
        other.idx != m.insert_index().idx,
        m.inserted(value).lookup(other) == m.lookup(other),
{
    if m.free.len() > 0 {
        assert(m.free.contains(m.free[0]));
    }
}

/// After `remove` of an index that reached a value, that index reaches
/// nothing, and the arena stays well formed.
pub proof fn lemma_remove_then_lookup<T>(m: ArenaModel<T>, index: Index)
    requires
        m.wf(),
        m.lookup(index) is Some,
    ensures
        m.removed(index).wf(),
        m.removed(index).lookup(index) is None,
{
    let post = m.removed(index);
    let s = index.idx;
    assert(!m.free.contains(s));
    assert forall|k: int| 0 <= k < m.free.len() implies m.free[k] != s by {
        assert(m.free.contains(m.free[k]));
    }
    assert(post.free.no_duplicates());
    assert forall|i: int| 0 <= i < post.slots.len() implies ((#[trigger] post.slots[i]).value
        is None <==> post.free.contains(i as u32)) by {
        if i != s as int {
            assert(m.slots[i] == post.slots[i]);
            if m.free.contains(i as u32) {
                let k = choose|k: int| 0 <= k < m.free.len() && m.free[k] == i as u32;
                assert(post.free[k + 1] == i as u32);
            }
            if post.free.contains(i as u32) {
                let k = choose|k: int| 0 <= k < post.free.len() && post.free[k] == i as u32;
                assert(k != 0);
                assert(m.free[k - 1] == i as u32);
            }
        } else {
            assert(post.free[0] == s);
        }
    }
    assert forall|k: int| 0 <= k < post.free.len() implies (#[trigger] post.free[k])
        < post.slots.len() by {
        if k > 0 {
            assert(m.free[k - 1] < m.slots.len());
        }
    }
}

/// `remove` of one index leaves what every index of another slot reaches.
pub proof fn lemma_remove_keeps_others<T>(m: ArenaModel<T>, index: Index, other: Index)
    requires
        m.wf(),
        other.idx != index.idx,
    ensures
        m.removed(index).lookup(other) == m.lookup(other),
{
}

/// Removing through the index that `insert` returned gives the arena back
/// the same contents, as seen through every index.
pub proof fn lemma_insert_then_remove<T>(m: ArenaModel<T>, value: T, other: Index)
    requires
        m.wf(),
        m.has_room(),
    ensures
        m.inserted(value).lookup(m.insert_index()) == Some(value),
        m.inserted(value).removed(m.insert_index()).lookup(other) == m.lookup(other),
{
    lemma_insert_then_lookup(m, value);
    if m.free.len() > 0 {
        assert(m.free.contains(m.free[0]));
    }
}

/// Once its value is removed, an index stays stale when its slot is reused
/// by the next `insert`: the slot is handed out again under a new version.
pub proof fn lemma_stale_after_reuse<T>(m: ArenaModel<T>, index: Index, value: T)
    requires
        m.wf(),
        m.lookup(index) is Some,
    ensures
        m.removed(index).has_room(),
        m.removed(index).insert_index().idx == index.idx,
        m.removed(index).insert_index().version == next_version(index.version),
        m.removed(index).inserted(value).lookup(index) is None,
{
}

/// Writing through an index that reaches a value makes it reach the new value,
/// leaves every other slot alone and keeps the arena well formed.
pub proof fn lemma_write_then_lookup<T>(m: ArenaModel<T>, index: Index, value: T, other: Index)
    requires
        m.wf(),
        m.lookup(index) is Some,
    ensures
        m.written(index, value).wf(),
        m.written(index, value).lookup(index) == Some(value),
        other.idx != index.idx ==> m.written(index, value).lookup(other) == m.lookup(other),
{
    let post = m.written(index, value);
    assert(!m.free.contains(index.idx));
    assert forall|i: int| 0 <= i < post.slots.len() implies ((#[trigger] post.slots[i]).value
        is None <==> post.free.contains(i as u32)) by {
        if i != index.idx as int {
            assert(m.slots[i] == post.slots[i]);
        }
    }
}

/// `insert` revives no index but the one it returns: an index that reached
/// nothing before still reaches nothing.
pub proof fn lemma_insert_revives_only_its_index<T>(m: ArenaModel<T>, value: T, other: Index)
    requires
        m.wf(),
        m.has_room(),
        m.lookup(other) is None,
        other != m.insert_index(),
    ensures
        m.inserted(value).lookup(other) is None,
{
}

/// `remove` revives nothing: an index that reached nothing before still
/// reaches nothing.
pub proof fn lemma_remove_revives_nothing<T>(m: ArenaModel<T>, index: Index, other: Index)
    requires
        m.wf(),
        m.lookup(other) is None,
    ensures
        m.removed(index).lookup(other) is None,
{
}

/// Writing through an index changes neither the free list nor which index
/// `insert` hands out next, and revives nothing.
pub proof fn lemma_write_keeps_reuse<T>(m: ArenaModel<T>, index: Index, value: T, other: Index)
    requires
        m.wf(),
        m.lookup(index) is Some,
    ensures
        m.written(index, value).free == m.free,
        m.written(index, value).insert_index() == m.insert_index(),
        m.lookup(other) is None ==> m.written(index, value).lookup(other) is None,
{
    if m.free.len() > 0 {
        assert(m.free.contains(m.free[0]));
        assert(m.free[0] != index.idx);
    }
}

/// A removal that finds nothing leaves the arena exactly as it was.
pub proof fn lemma_failed_remove_changes_nothing<T>(m: ArenaModel<T>, index: Index)
    requires
        m.lookup(index) is None,
    ensures
        m.removed(index) == m,
{
}

enum State<T> {
    /// A vacant slot pointing to the next free index in the arena.
    Free { next_free: Option<u32> },
    /// An active operation owning the data and buffers.
    Occupied(T),
}

struct Entry<T> {
    /// The current version of this slot.
    /// Increments every time the slot is freed.
    version: u32,
    state: State<T>,
}

/// What one slot of an arena holds: its version and, when occupied, its value.
pub struct Slot<T> {
    pub version: u32,
    pub value: Option<T>,
}

/// The mathematical model of an arena: its slots, in order, and its free
/// list, head first (the order in which `insert` reuses free slots).
#[verifier::ext_equal]
pub struct ArenaModel<T> {
    pub slots: Seq<Slot<T>>,
    pub free: Seq<u32>,
}

impl<T> ArenaModel<T> {
    /// The free list holds each vacant slot exactly once and nothing else,
    /// and every slot number fits in a `u32`.
    pub open spec fn wf(self) -> bool {
        &&& self.slots.len() <= u32::MAX as int + 1
        &&& self.free.no_duplicates()
        &&& forall|k: int| 0 <= k < self.free.len() ==> (#[trigger] self.free[k]) < self.slots.len()
        &&& forall|i: int|
            0 <= i < self.slots.len() ==> ((#[trigger] self.slots[i]).value is None
                <==> self.free.contains(i as u32))
    }

    /// Whether `insert` can run: a free slot to reuse, or room for one more
    /// slot number.
    pub open spec fn has_room(self) -> bool {
        self.free.len() > 0 || self.slots.len() <= u32::MAX
    }

    /// Whether the index names an existing slot whose version it carries.
    pub open spec fn version_matches(self, index: Index) -> bool {
        &&& index.idx < self.slots.len()
        &&& self.slots[index.idx as int].version == index.version
    }

    /// The value that an index reaches: present only when the slot exists,
    /// carries the index's version and is occupied.
    pub open spec fn lookup(self, index: Index) -> Option<T> {
        if self.version_matches(index) {
            self.slots[index.idx as int].value
        } else {
            None
        }
    }

    /// The index that `insert` hands out.
    pub open spec fn insert_index(self) -> Index {
        if self.free.len() > 0 {
            Index { idx: self.free[0], version: self.slots[self.free[0] as int].version }
        } else {
            Index { idx: self.slots.len() as u32, version: 0 }
        }
    }

    /// The arena after `insert(value)`: the head of the free list is taken,
    /// keeping its version, or a new slot of version 0 is appended.
    pub open spec fn inserted(self, value: T) -> ArenaModel<T> {
        if self.free.len() > 0 {
            ArenaModel {
                slots: self.slots.update(
                    self.free[0] as int,
                    Slot { version: self.slots[self.free[0] as int].version, value: Some(value) },
                ),
                free: self.free.drop_first(),
            }
        } else {
            ArenaModel { slots: self.slots.push(Slot { version: 0, value: Some(value) }), free: self.free }
        }
    }

    /// The arena after `remove(index)`: when the index reaches a value, its
    /// slot is emptied, its version bumped and the slot pushed on the free
    /// list; otherwise nothing changes.
    pub open spec fn removed(self, index: Index) -> ArenaModel<T> {
        if self.lookup(index) is Some {
            ArenaModel {
                slots: self.slots.update(
                    index.idx as int,
                    Slot { version: next_version(index.version), value: None },
                ),
                free: seq![index.idx].add(self.free),
            }
        } else {
            self
        }
    }

    /// The arena after the value that `index` reaches is overwritten with `value`.
    pub open spec fn written(self, index: Index, value: T) -> ArenaModel<T> {
        ArenaModel {
            slots: self.slots.update(index.idx as int, Slot { version: index.version, value: Some(value) }),
            free: self.free,
        }
    }
}

impl<T> Entry<T> {
    spec fn slot(&self) -> Slot<T> {
        Slot {
            version: self.version,
            value: match self.state {
                State::Free { .. } => None,
                State::Occupied(v) => Some(v),
            },
        }
    }
}

pub struct Arena<T> {
    entries: Vec<Entry<T>>,
    free_head: Option<u32>,
    /// The free list as a sequence of slot numbers, head first.
    free: Ghost<Seq<u32>>,
}

impl<T> View for Arena<T> {
    type V = ArenaModel<T>;

    closed spec fn view(&self) -> ArenaModel<T> {
        ArenaModel { slots: self.entries@.map_values(|e: Entry<T>| e.slot()), free: self.free@ }
    }
}

impl<T> Arena<T> {
    spec fn link_after(&self, k: int) -> Option<u32> {
        if k + 1 < self.free@.len() {
            Some(self.free@[k + 1])
        } else {
            None
        }
    }

    /// The free list threads exactly the vacant slots, each once, from
    /// `free_head` along the `next_free` links; every slot number fits in a `u32`.
    pub closed spec fn wf(&self) -> bool {
        &&& self.entries@.len() <= u32::MAX as int + 1
        &&& self.free@.no_duplicates()
        &&& forall|k: int|
            0 <= k < self.free@.len() ==> {
                &&& (#[trigger] self.free@[k]) < self.entries@.len()
                &&& self.entries@[self.free@[k] as int].state == State::<T>::Free {
                    next_free: self.link_after(k),
                }
            }
        &&& forall|i: int|
            0 <= i < self.entries@.len() && (#[trigger] self.entries@[i].state) is Free
                ==> self.free@.contains(i as u32)
        &&& self.free_head == (if self.free@.len() == 0 {
            None
        } else {
            Some(self.free@[0])
        })
    }

    proof fn lemma_free_not_occupied(&self, i: int)
        requires
            self.wf(),
            0 <= i < self.entries@.len(),
            self.entries@[i].state is Occupied,
        ensures
            !self.free@.contains(i as u32),
    {
        if self.free@.contains(i as u32) {
            let k = choose|k: int| 0 <= k < self.free@.len() && self.free@[k] == i as u32;
            assert(self.free@[k] < self.entries@.len());
        }
    }

    /// A well-formed arena has a well-formed model.
    pub proof fn lemma_wf_model(&self)
        requires
            self.wf(),
        ensures
            self@.wf(),
    {
        assert forall|i: int| 0 <= i < self@.slots.len() implies ((#[trigger] self@.slots[i]).value
            is None <==> self@.free.contains(i as u32)) by {
            if self.entries@[i].state is Occupied {
                self.lemma_free_not_occupied(i);
            } else {
                assert(self.entries@[i].state is Free);
            }
        }
    }

    proof fn lemma_wf_after_free(pre: Self, post: Self, i: int)
        requires
            pre.wf(),
            0 <= i < pre.entries@.len(),
            pre.entries@[i].state is Occupied,
            post.entries@ == pre.entries@.update(
                i,
                Entry { version: post.entries@[i].version, state: State::Free { next_free: pre.free_head } },
            ),
            post.free@ == seq![i as u32].add(pre.free@),
            post.free_head == Some(i as u32),
        ensures
            post.wf(),
            post@.slots == pre@.slots.update(
                i,
                Slot { version: post.entries@[i].version, value: None },
            ),
    {
        pre.lemma_free_not_occupied(i);
        let old_free = pre.free@;
        assert forall|k: int| 0 <= k < old_free.len() implies old_free[k] != i as u32 by {
            assert(old_free.contains(old_free[k]));
        }
        assert(post.free@.no_duplicates());
        assert forall|k: int| 0 <= k < post.free@.len() implies {
            &&& (#[trigger] post.free@[k]) < post.entries@.len()
            &&& post.entries@[post.free@[k] as int].state == State::<T>::Free {
                next_free: post.link_after(k),
            }
        } by {
            if k > 0 {
                assert(post.free@[k] == old_free[k - 1]);
            }
        }
        assert forall|j: int|
            0 <= j < post.entries@.len() && (#[trigger] post.entries@[j].state) is Free
            implies post.free@.contains(j as u32) by {
            if j != i {
                assert(pre.entries@[j].state is Free);
                let k = choose|k: int| 0 <= k < old_free.len() && old_free[k] == j as u32;
                assert(post.free@[k + 1] == j as u32);
            } else {
                assert(post.free@[0] == j as u32);
            }
        }
        assert(post@.slots =~= pre@.slots.update(
            i,
            Slot { version: post.entries@[i].version, value: None },
        ));
    }

    /// An empty arena.
    pub fn new() -> (arena: Self)
        ensures
            arena.wf(),
            arena@.slots == Seq::<Slot<T>>::empty(),
            arena@.free == Seq::<u32>::empty(),
    {
        let arena = Self { entries: Vec::new(), free_head: None, free: Ghost(Seq::empty()) };
        assert(arena@.slots =~= Seq::<Slot<T>>::empty());
        arena
    }

    /// Stores `value` in the most recently freed slot, or in a new slot when
    /// none is free, and returns its index.
    pub fn insert(&mut self, value: T) -> (index: Index)
        requires
            old(self).wf(),
            old(self)@.has_room(),
        ensures
            final(self).wf(),
            index == old(self)@.insert_index(),
            final(self)@ == old(self)@.inserted(value),
    {
        match self.free_head {
            Some(idx) => {
                // Reuse an existing free slot
                proof {
                    assert(self.free@[0] == idx);
                }
                let version: u32 = self.entries[idx as usize].version;
                // Update the free_head to point to the next free slot
                let next_free = match &self.entries[idx as usize].state {
                    State::Free { next_free } => *next_free,
                    State::Occupied(_) => {
                        proof {
                            assert(false);
                        }
                        None
                    },
                };
                // Occupy the slot. The version remains what it was.
                let ghost old_entries = self.entries@;
                let ghost old_free = self.free@;
                self.entries.set(idx as usize, Entry { version, state: State::Occupied(value) });
                self.free_head = next_free;
                proof {
                    self.free@ = old_free.drop_first();
                    assert forall|k: int| 0 <= k < self.free@.len() implies self.free@[k]
                        != idx by {
                        assert(old_free[k + 1] != old_free[0]);
                    }
                    assert forall|i: int|
                        0 <= i < self.entries@.len() && (#[trigger] self.entries@[i].state) is Free
                        implies self.free@.contains(i as u32) by {
                        assert(old_entries[i].state is Free);
                        assert(old_free.contains(i as u32));
                        let k = choose|k: int| 0 <= k < old_free.len() && old_free[k] == i as u32;
                        assert(k != 0);
                        assert(self.free@[k - 1] == i as u32);
                    }
                    assert(self@ =~= old(self)@.inserted(value));
                }
                Index { idx, version }
            },
            None => {
                // No free slots available, push a new one
                let idx: u32 = self.entries.len() as u32;
                let version: u32 = 0;
                self.entries.push(Entry { version, state: State::Occupied(value) });
                proof {
                    assert(self@ =~= old(self)@.inserted(value));
                }
                Index { idx, version }
            },
        }
    }

    /// Takes out the value that `index` reaches, freeing its slot under a new
    /// version; a stale, unknown or vacant index gets nothing and changes
    /// nothing.
    pub fn remove(&mut self, index: Index) -> (removed: Option<T>)
        requires
            old(self).wf(),
        ensures
            final(self).wf(),
            removed == old(self)@.lookup(index),
            final(self)@ == old(self)@.removed(index),
    {
        if index.idx as usize >= self.entries.len() {
            return None;
        }
        let i: usize = index.idx as usize;
        // The ABA guard: if the version doesn't match, this is a stale index.
        if self.entries[i].version != index.version {
            return None;
        }
        // A vacant slot holds nothing to take: it stays on the free list as it is.
        if let State::Free { .. } = &self.entries[i].state {
            return None;
        }
        let ghost old_free = self.free@;
        // Extract the Occupied state and immediately replace it with a Free state.
        // Bump the version so stale indices will fail the check next time.
        // wrapping_add prevents panics if a slot is reused 4 billion times.
        let mut taken = Entry {
            version: index.version.wrapping_add(1),
            state: State::Free { next_free: self.free_head },
        };
        self.entries.set_and_swap(i, &mut taken);
        match taken.state {
            State::Occupied(value) => {
                // Update the free list to point to this newly freed slot.
                self.free_head = Some(index.idx);
                proof {
                    self.free@ = seq![index.idx].add(old_free);
                    Self::lemma_wf_after_free(*old(self), *self, i as int);
                    assert(self@ =~= old(self)@.removed(index));
                }
                Some(value)
            },
            State::Free { .. } => {
                proof {
                    assert(false);
                }
                None
            },
        }
    }

    /// The value that `index` reaches, if any.
    pub fn get(&self, index: Index) -> (found: Option<&T>)
        requires
            self.wf(),
        ensures
            match found {
                Some(v) => self@.lookup(index) == Some(*v),
                None => self@.lookup(index) is None,
            },
    {
        if index.idx as usize >= self.entries.len() {
            return None;
        }
        let entry = &self.entries[index.idx as usize];
        if entry.version != index.version {
            return None;
        }
        match &entry.state {
            State::Occupied(value) => Some(value),
            State::Free { .. } => None,
        }
    }

    /// The value that `index` reaches, if any, to change in place.
    pub fn get_mut(&mut self, index: Index) -> (found: Option<&mut T>)
        requires
            old(self).wf(),
        ensures
            final(self).wf(),
            match found {
                Some(v) => {
                    &&& old(self)@.lookup(index) == Some(*v)
                    &&& final(self)@ == old(self)@.written(index, *final(v))
                },
                None => {
                    &&& old(self)@.lookup(index) is None
                    &&& final(self)@ == old(self)@
                },
            },
    {
        if index.idx as usize >= self.entries.len() {
            return None;
        }
        let i: usize = index.idx as usize;
        if self.entries[i].version != index.version {
            return None;
        }
        let entry = &mut self.entries[i];
        match &mut entry.state {
            State::Occupied(value) => Some(value),
            State::Free { .. } => None,
        }
    }
    /// The number of slots, vacant or not.
    pub(crate) fn slot_count(&self) -> (count: usize)
        ensures
            count == self@.slots.len(),
    {
        self.entries.len()
    }
}

} // verus!
