use vstd::prelude::*;
use crate::direction::Direction;

verus! {

/// How a stored score bounds the true value.
#[derive(Debug, Clone, Copy, PartialEq, Eq, Structural)]
pub enum TtFlag {
    Exact,
    LowerBound,
    UpperBound,
}

impl Default for TtFlag {
    fn default() -> (f: Self)
        ensures
            f == TtFlag::Exact,
    {
        TtFlag::Exact
    }
}

/// A candidate move: target cell, direction and its table index.
#[derive(Debug, Clone, Copy)]
pub struct TtMove {
    pub x: i32,
    pub y: i32,
    pub dir: Direction,
    pub dir_int: usize,
}

impl Default for TtMove {
    fn default() -> (m: Self)
        ensures
            m.x == 0 && m.y == 0 && m.dir == Direction::Up && m.dir_int == 0,
    {
        TtMove { x: 0, y: 0, dir: Direction::Up, dir_int: 0 }
    }
}

/// One stored search result. `mv_dir` is 0..=3 for Up, Down, Left, Right and 255 for none.
#[derive(Debug, Clone, Copy)]
pub struct TtEntry {
    pub key: u64,
    pub score: i32,
    pub generation: u16,
    pub depth: u8,
    pub flag: TtFlag,
    pub mv_x: u8,
    pub mv_y: u8,
    pub mv_dir: u8,
}

/// The empty entry.
pub open spec fn empty_entry() -> TtEntry {
    TtEntry { key: 0, score: 0, generation: 0, depth: 0, flag: TtFlag::Exact, mv_x: 255, mv_y: 255, mv_dir: 255 }
}

impl Default for TtEntry {
    fn default() -> (e: Self)
        ensures
            e == empty_entry(),
    {
        TtEntry { key: 0, score: 0, generation: 0, depth: 0, flag: TtFlag::Exact, mv_x: 255, mv_y: 255, mv_dir: 255 }
    }
}

/// The direction encoded by a move byte.
pub open spec fn dir_of_byte(b: u8) -> Option<Direction> {
    if b == 0 {
        Some(Direction::Up)
    } else if b == 1 {
        Some(Direction::Down)
    } else if b == 2 {
        Some(Direction::Left)
    } else if b == 3 {
        Some(Direction::Right)
    } else {
        None
    }
}

impl TtEntry {
    /// The stored best move's direction, if any.
    pub fn get_direction(&self) -> (d: Option<Direction>)
        ensures
            d == dir_of_byte(self.mv_dir),
    {
        match self.mv_dir {
            0 => Some(Direction::Up),
            1 => Some(Direction::Down),
            2 => Some(Direction::Left),
            3 => Some(Direction::Right),
            _ => None,
        }
    }
}

/// One table slot.
#[derive(Debug, Clone, Copy)]
pub struct TtSlot {
    entry: TtEntry,
}

impl TtSlot {
    /// The entry held by the slot.
    pub closed spec fn spec_entry(&self) -> TtEntry {
        self.entry
    }
}

impl Default for TtSlot {
    fn default() -> (s: Self)
        ensures
            s.spec_entry() == empty_entry(),
    {
        TtSlot { entry: TtEntry::default() }
    }
}

/// Whether `n` is a power of two.
pub open spec fn is_pow2(n: int) -> bool
    decreases n,
{
    if n <= 0 {
        false
    } else if n == 1 {
        true
    } else {
        n % 2 == 0 && is_pow2(n / 2)
    }
}

/// `r` is the smallest power of two that is at least `n`.
pub open spec fn is_next_pow2(n: int, r: int) -> bool {
    is_pow2(r) && r >= n && (r == 1 || r / 2 < n)
}

/// The smallest power of two that is at least `n` (1 for 0).
pub fn next_power_of_two(n: usize) -> (r: usize)
    requires
        n <= usize::MAX / 2 + 1,
    ensures
        is_next_pow2(n as int, r as int),
{
    let mut p: usize = 1;
    while p < n
        invariant
            n <= usize::MAX / 2 + 1,
            is_pow2(p as int),
            p == 1 || p / 2 < n,
        decreases usize::MAX - p,
    {
        p = p * 2;
        proof {
            assert((p as int) / 2 == p / 2);
        }
    }
    p
}

/// Storage used by one slot: a sequence counter and an entry.
pub const TT_SLOT_BYTES: usize = 32;

/// A fixed-size cache of search results indexed by position hash.
pub struct TranspositionTable {
    entries: Vec<TtSlot>,
    mask: usize,
    pub generation: u16,
}

impl TranspositionTable {
    /// The slots, in index order.
    pub closed spec fn slots(&self) -> Seq<TtEntry> {
        self.entries@.map_values(|s: TtSlot| s.entry)
    }

    /// The number of slots in use (a power of two).
    pub closed spec fn capacity(&self) -> int {
        self.mask + 1
    }

    /// The current generation.
    pub closed spec fn spec_generation(&self) -> u16 {
        self.generation
    }

    /// The slot a hash maps to.
    pub open spec fn slot_of(&self, hash: u64) -> int {
        (hash as usize) as int % self.capacity()
    }

    /// The slots in use form a power-of-two prefix of the storage, and no slot holds an entry of a
    /// later generation than the current one.
    pub closed spec fn wf(&self) -> bool {
        &&& is_pow2(self.mask + 1)
        &&& self.mask < self.entries@.len()
        &&& self.mask < usize::MAX
        &&& forall|i: int| 0 <= i < self.entries@.len() ==> (#[trigger] self.entries@[i]).entry.generation <= self.generation
    }
}

/// The table that holds a hash's entry for the current generation, if any.
pub open spec fn lookup(slots: Seq<TtEntry>, slot: int, hash: u64, generation: u16) -> Option<TtEntry> {
    if slots[slot].key == hash && slots[slot].generation == generation {
        Some(slots[slot])
    } else {
        None
    }
}


/// The entry `set` writes.
pub open spec fn written_entry(hash: u64, depth: usize, score: i32, flag: TtFlag, mv_x: u8, mv_y: u8, mv_dir: u8, generation: u16) -> TtEntry {
    TtEntry { key: hash, score, generation, depth: depth as u8, flag, mv_x, mv_y, mv_dir }
}

/// Whether `set` replaces the current entry: it belongs to another generation or position, or the
/// new search is at least as deep.
pub open spec fn replaces(cur: TtEntry, hash: u64, depth: usize, generation: u16) -> bool {
    cur.generation != generation || cur.key != hash || depth as u8 >= cur.depth
}

/// A vector of `n` empty slots.
fn empty_slots(n: usize) -> (v: Vec<TtSlot>)
    ensures
        v@.len() == n,
        forall|i: int| 0 <= i < n ==> (#[trigger] v@[i]).spec_entry() == empty_entry(),
{
    let mut v: Vec<TtSlot> = Vec::new();
    let mut i: usize = 0;
    while i < n
        invariant
            i <= n,
            v@.len() == i,
            forall|k: int| 0 <= k < i ==> (#[trigger] v@[k]).spec_entry() == empty_entry(),
        decreases n - i,
    {
        v.push(TtSlot::default());
        i += 1;
    }
    v
}

impl TranspositionTable {
    /// A table of `next_power_of_two(size)` empty slots at generation 0.
    pub fn new(size: usize) -> (t: Self)
        requires
            size <= usize::MAX / 2 + 1,
        ensures
            t.wf(),
            is_next_pow2(size as int, t.capacity()),
            t.slots().len() == t.capacity(),
            forall|i: int| 0 <= i < t.slots().len() ==> #[trigger] t.slots()[i] == empty_entry(),
            t.spec_generation() == 0,
    {
        let size = next_power_of_two(size);
        let entries = empty_slots(size);
        let t = TranspositionTable { entries, mask: size - 1, generation: 0 };
        proof {
            assert forall|i: int| 0 <= i < t.slots().len() implies #[trigger] t.slots()[i] == empty_entry() by {
                assert(t.entries@[i].spec_entry() == empty_entry());
            }
        }
        t
    }

    /// Resizes the slots in use to `next_power_of_two(requested_size)` (storage only grows) and starts
    /// a new generation; when the generation counter wraps, every slot is cleared and it restarts at 1.
    pub fn prepare_for_search(&mut self, requested_size: usize)
        requires
            old(self).wf(),
            requested_size <= usize::MAX / 2 + 1,
        ensures
            final(self).wf(),
            is_next_pow2(requested_size as int, final(self).capacity()),
            final(self).spec_generation() == if old(self).spec_generation() == u16::MAX { 1 } else { old(self).spec_generation() + 1 },
            final(self).slots().len() == if final(self).capacity() > old(self).slots().len() {
                final(self).capacity()
            } else {
                old(self).slots().len() as int
            },
            old(self).spec_generation() == u16::MAX ==> forall|i: int| 0 <= i < final(self).slots().len()
                ==> #[trigger] final(self).slots()[i] == empty_entry(),
            old(self).spec_generation() < u16::MAX ==> forall|i: int| 0 <= i < final(self).slots().len()
                ==> #[trigger] final(self).slots()[i] == if i < old(self).slots().len() { old(self).slots()[i] } else { empty_entry() },
            forall|i: int| 0 <= i < final(self).slots().len() ==> (#[trigger] final(self).slots()[i]).generation < final(self).spec_generation(),
            forall|hash: u64| #[trigger] lookup(final(self).slots(), final(self).slot_of(hash), hash, final(self).spec_generation()) is None,
    {
        let size = next_power_of_two(requested_size);
        let ghost old_slots = self.slots();
        if size > self.entries.len() {
            let extra = size - self.entries.len();
            let mut more = empty_slots(extra);
            self.entries.append(&mut more);
        }
        self.mask = size - 1;
        self.generation = self.generation.wrapping_add(1);
        if self.generation == 0 {
            self.generation = 1;
            let n = self.entries.len();
            self.entries = empty_slots(n);
        }
        proof {
            assert forall|i: int| 0 <= i < self.slots().len() implies #[trigger] self.slots()[i] == (
                if old(self).spec_generation() == u16::MAX { empty_entry() }
                else if i < old_slots.len() { old_slots[i] } else { empty_entry() }) by {
                assert(self.slots()[i] == self.entries@[i].spec_entry());
            }
            assert forall|i: int| 0 <= i < self.slots().len() implies (#[trigger] self.slots()[i]).generation < self.spec_generation() by {
                assert(self.slots()[i] == self.entries@[i].spec_entry());
                if old(self).spec_generation() != u16::MAX && i < old_slots.len() {
                    assert(old_slots[i] == old(self).entries@[i].entry);
                }
            }
            assert forall|hash: u64| #[trigger] lookup(self.slots(), self.slot_of(hash), hash, self.spec_generation()) is None by {
                assert(0 <= self.slot_of(hash) < self.slots().len());
            }
        }
    }

    /// How many slots fit in `hash_mb` MiB, rounded up to a power of two; 0 means "no explicit size".
    pub fn entries_for_hash_mb(hash_mb: usize) -> (n: usize)
        ensures
            hash_mb == 0 ==> n == 0,
            hash_mb > 0 ==> is_next_pow2(({
                let bytes = if hash_mb * 1048576 > usize::MAX { usize::MAX as int } else { hash_mb * 1048576 };
                let e = bytes / TT_SLOT_BYTES as int;
                if e < 1 { 1 } else { e }
            }), n as int),
    {
        if hash_mb == 0 {
            return 0;
        }
        let bytes = match hash_mb.checked_mul(1024 * 1024) {
            Some(b) => b,
            None => usize::MAX,
        };
        let entries = bytes / TT_SLOT_BYTES;
        let entries = if entries < 1 { 1 } else { entries };
        next_power_of_two(entries)
    }

    /// The slot index of a hash.
    fn index_of(&self, hash: u64) -> (i: usize)
        requires
            self.wf(),
        ensures
            i == self.slot_of(hash),
            i < self.slots().len(),
    {
        (hash as usize) % (self.mask + 1)
    }

    /// The entry stored for `hash` in the current generation, if any.
    pub fn get(&self, hash: u64) -> (r: Option<TtEntry>)
        requires
            self.wf(),
        ensures
            r == lookup(self.slots(), self.slot_of(hash), hash, self.spec_generation()),
    {
        let idx = self.index_of(hash);
        let entry = self.entries[idx].entry;
        proof {
            assert(self.slots()[idx as int] == entry);
        }
        if entry.key == hash && entry.generation == self.generation {
            Some(entry)
        } else {
            None
        }
    }

    /// Stores a search result for `hash` unless the slot holds a deeper result for the same
    /// position in the current generation.
    pub fn set(&mut self, hash: u64, depth: usize, score: i32, flag: TtFlag, mv_x: u8, mv_y: u8, mv_dir: u8)
        requires
            old(self).wf(),
        ensures
            final(self).wf(),
            final(self).capacity() == old(self).capacity(),
            final(self).spec_generation() == old(self).spec_generation(),
            final(self).slots().len() == old(self).slots().len(),
            final(self).slots() == if replaces(old(self).slots()[old(self).slot_of(hash)], hash, depth, old(self).spec_generation()) {
                old(self).slots().update(old(self).slot_of(hash), written_entry(hash, depth, score, flag, mv_x, mv_y, mv_dir, old(self).spec_generation()))
            } else {
                old(self).slots()
            },
    {
        let idx = self.index_of(hash);
        let depth_u8 = depth as u8;
        let curr = self.entries[idx].entry;
        if curr.generation != self.generation || curr.key != hash || depth_u8 >= curr.depth {
            let e = TtEntry { key: hash, score, generation: self.generation, depth: depth_u8, flag, mv_x, mv_y, mv_dir };
            self.entries[idx] = TtSlot { entry: e };
            proof {
                assert(self.slots() =~= old(self).slots().update(idx as int, e));
            }
        }
    }
}

/// After `set(hash, ...)`, `get(hash)` finds an entry for `hash` at least as deep as the one written;
/// it is the written entry unless the slot already held a deeper entry for the same position.
pub proof fn lemma_set_then_get(before: TranspositionTable, after: TranspositionTable, hash: u64, depth: usize, score: i32,
    flag: TtFlag, mv_x: u8, mv_y: u8, mv_dir: u8)
    requires
        before.wf(),
        after.capacity() == before.capacity(),
        after.spec_generation() == before.spec_generation(),
        after.slots() == if replaces(before.slots()[before.slot_of(hash)], hash, depth, before.spec_generation()) {
            before.slots().update(before.slot_of(hash), written_entry(hash, depth, score, flag, mv_x, mv_y, mv_dir, before.spec_generation()))
        } else {
            before.slots()
        },
    ensures
        lookup(after.slots(), after.slot_of(hash), hash, after.spec_generation()) matches Some(e) && e.key == hash && e.depth >= depth as u8,
        replaces(before.slots()[before.slot_of(hash)], hash, depth, before.spec_generation()) ==>
            lookup(after.slots(), after.slot_of(hash), hash, after.spec_generation())
                == Some(written_entry(hash, depth, score, flag, mv_x, mv_y, mv_dir, before.spec_generation())),
{
    assert(0 <= before.slot_of(hash) < before.slots().len()) by {
        assert(before.capacity() > 0);
        assert(before.slots().len() == before.entries@.len());
    }
}

} // verus!
