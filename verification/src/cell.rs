//! A fixed-size hash-bucket cell: a main slot array plus a chain of linked
//! overflow arrays, guarded by a packed 32-bit state word that encodes an
//! exclusive lock, a shared-reader count, a waiter flag and a kill flag.
//!
//! The concurrent design drives the state word with compare-and-swap
//! loops and publishes slots with release fences. In this sequential model
//! the state word is a plain field, and every transition a CAS performs is
//! a verified function of the loaded word; the occupancy and removal
//! bitmaps keep their exact bit-level encoding.

use crate::bits::{
    bit_set, count_bits, lemma_and_not_bit, lemma_count_clear_bit, lemma_count_nonneg,
    lemma_count_pos, lemma_count_set_bit, lemma_count_zero_word, lemma_live_remove,
    lemma_count_zero_implies_zero, lemma_live_grow, lemma_live_subset, lemma_no_removed,
    lemma_or_bit, lemma_self_clear, lemma_subset_add, lemma_subset_bit, lemma_subset_grow,
};
use crate::ebr::Barrier;
use vstd::prelude::*;
use vstd::std_specs::cmp::PartialEqSpec;

verus! {

/// The fixed size of the main slot array of a cell.
pub const CELL_LEN: usize = 32;

/// The fixed size of each linked overflow array: a quarter of
/// [`CELL_LEN`].
pub const LINKED_LEN: usize = 8;

/// Kill flag, bit 31: once set, the cell is terminal.
pub const KILLED: u32 = 0x8000_0000;

/// Waiter flag, bit 30: a contender announced itself before parking.
pub const WAITING: u32 = 0x4000_0000;

/// Exclusive-lock flag, bit 29.
pub const LOCK: u32 = 0x2000_0000;

/// Largest representable shared-reader count: bits 0 to 28 all set.
pub const SLOCK_MAX: u32 = 0x1fff_ffff;

/// Both holder fields of the state word: the lock flag and the count.
pub const LOCK_MASK: u32 = 0x3fff_ffff;

/// True iff the kill flag of state word `s` is set.
pub open spec fn is_killed(s: u32) -> bool {
    s & KILLED != 0
}

/// True iff the waiter flag of state word `s` is set.
pub open spec fn is_waiting(s: u32) -> bool {
    s & WAITING != 0
}

/// True iff the exclusive-lock flag of state word `s` is set.
pub open spec fn is_locked(s: u32) -> bool {
    s & LOCK != 0
}

/// The shared-reader count held in the low bits of state word `s`.
pub open spec fn shared_count(s: u32) -> u32 {
    s & SLOCK_MAX
}

/// True iff an exclusive locker can acquire `s`: no holder of either kind.
pub open spec fn lock_acquirable(s: u32) -> bool {
    s & LOCK_MASK == 0
}

/// True iff one more shared reader can acquire `s`.
pub open spec fn share_acquirable(s: u32) -> bool {
    s & LOCK_MASK < SLOCK_MAX
}

/// Mutual exclusion, as the state word encodes it: while the exclusive
/// lock is held neither a second locker nor a reader can acquire the cell,
/// while any reader is present no locker can, and a full reader count
/// admits no further reader.
pub proof fn lemma_mutual_exclusion(s: u32)
    by (bit_vector)
    ensures
        is_locked(s) ==> !lock_acquirable(s) && !share_acquirable(s),
        shared_count(s) > 0 ==> !lock_acquirable(s),
        shared_count(s) == SLOCK_MAX ==> !share_acquirable(s),
        lock_acquirable(s) ==> !is_locked(s) && shared_count(s) == 0,
{
}

/// Acquiring the exclusive lock sets only the lock flag.
proof fn lemma_lock_set(s: u32)
    by (bit_vector)
    requires
        s & LOCK_MASK == 0,
    ensures
        (s | LOCK) & KILLED == s & KILLED,
        (s | LOCK) & WAITING == s & WAITING,
        (s | LOCK) & LOCK != 0,
        (s | LOCK) & SLOCK_MAX == 0,
{
}

/// Releasing the exclusive lock clears the lock and waiter flags and keeps
/// the rest of the word.
proof fn lemma_lock_clear(s: u32)
    by (bit_vector)
    ensures
        (s & !(WAITING | LOCK)) & KILLED == s & KILLED,
        (s & !(WAITING | LOCK)) & LOCK == 0,
        (s & !(WAITING | LOCK)) & WAITING == 0,
        (s & !(WAITING | LOCK)) & SLOCK_MAX == s & SLOCK_MAX,
{
}

/// One more shared reader fits: incrementing the word changes only the
/// count.
proof fn lemma_share_inc(s: u32)
    by (bit_vector)
    requires
        s & LOCK_MASK < SLOCK_MAX,
    ensures
        s < 0xffff_ffffu32,
        ((s + 1) as u32) & KILLED == s & KILLED,
        ((s + 1) as u32) & WAITING == s & WAITING,
        ((s + 1) as u32) & LOCK == s & LOCK,
        ((s + 1) as u32) & SLOCK_MAX == (s & SLOCK_MAX) + 1,
        ((s + 1) as u32) & LOCK_MASK == (s & LOCK_MASK) + 1,
{
}

/// A departing shared reader decrements the count and clears the waiter
/// flag, keeping the rest of the word.
proof fn lemma_share_dec(s: u32)
    by (bit_vector)
    requires
        s & SLOCK_MAX >= 1,
    ensures
        s >= 1,
        (((s - 1) as u32) & !WAITING) & KILLED == s & KILLED,
        (((s - 1) as u32) & !WAITING) & LOCK == s & LOCK,
        (((s - 1) as u32) & !WAITING) & WAITING == 0,
        (((s - 1) as u32) & !WAITING) & SLOCK_MAX == (s & SLOCK_MAX) - 1,
{
}

/// Setting a single flag bit keeps every other field of the word.
proof fn lemma_flag_set(s: u32, flag: u32)
    by (bit_vector)
    requires
        flag == WAITING || flag == KILLED,
    ensures
        (s | flag) & flag != 0,
        flag == WAITING ==> (s | flag) & KILLED == s & KILLED && (s | flag) & LOCK == s & LOCK && (
        s | flag) & SLOCK_MAX == s & SLOCK_MAX,
        flag == KILLED ==> (s | flag) & WAITING == s & WAITING && (s | flag) & LOCK == s & LOCK && (
        s | flag) & SLOCK_MAX == s & SLOCK_MAX,
{
}

/// The all-zero state word of a fresh cell: no holder, no waiter, alive.
pub proof fn lemma_zero_state()
    by (bit_vector)
    ensures
        !is_killed(0u32),
        !is_waiting(0u32),
        !is_locked(0u32),
        lock_acquirable(0u32),
        share_acquirable(0u32),
        shared_count(0u32) == 0,
{
}

/// Testing the kill flag by equality with the mask and by a nonzero test
/// agree: the flag is a single bit.
proof fn lemma_killed_test(s: u32)
    by (bit_vector)
    ensures
        (s & KILLED == KILLED) == (s & KILLED != 0),
{
}

/// The kill flag survives masking the holder fields away.
proof fn lemma_killed_masked(s: u32)
    by (bit_vector)
    ensures
        (s & !LOCK_MASK) & KILLED == s & KILLED,
        (s & !LOCK_MASK) & LOCK_MASK == 0,
        s & LOCK_MASK == 0 ==> s & !LOCK_MASK == s,
{
}

/// Mathematical view of one slot array: its two bitmaps, the hash
/// fingerprints and the slot contents.
#[verifier::ext_equal]
pub ghost struct ArrView<K, V> {
    /// The occupancy bitmap.
    pub occ: u32,
    /// The removal bitmap.
    pub rem: u32,
    /// One hash fingerprint per slot.
    pub hashes: Seq<u8>,
    /// The slot contents.
    pub slots: Seq<Option<(K, V)>>,
}

/// The bitmap of slots that are occupied and not removed: exactly the
/// readable slots.
pub open spec fn live_mask<K, V>(v: ArrView<K, V>) -> u32 {
    v.occ & !v.rem
}

/// Well-formedness of one array view of size `len`: removal marks only on
/// occupied slots, and the occupancy bitmap agrees with the slot contents.
pub open spec fn view_wf<K, V>(v: ArrView<K, V>, len: int) -> bool {
    &&& v.slots.len() == len
    &&& v.hashes.len() == len
    &&& 1 <= len <= 32
    &&& v.rem & !v.occ == 0
    &&& forall|i: u32| i < 32 ==> (bit_set(v.occ, i) == (i < len && v.slots[i as int] is Some))
}

/// Number of readable slots across a chain of array views.
pub open spec fn views_live_count<K, V>(vs: Seq<ArrView<K, V>>) -> int
    decreases vs.len(),
{
    if vs.len() == 0 {
        0
    } else {
        count_bits(live_mask(vs[0]), 32) + views_live_count(vs.drop_first())
    }
}

/// True iff some readable slot of the chain stores the given hash
/// fingerprint and a key that the key's `PartialEq` accepts.
pub open spec fn has_live_match<K: PartialEq, V>(vs: Seq<ArrView<K, V>>, key: K, hash: u8) -> bool {
    exists|d: int, i: u32|
        0 <= d < vs.len() && i < 32 && #[trigger] bit_set(live_mask(vs[d]), i) && vs[d].hashes[i
            as int] == hash && vs[d].slots[i as int].unwrap().0.eq_spec(&key)
}

/// The views of every overflow array reachable from `link`, head first.
pub closed spec fn overflow_views<K, V>(link: Option<Box<DataArray<K, V>>>) -> Seq<ArrView<K, V>>
    decreases link,
{
    match link {
        Some(b) => seq![b.arr_view()] + overflow_views(b.link),
        None => Seq::empty(),
    }
}

/// Well-formedness of every overflow array reachable from `link`.
pub closed spec fn overflow_wf<K, V>(link: Option<Box<DataArray<K, V>>>) -> bool
    decreases link,
{
    match link {
        Some(b) => view_wf(b.arr_view(), LINKED_LEN as int) && overflow_wf(b.link),
        None => true,
    }
}

/// True iff no removal mark is set in any overflow array reachable from
/// `link`.
pub closed spec fn overflow_clean<K, V>(link: Option<Box<DataArray<K, V>>>) -> bool
    decreases link,
{
    match link {
        Some(b) => b.arr_view().rem == 0 && overflow_clean(b.link),
        None => true,
    }
}

/// The preferred slot of a hash fingerprint in an array: the fingerprint
/// reduced by the array size.
pub open spec fn preferred_of<K, V>(v: ArrView<K, V>, hash: u8) -> u32 {
    (hash as int % (v.slots.len() as int)) as u32
}

/// True iff slot `i` of the array is readable and stores the given hash
/// fingerprint and a key that the key's `PartialEq` accepts.
pub open spec fn slot_matches<K: PartialEq, V>(v: ArrView<K, V>, i: u32, key: K, hash: u8) -> bool {
    &&& i < 32
    &&& bit_set(live_mask(v), i)
    &&& v.hashes[i as int] == hash
    &&& v.slots[i as int].unwrap().0.eq_spec(&key)
}

/// The lowest matching slot at or above `j`, the preferred slot excepted;
/// 32 when none matches.
pub open spec fn first_other_match<K: PartialEq, V>(
    v: ArrView<K, V>,
    key: K,
    hash: u8,
    j: u32,
) -> u32
    decreases 32 - j,
{
    if j >= 32 {
        32
    } else if j != preferred_of(v, hash) && slot_matches(v, j, key, hash) {
        j
    } else {
        first_other_match(v, key, hash, (j + 1) as u32)
    }
}

/// The slot a search of one array yields: the preferred slot when it
/// matches, else the lowest other matching slot; 32 when none matches.
pub open spec fn probe_match<K: PartialEq, V>(v: ArrView<K, V>, key: K, hash: u8) -> u32 {
    if slot_matches(v, preferred_of(v, hash), key, hash) {
        preferred_of(v, hash)
    } else {
        first_other_match(v, key, hash, 0)
    }
}

/// The depth of the first array of the chain, at or after `d`, in which a
/// search hits; `vs.len()` when none does.
pub open spec fn chain_match<K: PartialEq, V>(
    vs: Seq<ArrView<K, V>>,
    key: K,
    hash: u8,
    d: int,
) -> int
    decreases vs.len() - d,
{
    if d < 0 || d >= vs.len() {
        vs.len() as int
    } else if probe_match(vs[d], key, hash) < 32 {
        d
    } else {
        chain_match(vs, key, hash, d + 1)
    }
}

/// A matching slot above which everything else fails to match, when the
/// preferred slot also fails, is the probe-match slot.
proof fn lemma_other_match<K: PartialEq, V>(v: ArrView<K, V>, key: K, hash: u8, k: u32, i: u32)
    requires
        k <= i < 32,
        i != preferred_of(v, hash),
        slot_matches(v, i, key, hash),
        forall|j: u32| k <= j < i && j != preferred_of(v, hash) ==> !slot_matches(v, j, key, hash),
    ensures
        first_other_match(v, key, hash, k) == i,
    decreases i - k,
{
    if k < i {
        lemma_other_match(v, key, hash, (k + 1) as u32, i);
    }
}

/// When no slot but possibly the preferred one matches, the other-match
/// search runs off the end.
proof fn lemma_other_match_none<K: PartialEq, V>(v: ArrView<K, V>, key: K, hash: u8, k: u32)
    requires
        forall|j: u32| k <= j < 32 && j != preferred_of(v, hash) ==> !slot_matches(v, j, key, hash),
    ensures
        first_other_match(v, key, hash, k) == 32,
    decreases 32 - k,
{
    if k < 32 {
        lemma_other_match_none(v, key, hash, (k + 1) as u32);
    }
}

/// The probe-match slot, when one exists, indeed matches.
proof fn lemma_probe_match_at<K: PartialEq, V>(v: ArrView<K, V>, key: K, hash: u8, k: u32)
    requires
        first_other_match(v, key, hash, k) < 32,
    ensures
        slot_matches(v, first_other_match(v, key, hash, k), key, hash),
        first_other_match(v, key, hash, k) >= k,
    decreases 32 - k,
{
    if k < 32 && !(k != preferred_of(v, hash) && slot_matches(v, k, key, hash)) {
        lemma_probe_match_at(v, key, hash, (k + 1) as u32);
    }
}

/// Every array before the first that hits has no matching slot, and the
/// first that hits, when one exists, is in range.
proof fn lemma_chain_match_props<K: PartialEq, V>(vs: Seq<ArrView<K, V>>, key: K, hash: u8, k: int)
    requires
        0 <= k <= vs.len(),
    ensures
        k <= chain_match(vs, key, hash, k) <= vs.len(),
        forall|d2: int|
            k <= d2 < chain_match(vs, key, hash, k) ==> probe_match(
                #[trigger] vs[d2],
                key,
                hash,
            ) >= 32,
        chain_match(vs, key, hash, k) < vs.len() ==> probe_match(
            vs[chain_match(vs, key, hash, k)],
            key,
            hash,
        ) < 32,
    decreases vs.len() - k,
{
    if k < vs.len() && !(probe_match(vs[k], key, hash) < 32) {
        lemma_chain_match_props(vs, key, hash, k + 1);
    }
}

/// An array in which a search hits, behind arrays in which it misses, is
/// the first in which it hits.
proof fn lemma_chain_match<K: PartialEq, V>(vs: Seq<ArrView<K, V>>, key: K, hash: u8, k: int, d: int)
    requires
        0 <= k <= d <= vs.len(),
        forall|d2: int| k <= d2 < d ==> probe_match(#[trigger] vs[d2], key, hash) >= 32,
        d < vs.len() ==> probe_match(vs[d], key, hash) < 32,
        d == vs.len() ==> true,
    ensures
        chain_match(vs, key, hash, k) == d,
    decreases d - k,
{
    if k < d {
        lemma_chain_match(vs, key, hash, k + 1, d);
    }
}

/// A fixed-size array of key-value slots: two bitmaps, one hash
/// fingerprint per slot, the slot storage, and a link to the next overflow
/// array. The main array of a cell has [`CELL_LEN`] slots and each linked
/// overflow array [`LINKED_LEN`]; the size is fixed at construction.
///
/// The concurrent design stores the link in an atomic owning pointer and
/// the slots in uninitialized storage; here the link is an owned box and a
/// free slot holds `None`.
pub struct DataArray<K, V> {
    link: Option<Box<DataArray<K, V>>>,
    occupied: u32,
    removed: u32,
    partial_hash_array: Vec<u8>,
    data: Vec<Option<(K, V)>>,
}

impl<K, V> DataArray<K, V> {
    /// This array alone, as a mathematical view.
    pub closed spec fn arr_view(&self) -> ArrView<K, V> {
        ArrView {
            occ: self.occupied,
            rem: self.removed,
            hashes: self.partial_hash_array@,
            slots: self.data@,
        }
    }

    /// Creates an empty, unlinked array of `len` slots.
    fn new(len: usize) -> (r: DataArray<K, V>)
        requires
            1 <= len <= 32,
        ensures
            r.link is None,
            view_wf(r.arr_view(), len as int),
            r.arr_view() == empty_view::<K, V>(len as int),
    {
        let mut hashes: Vec<u8> = Vec::new();
        let mut data: Vec<Option<(K, V)>> = Vec::new();
        let mut i: usize = 0;
        while i < len
            invariant
                i <= len,
                hashes@.len() == i as int,
                data@.len() == i as int,
                forall|j: int| 0 <= j < i ==> (#[trigger] data@[j]) is None,
                forall|j: int| 0 <= j < i ==> (#[trigger] hashes@[j]) == 0u8,
            decreases len - i,
        {
            hashes.push(0u8);
            data.push(None);
            i = i + 1;
        }
        let r = DataArray { link: None, occupied: 0, removed: 0, partial_hash_array: hashes, data };
        proof {
            assert forall|b: u32| b < 32 implies !bit_set(0u32, b) by {
                assert(0u32 & (1u32 << b) == 0) by (bit_vector);
            }
            assert(0u32 & !0u32 == 0) by (bit_vector);
            assert(r.arr_view() =~= empty_view::<K, V>(len as int));
        }
        r
    }
}

/// One bucket of a hash map: an inline main array of [`CELL_LEN`] slots, a
/// chain of overflow arrays of [`LINKED_LEN`] slots, the packed state word
/// and the count of readable entries.
///
/// When `LOCK_FREE` is true, erasure only sets a removal mark so that
/// searches need no lock; when it is false the removal bitmap stays zero
/// and erasure moves the pair out at once.
pub struct Cell<K, V, const LOCK_FREE: bool> {
    data_array: DataArray<K, V>,
    state: u32,
    num_entries: u32,
}

impl<K, V, const LOCK_FREE: bool> Cell<K, V, LOCK_FREE> {
    /// The packed state word.
    pub closed spec fn spec_state(&self) -> u32 {
        self.state
    }

    /// The recorded number of readable entries.
    pub closed spec fn spec_num_entries(&self) -> u32 {
        self.num_entries
    }

    /// The views of the main array and of every overflow array, head
    /// first.
    pub closed spec fn views(&self) -> Seq<ArrView<K, V>> {
        seq![self.data_array.arr_view()] + overflow_views(self.data_array.link)
    }

    /// Structural well-formedness alone: every array of the chain is well
    /// formed and the removal bitmaps are unused outside lock-free mode.
    /// [`EntryIterator::unlink_data_array`] works at this level, between
    /// the slot update and the count update of an erasure.
    pub closed spec fn shape_ok(&self) -> bool {
        &&& view_wf(self.data_array.arr_view(), CELL_LEN as int)
        &&& overflow_wf(self.data_array.link)
        &&& !LOCK_FREE ==> self.data_array.arr_view().rem == 0 && overflow_clean(
            self.data_array.link,
        )
    }

    /// Well-formedness: the chain is structurally sound, every overflow
    /// array keeps a readable slot, and — until the cell is killed —
    /// `num_entries` counts exactly the readable slots.
    pub closed spec fn wf(&self) -> bool {
        &&& self.shape_ok()
        &&& overflow_live(self.data_array.link)
        &&& !is_killed(self.state) ==> self.num_entries as int == views_live_count(self.views())
        &&& is_killed(self.state) ==> self.num_entries == 0 && self.data_array.link is None
    }

    /// Creates an empty cell with an all-zero state word.
    pub fn new() -> (r: Cell<K, V, LOCK_FREE>)
        ensures
            r.wf(),
            r.spec_state() == 0,
            r.spec_num_entries() == 0,
            r.views().len() == 1,
            r.views()[0] == empty_view::<K, V>(CELL_LEN as int),
            views_live_count(r.views()) == 0,
            !is_killed(r.spec_state()),
            lock_acquirable(r.spec_state()),
            share_acquirable(r.spec_state()),
    {
        proof {
            lemma_zero_state();
        }
        let r = Cell { data_array: DataArray::new(CELL_LEN), state: 0, num_entries: 0 };
        proof {
            lemma_count_zero_word(32);
            assert(0u32 & !0u32 == 0u32) by (bit_vector);
            assert(r.views()[0] == r.data_array.arr_view());
            assert(live_mask(r.views()[0]) == 0u32);
            assert(r.views().drop_first() =~= Seq::<ArrView<K, V>>::empty());
            assert(views_live_count(r.views().drop_first()) == 0);
        }
        r
    }

    /// Returns `true` iff the cell has been killed.
    pub fn killed(&self) -> (r: bool)
        ensures
            r == is_killed(self.spec_state()),
    {
        proof {
            lemma_killed_test(self.state);
        }
        (self.state & KILLED) == KILLED
    }

    /// Returns the recorded number of readable entries.
    pub fn num_entries(&self) -> (r: usize)
        ensures
            r == self.spec_num_entries(),
    {
        self.num_entries as usize
    }
}

impl<K, V, const LOCK_FREE: bool> Default for Cell<K, V, LOCK_FREE> {
    /// Same as [`Cell::new`].
    fn default() -> (r: Self)
        ensures
            r.wf(),
            r.spec_state() == 0,
            r.spec_num_entries() == 0,
            !is_killed(r.spec_state()),
            lock_acquirable(r.spec_state()),
            share_acquirable(r.spec_state()),
    {
        Cell::new()
    }
}

/// Witness that the holder set the exclusive-lock flag of a cell's state
/// word. The concurrent design's guard borrows the cell; this sequential
/// token is presented together with the cell it locked.
pub struct Locker {
    private: (),
}

impl Locker {
    /// Tries to take the exclusive lock.
    ///
    /// Returns `Ok(None)` on a killed cell, the locker when no holder was
    /// present, and `Err(())` — try again or park — when one was.
    pub fn try_lock<K, V, const LOCK_FREE: bool>(
        cell: &mut Cell<K, V, LOCK_FREE>,
        barrier: &Barrier,
    ) -> (r: Result<Option<Locker>, ()>)
        requires
            old(cell).wf(),
        ensures
            final(cell).wf(),
            final(cell).views() == old(cell).views(),
            final(cell).spec_num_entries() == old(cell).spec_num_entries(),
            match r {
                Ok(Some(_)) => {
                    &&& !is_killed(old(cell).spec_state())
                    &&& lock_acquirable(old(cell).spec_state())
                    &&& final(cell).spec_state() == old(cell).spec_state() | LOCK
                    &&& is_locked(final(cell).spec_state())
                    &&& !is_killed(final(cell).spec_state())
                },
                Ok(None) => is_killed(old(cell).spec_state()) && *final(cell) == *old(cell),
                Err(()) => {
                    &&& !is_killed(old(cell).spec_state())
                    &&& !lock_acquirable(old(cell).spec_state())
                    &&& *final(cell) == *old(cell)
                },
            },
    {
        let _ = barrier;
        let current = cell.state & !LOCK_MASK;
        proof {
            lemma_killed_masked(cell.state);
            lemma_killed_test(current);
            lemma_killed_test(cell.state);
        }
        if (current & KILLED) == KILLED {
            return Ok(None);
        }
        if (cell.state & LOCK_MASK) == 0 {
            proof {
                lemma_lock_set(cell.state);
            }
            cell.state = cell.state | LOCK;
            Ok(Some(Locker { private: () }))
        } else {
            Err(())
        }
    }

    /// Takes the exclusive lock, parking on the cell's wait queue while a
    /// holder is present. In a sequential execution no other holder can
    /// run concurrently, so the caller must present an acquirable or
    /// killed cell; the parking path of the concurrent design is unreachable.
    pub fn lock<K, V, const LOCK_FREE: bool>(cell: &mut Cell<K, V, LOCK_FREE>, barrier: &Barrier) -> (r:
        Option<Locker>)
        requires
            old(cell).wf(),
            is_killed(old(cell).spec_state()) || lock_acquirable(old(cell).spec_state()),
        ensures
            final(cell).wf(),
            final(cell).views() == old(cell).views(),
            final(cell).spec_num_entries() == old(cell).spec_num_entries(),
            match r {
                Some(_) => {
                    &&& !is_killed(old(cell).spec_state())
                    &&& final(cell).spec_state() == old(cell).spec_state() | LOCK
                    &&& is_locked(final(cell).spec_state())
                    &&& !is_killed(final(cell).spec_state())
                },
                None => is_killed(old(cell).spec_state()) && *final(cell) == *old(cell),
            },
    {
        match Self::try_lock(cell, barrier) {
            Ok(locker) => locker,
            Err(()) => unreached(),
        }
    }

    /// Tries to take the exclusive lock; on contention, marks the waiter
    /// flag — the concurrent design then enqueues the caller's asynchronous wait
    /// handle — and reports that the caller should suspend.
    pub fn try_lock_or_wait<K, V, const LOCK_FREE: bool>(
        cell: &mut Cell<K, V, LOCK_FREE>,
        barrier: &Barrier,
    ) -> (r: Result<Option<Locker>, ()>)
        requires
            old(cell).wf(),
        ensures
            final(cell).wf(),
            final(cell).views() == old(cell).views(),
            final(cell).spec_num_entries() == old(cell).spec_num_entries(),
            match r {
                Ok(Some(_)) => {
                    &&& !is_killed(old(cell).spec_state())
                    &&& lock_acquirable(old(cell).spec_state())
                    &&& final(cell).spec_state() == old(cell).spec_state() | LOCK
                    &&& is_locked(final(cell).spec_state())
                },
                Ok(None) => is_killed(old(cell).spec_state()) && *final(cell) == *old(cell),
                Err(()) => {
                    &&& !is_killed(old(cell).spec_state())
                    &&& !lock_acquirable(old(cell).spec_state())
                    &&& final(cell).spec_state() == old(cell).spec_state() | WAITING
                    &&& is_waiting(final(cell).spec_state())
                },
            },
    {
        match Self::try_lock(cell, barrier) {
            Ok(locker) => Ok(locker),
            Err(()) => {
                proof {
                    lemma_flag_set(cell.state, WAITING);
                }
                cell.state = cell.state | WAITING;
                Err(())
            },
        }
    }

    /// Releases the exclusive lock, clearing the lock and waiter flags in
    /// one step. The concurrent design then signals the cell's wait queue when the
    /// waiter flag had been observed.
    pub fn release<K, V, const LOCK_FREE: bool>(self, cell: &mut Cell<K, V, LOCK_FREE>)
        requires
            old(cell).wf(),
        ensures
            final(cell).wf(),
            final(cell).views() == old(cell).views(),
            final(cell).spec_num_entries() == old(cell).spec_num_entries(),
            final(cell).spec_state() == old(cell).spec_state() & !(WAITING | LOCK),
            !is_locked(final(cell).spec_state()),
            !is_waiting(final(cell).spec_state()),
            is_killed(final(cell).spec_state()) == is_killed(old(cell).spec_state()),
            shared_count(final(cell).spec_state()) == shared_count(old(cell).spec_state()),
    {
        let _ = self;
        proof {
            lemma_lock_clear(cell.state);
        }
        cell.state = cell.state & !(WAITING | LOCK);
    }
}

/// Witness that the holder incremented the shared-reader count of a cell's
/// state word.
pub struct Reader {
    private: (),
}

impl Reader {
    /// Tries to take a shared lock.
    ///
    /// Returns `Err(())` when the exclusive lock is held or the reader
    /// count is full, `Ok(None)` on a killed cell, and a reader otherwise.
    pub fn try_lock<K, V, const LOCK_FREE: bool>(
        cell: &mut Cell<K, V, LOCK_FREE>,
        barrier: &Barrier,
    ) -> (r: Result<Option<Reader>, ()>)
        requires
            old(cell).wf(),
        ensures
            final(cell).wf(),
            final(cell).views() == old(cell).views(),
            final(cell).spec_num_entries() == old(cell).spec_num_entries(),
            match r {
                Ok(Some(_)) => {
                    &&& share_acquirable(old(cell).spec_state())
                    &&& !is_killed(old(cell).spec_state())
                    &&& final(cell).spec_state() == (old(cell).spec_state() + 1) as u32
                    &&& shared_count(final(cell).spec_state()) == shared_count(
                        old(cell).spec_state(),
                    ) + 1
                    &&& !is_killed(final(cell).spec_state())
                },
                Ok(None) => {
                    &&& share_acquirable(old(cell).spec_state())
                    &&& is_killed(old(cell).spec_state())
                    &&& *final(cell) == *old(cell)
                },
                Err(()) => !share_acquirable(old(cell).spec_state()) && *final(cell) == *old(cell),
            },
    {
        let _ = barrier;
        let current = cell.state;
        if (current & LOCK_MASK) >= SLOCK_MAX {
            return Err(());
        }
        proof {
            lemma_killed_test(current);
        }
        if (current & KILLED) == KILLED {
            return Ok(None);
        }
        proof {
            lemma_share_inc(current);
        }
        cell.state = current + 1;
        Ok(Some(Reader { private: () }))
    }

    /// Takes a shared lock, parking on the cell's wait queue while the
    /// exclusive lock is held. As with [`Locker::lock`], the parking path
    /// is unreachable in a sequential execution.
    pub fn lock<K, V, const LOCK_FREE: bool>(cell: &mut Cell<K, V, LOCK_FREE>, barrier: &Barrier) -> (r:
        Option<Reader>)
        requires
            old(cell).wf(),
            share_acquirable(old(cell).spec_state()),
        ensures
            final(cell).wf(),
            final(cell).views() == old(cell).views(),
            final(cell).spec_num_entries() == old(cell).spec_num_entries(),
            match r {
                Some(_) => {
                    &&& !is_killed(old(cell).spec_state())
                    &&& final(cell).spec_state() == (old(cell).spec_state() + 1) as u32
                    &&& shared_count(final(cell).spec_state()) == shared_count(
                        old(cell).spec_state(),
                    ) + 1
                },
                None => is_killed(old(cell).spec_state()) && *final(cell) == *old(cell),
            },
    {
        match Self::try_lock(cell, barrier) {
            Ok(reader) => reader,
            Err(()) => unreached(),
        }
    }

    /// Tries to take a shared lock; on contention, marks the waiter flag —
    /// the concurrent design then enqueues the caller's asynchronous wait handle —
    /// and reports that the caller should suspend.
    pub fn try_lock_or_wait<K, V, const LOCK_FREE: bool>(
        cell: &mut Cell<K, V, LOCK_FREE>,
        barrier: &Barrier,
    ) -> (r: Result<Option<Reader>, ()>)
        requires
            old(cell).wf(),
        ensures
            final(cell).wf(),
            final(cell).views() == old(cell).views(),
            final(cell).spec_num_entries() == old(cell).spec_num_entries(),
            match r {
                Ok(Some(_)) => {
                    &&& share_acquirable(old(cell).spec_state())
                    &&& !is_killed(old(cell).spec_state())
                    &&& final(cell).spec_state() == (old(cell).spec_state() + 1) as u32
                },
                Ok(None) => is_killed(old(cell).spec_state()) && *final(cell) == *old(cell),
                Err(()) => {
                    &&& !share_acquirable(old(cell).spec_state())
                    &&& final(cell).spec_state() == old(cell).spec_state() | WAITING
                    &&& is_waiting(final(cell).spec_state())
                },
            },
    {
        match Self::try_lock(cell, barrier) {
            Ok(reader) => Ok(reader),
            Err(()) => {
                proof {
                    lemma_flag_set(cell.state, WAITING);
                }
                cell.state = cell.state | WAITING;
                Err(())
            },
        }
    }

    /// Releases the shared lock: decrements the reader count and clears
    /// the waiter flag in one step. The concurrent design then signals the cell's
    /// wait queue when the waiter flag had been observed.
    pub fn release<K, V, const LOCK_FREE: bool>(self, cell: &mut Cell<K, V, LOCK_FREE>)
        requires
            old(cell).wf(),
            shared_count(old(cell).spec_state()) >= 1,
        ensures
            final(cell).wf(),
            final(cell).views() == old(cell).views(),
            final(cell).spec_num_entries() == old(cell).spec_num_entries(),
            shared_count(final(cell).spec_state()) == shared_count(old(cell).spec_state()) - 1,
            !is_waiting(final(cell).spec_state()),
            is_killed(final(cell).spec_state()) == is_killed(old(cell).spec_state()),
            is_locked(final(cell).spec_state()) == is_locked(old(cell).spec_state()),
    {
        let _ = self;
        proof {
            lemma_share_dec(cell.state);
        }
        cell.state = (cell.state - 1) & !WAITING;
    }
}


/// True iff some readable slot of the chain stores exactly the pair
/// `(key, value)` under hash fingerprint `hash`.
pub open spec fn has_live_pair<K, V>(vs: Seq<ArrView<K, V>>, key: K, value: V, hash: u8) -> bool {
    exists|d: int, i: u32|
        0 <= d < vs.len() && i < 32 && #[trigger] bit_set(live_mask(vs[d]), i) && vs[d].hashes[i
            as int] == hash && vs[d].slots[i as int] == Some((key, value))
}

/// The live count of a chain of views is never negative.
pub proof fn lemma_views_count_nonneg<K, V>(vs: Seq<ArrView<K, V>>)
    ensures
        views_live_count(vs) >= 0,
    decreases vs.len(),
{
    if vs.len() > 0 {
        lemma_count_nonneg(live_mask(vs[0]), 32);
        lemma_views_count_nonneg(vs.drop_first());
    }
}

/// A chain whose live count is zero has no readable slot at all.
pub proof fn lemma_no_live_when_zero<K, V>(vs: Seq<ArrView<K, V>>)
    requires
        views_live_count(vs) == 0,
    ensures
        forall|d: int, i: u32| 0 <= d < vs.len() && i < 32 ==> !bit_set(live_mask(vs[d]), i),
    decreases vs.len(),
{
    if vs.len() > 0 {
        lemma_count_nonneg(live_mask(vs[0]), 32);
        lemma_views_count_nonneg(vs.drop_first());
        assert(count_bits(live_mask(vs[0]), 32) == 0);
        assert forall|i: u32| i < 32 implies !bit_set(live_mask(vs[0]), i) by {
            if bit_set(live_mask(vs[0]), i) {
                lemma_count_pos(live_mask(vs[0]), i, 32);
            }
        }
        lemma_no_live_when_zero(vs.drop_first());
        assert forall|d: int, i: u32|
            1 <= d < vs.len() && i < 32 implies !bit_set(live_mask(vs[d]), i) by {
            assert(vs[d] == vs.drop_first()[d - 1]);
        }
    }
}

/// A chain without readable slots offers no probe match in any array.
proof fn no_live_no_match<K: PartialEq, V>(vs: Seq<ArrView<K, V>>, key: K, hash: u8)
    requires
        forall|d: int, i: u32| 0 <= d < vs.len() && i < 32 ==> !bit_set(live_mask(vs[d]), i),
    ensures
        chain_match(vs, key, hash, 0) == vs.len(),
{
    assert forall|d: int| 0 <= d < vs.len() implies probe_match(#[trigger] vs[d], key, hash)
        >= 32 by {
        assert forall|j: u32|
            j < 32 && j != preferred_of(vs[d], hash) implies !slot_matches(vs[d], j, key, hash) by {
            assert(!bit_set(live_mask(vs[d]), j));
        }
        lemma_other_match_none(vs[d], key, hash, 0);
        if preferred_of(vs[d], hash) < 32 {
            assert(!bit_set(live_mask(vs[d]), preferred_of(vs[d], hash)));
        }
        assert(!slot_matches(vs[d], preferred_of(vs[d], hash), key, hash));
    }
    lemma_chain_match(vs, key, hash, 0, vs.len() as int);
}

impl<K: Eq, V, const LOCK_FREE: bool> Cell<K, V, LOCK_FREE> {
    /// Searches one slot array for a readable slot whose hash fingerprint
    /// and key both match, probing the preferred slot first.
    fn search_array<'a>(
        data_array_ref: &'a DataArray<K, V>,
        key_ref: &K,
        partial_hash: u8,
    ) -> (r: Option<(usize, &'a (K, V))>)
        requires
            view_wf(data_array_ref.arr_view(), data_array_ref.arr_view().slots.len() as int),
            !LOCK_FREE ==> data_array_ref.arr_view().rem == 0,
            K::obeys_eq_spec(),
        ensures
            ({
                let v = data_array_ref.arr_view();
                match r {
                    Some((i, e)) => {
                        &&& i < v.slots.len()
                        &&& i as u32 == probe_match(v, *key_ref, partial_hash)
                        &&& bit_set(live_mask(v), i as u32)
                        &&& v.slots[i as int] == Some(*e)
                        &&& v.hashes[i as int] == partial_hash
                        &&& e.0.eq_spec(key_ref)
                    },
                    None => probe_match(v, *key_ref, partial_hash) >= 32 && forall|i: u32|
                        i < 32 && #[trigger] bit_set(live_mask(v), i) && v.hashes[i as int]
                            == partial_hash ==> !v.slots[i as int].unwrap().0.eq_spec(key_ref),
                }
            }),
    {
        let ghost v = data_array_ref.arr_view();
        let len = data_array_ref.data.len();
        let live = if LOCK_FREE {
            data_array_ref.occupied & !data_array_ref.removed
        } else {
            data_array_ref.occupied
        };
        proof {
            if !LOCK_FREE {
                lemma_no_removed(data_array_ref.occupied);
            }
            assert(live == live_mask(v));
            lemma_live_subset(v.occ, v.rem);
        }

        // Look into the preferred slot.
        let preferred = (partial_hash as usize) % len;
        if (live & (1u32 << (preferred as u32))) != 0 && data_array_ref.partial_hash_array[preferred]
            == partial_hash {
            proof {
                lemma_subset_bit(live_mask(v), v.occ, preferred as u32);
            }
            match &data_array_ref.data[preferred] {
                Some(p) => {
                    if p.0 == *key_ref {
                        proof {
                            assert(preferred as u32 == preferred_of(v, partial_hash));
                            assert(slot_matches(v, preferred as u32, *key_ref, partial_hash));
                        }
                        return Some((preferred, p));
                    }
                },
                None => {
                    proof {
                        assert(false);
                    }
                },
            }
        }

        // Look into the other slots in ascending order.
        let mut i: usize = 0;
        while i < len
            invariant
                view_wf(v, v.slots.len() as int),
                v == data_array_ref.arr_view(),
                len == v.slots.len(),
                live == live_mask(v),
                live & !v.occ == 0,
                K::obeys_eq_spec(),
                preferred < len,
                preferred as u32 == preferred_of(v, partial_hash),
                i <= len,
                bit_set(live_mask(v), preferred as u32) && v.hashes[preferred as int]
                    == partial_hash ==> !v.slots[preferred as int].unwrap().0.eq_spec(key_ref),
                forall|j: u32|
                    j < i && j != preferred && #[trigger] bit_set(live_mask(v), j) && v.hashes[j
                        as int] == partial_hash ==> !v.slots[j as int].unwrap().0.eq_spec(key_ref),
            decreases len - i,
        {
            if i != preferred && (live & (1u32 << (i as u32))) != 0
                && data_array_ref.partial_hash_array[i] == partial_hash {
                proof {
                    lemma_subset_bit(live_mask(v), v.occ, i as u32);
                }
                match &data_array_ref.data[i] {
                    Some(p) => {
                        if p.0 == *key_ref {
                            proof {
                                assert(preferred as u32 == preferred_of(v, partial_hash));
                                assert(!slot_matches(v, preferred_of(v, partial_hash), *key_ref, partial_hash));
                                assert(slot_matches(v, i as u32, *key_ref, partial_hash));
                                assert forall|j: u32|
                                    j < i && j != preferred_of(v, partial_hash) implies !slot_matches(
                                    v,
                                    j,
                                    *key_ref,
                                    partial_hash,
                                ) by {
                                    if bit_set(live_mask(v), j) && v.hashes[j as int]
                                        == partial_hash {
                                        assert(!v.slots[j as int].unwrap().0.eq_spec(key_ref));
                                    }
                                }
                                lemma_other_match(v, *key_ref, partial_hash, 0, i as u32);
                            }
                            return Some((i, p));
                        }
                    },
                    None => {
                        proof {
                            assert(false);
                        }
                    },
                }
            }
            i = i + 1;
        }
        proof {
            assert forall|i2: u32|
                i2 < 32 && #[trigger] bit_set(live_mask(v), i2) && v.hashes[i2 as int]
                    == partial_hash implies !v.slots[i2 as int].unwrap().0.eq_spec(key_ref) by {
                lemma_subset_bit(live_mask(v), v.occ, i2);
                assert(i2 < len);
            }
            assert(preferred as u32 == preferred_of(v, partial_hash));
            assert forall|j: u32|
                j < 32 && j != preferred_of(v, partial_hash) implies !slot_matches(
                v,
                j,
                *key_ref,
                partial_hash,
            ) by {
                if bit_set(live_mask(v), j) && v.hashes[j as int] == partial_hash {
                    assert(!v.slots[j as int].unwrap().0.eq_spec(key_ref));
                }
            }
            lemma_other_match_none(v, *key_ref, partial_hash, 0);
            assert(!slot_matches(v, preferred_of(v, partial_hash), *key_ref, partial_hash));
        }
        None
    }

    /// Searches every overflow array reachable from `link`.
    fn search_chain<'a>(
        link: &'a Option<Box<DataArray<K, V>>>,
        key_ref: &K,
        partial_hash: u8,
    ) -> (r: Option<&'a (K, V)>)
        requires
            overflow_wf(*link),
            !LOCK_FREE ==> overflow_clean(*link),
            K::obeys_eq_spec(),
        ensures
            ({
                let vs = overflow_views(*link);
                let dm = chain_match(vs, *key_ref, partial_hash, 0);
                match r {
                    Some(e) => {
                        &&& 0 <= dm < vs.len()
                        &&& slot_matches(
                            vs[dm],
                            probe_match(vs[dm], *key_ref, partial_hash),
                            *key_ref,
                            partial_hash,
                        )
                        &&& vs[dm].slots[probe_match(vs[dm], *key_ref, partial_hash) as int]
                            == Some(*e)
                    },
                    None => dm == vs.len() && !has_live_match(vs, *key_ref, partial_hash),
                }
            }),
        decreases link,
    {
        match link {
            None => None,
            Some(b) => {
                let ghost vs = overflow_views(*link);
                proof {
                    assert(vs == seq![b.arr_view()] + overflow_views(b.link));
                    assert(vs[0] == b.arr_view());
                }
                match Self::search_array(&**b, key_ref, partial_hash) {
                    Some((i, e)) => {
                        proof {
                            assert(bit_set(live_mask(vs[0]), i as u32));
                            assert(probe_match(vs[0], *key_ref, partial_hash) == i as u32);
                            lemma_chain_match(vs, *key_ref, partial_hash, 0, 0);
                        }
                        Some(e)
                    },
                    None => {
                        let r = Self::search_chain(&b.link, key_ref, partial_hash);
                        proof {
                            let sub = overflow_views(b.link);
                            assert(forall|d: int| 0 <= d < sub.len() ==> #[trigger] sub[d] == vs[
                                d + 1]);
                            let dsub = chain_match(sub, *key_ref, partial_hash, 0);
                            lemma_chain_match_props(sub, *key_ref, partial_hash, 0);
                            assert forall|d2: int|
                                0 <= d2 < dsub + 1 implies probe_match(
                                #[trigger] vs[d2],
                                *key_ref,
                                partial_hash,
                            ) >= 32 by {
                                if d2 > 0 {
                                    assert(vs[d2] == sub[d2 - 1]);
                                }
                            }
                            lemma_chain_match(vs, *key_ref, partial_hash, 0, dsub + 1);
                            if r is None {
                                assert forall|d: int, i: u32|
                                    0 <= d < vs.len() && i < 32 && #[trigger] bit_set(
                                        live_mask(vs[d]),
                                        i,
                                    ) && vs[d].hashes[i as int] == partial_hash implies !vs[d].slots[i
                                    as int].unwrap().0.eq_spec(key_ref) by {
                                    if d > 0 {
                                        assert(vs[d] == sub[d - 1]);
                                        assert(!has_live_match(sub, *key_ref, partial_hash));
                                    }
                                }
                            }
                        }
                        r
                    },
                }
            },
        }
    }

    /// Searches the cell for an entry whose hash fingerprint and key both
    /// match: in the first array of the chain in which one matches, the
    /// preferred slot first, then the other matching slots in ascending
    /// order. Wait-free: takes no lock; in lock-free mode a concurrent
    /// writer of the concurrent design publishes slot contents before
    /// occupancy, so a readable slot is always initialized.
    pub fn search<'b>(&'b self, key_ref: &K, partial_hash: u8, barrier: &'b Barrier) -> (r: Option<
        &'b (K, V),
    >)
        requires
            self.wf(),
            K::obeys_eq_spec(),
        ensures
            match r {
                Some(e) => ({
                    let vs = self.views();
                    let dm = chain_match(vs, *key_ref, partial_hash, 0);
                    &&& 0 <= dm < vs.len()
                    &&& slot_matches(
                        vs[dm],
                        probe_match(vs[dm], *key_ref, partial_hash),
                        *key_ref,
                        partial_hash,
                    )
                    &&& vs[dm].slots[probe_match(vs[dm], *key_ref, partial_hash) as int] == Some(
                        *e,
                    )
                }),
                None => true,
            },
            r is None && !is_killed(self.spec_state()) ==> !has_live_match(
                self.views(),
                *key_ref,
                partial_hash,
            ) && chain_match(self.views(), *key_ref, partial_hash, 0) == self.views().len(),
            is_killed(self.spec_state()) ==> r is None,
    {
        let _ = barrier;
        let ghost vs = self.views();
        if self.num_entries == 0 {
            proof {
                if !is_killed(self.state) {
                    lemma_no_live_when_zero(vs);
                    no_live_no_match(vs, *key_ref, partial_hash);
                }
            }
            return None;
        }
        proof {
            assert(!is_killed(self.state));
            assert(vs[0] == self.data_array.arr_view());
        }
        match Self::search_array(&self.data_array, key_ref, partial_hash) {
            Some((i, e)) => {
                proof {
                    assert(bit_set(live_mask(vs[0]), i as u32));
                    assert(probe_match(vs[0], *key_ref, partial_hash) == i as u32);
                    lemma_chain_match(vs, *key_ref, partial_hash, 0, 0);
                }
                Some(e)
            },
            None => {
                let r = Self::search_chain(&self.data_array.link, key_ref, partial_hash);
                proof {
                    let sub = overflow_views(self.data_array.link);
                    assert(forall|d: int| 0 <= d < sub.len() ==> #[trigger] sub[d] == vs[d + 1]);
                    let dsub = chain_match(sub, *key_ref, partial_hash, 0);
                    lemma_chain_match_props(sub, *key_ref, partial_hash, 0);
                    assert forall|d2: int|
                        0 <= d2 < dsub + 1 implies probe_match(
                        #[trigger] vs[d2],
                        *key_ref,
                        partial_hash,
                    ) >= 32 by {
                        if d2 > 0 {
                            assert(vs[d2] == sub[d2 - 1]);
                        }
                    }
                    lemma_chain_match(vs, *key_ref, partial_hash, 0, dsub + 1);
                    if r is Some {
                        assert(vs[dsub + 1] == sub[dsub]);
                    }
                    if r is None {
                        assert forall|d: int, i: u32|
                            0 <= d < vs.len() && i < 32 && #[trigger] bit_set(live_mask(vs[d]), i)
                                && vs[d].hashes[i as int] == partial_hash implies !vs[d].slots[i
                            as int].unwrap().0.eq_spec(key_ref) by {
                            if d > 0 {
                                assert(vs[d] == sub[d - 1]);
                                assert(!has_live_match(sub, *key_ref, partial_hash));
                            }
                        }
                    }
                }
                r
            },
        }
    }
}


/// Every overflow array keeps at least one readable slot; an array whose
/// last readable slot is erased is unlinked at once.
pub closed spec fn overflow_live<K, V>(link: Option<Box<DataArray<K, V>>>) -> bool
    decreases link,
{
    match link {
        Some(b) => count_bits(live_mask(b.arr_view()), 32) >= 1 && overflow_live(b.link),
        None => true,
    }
}

/// The views of `arr` itself and of everything it links to, head first.
spec fn subchain_views<K, V>(arr: &DataArray<K, V>) -> Seq<ArrView<K, V>> {
    seq![arr.arr_view()] + overflow_views(arr.link)
}

/// Everything the chain walkers need of `arr` and its suffix: shape, a
/// clean removal bitmap outside lock-free mode, and liveness of every
/// overflow array.
spec fn suffix_ok<K, V>(arr: &DataArray<K, V>, lock_free: bool) -> bool {
    &&& view_wf(arr.arr_view(), arr.arr_view().slots.len() as int)
    &&& !lock_free ==> arr.arr_view().rem == 0
    &&& overflow_wf(arr.link)
    &&& !lock_free ==> overflow_clean(arr.link)
    &&& overflow_live(arr.link)
}

/// A chain of live overflow arrays is no longer than its live count.
pub proof fn lemma_overflow_len<K, V>(link: Option<Box<DataArray<K, V>>>)
    requires
        overflow_live(link),
    ensures
        overflow_views(link).len() <= views_live_count(overflow_views(link)),
    decreases link,
{
    match link {
        Some(b) => {
            lemma_overflow_len(b.link);
            assert(overflow_views(link).drop_first() =~= overflow_views(b.link));
            assert(overflow_views(link)[0] == b.arr_view());
        },
        None => {
        },
    }
}

/// Strict ordering of iteration positions: by array depth, then by slot.
pub open spec fn pos_lt(a: (int, int), b: (int, int)) -> bool {
    a.0 < b.0 || (a.0 == b.0 && a.1 < b.1)
}

/// A cursor over the readable slots of a cell: the current array depth
/// (0 is the main array), the current slot, and whether the end of the
/// chain has been passed.
///
/// The concurrent design carries the cell and barrier references; this cursor is
/// presented together with the cell it walks.
pub struct EntryIterator {
    current_depth: usize,
    current_index: usize,
    finished: bool,
}

impl EntryIterator {
    /// The depth of the current array: 0 is the main array.
    pub closed spec fn spec_depth(&self) -> usize {
        self.current_depth
    }

    /// The current slot; `usize::MAX` before the first step in an array.
    pub closed spec fn spec_index(&self) -> usize {
        self.current_index
    }

    /// True once the cursor has passed the end of the chain.
    pub closed spec fn is_finished(&self) -> bool {
        self.finished
    }

    /// The position for progress statements; before-first counts as slot
    /// -1 of the current array.
    pub open spec fn pos(&self) -> (int, int) {
        (
            self.spec_depth() as int,
            if self.spec_index() == usize::MAX {
                -1
            } else {
                self.spec_index() as int
            },
        )
    }

    /// The cursor either has passed the end, or stands in the chain, and —
    /// once it stepped — on a readable slot.
    pub open spec fn valid_for<K, V, const LOCK_FREE: bool>(
        &self,
        cell: &Cell<K, V, LOCK_FREE>,
    ) -> bool {
        !self.is_finished() ==> {
            &&& (self.spec_depth() as int) < cell.views().len()
            &&& (self.spec_index() != usize::MAX ==> self.spec_index() < 32 && bit_set(
                live_mask(cell.views()[self.spec_depth() as int]),
                self.spec_index() as u32,
            ))
        }
    }

    /// The cursor stands on a readable slot.
    pub open spec fn at_live<K, V, const LOCK_FREE: bool>(
        &self,
        cell: &Cell<K, V, LOCK_FREE>,
    ) -> bool {
        &&& !self.is_finished()
        &&& self.spec_index() != usize::MAX
        &&& self.valid_for(cell)
    }

    /// Creates a cursor standing before the first slot of the main array.
    pub fn new() -> (r: EntryIterator)
        ensures
            !r.is_finished(),
            r.spec_depth() == 0,
            r.spec_index() == usize::MAX,
            r.pos() == (0int, -1int),
    {
        EntryIterator { current_depth: 0, current_index: usize::MAX, finished: false }
    }

    /// Borrows the pair the cursor stands on.
    pub fn get<'b, K, V, const LOCK_FREE: bool>(&self, cell: &'b Cell<K, V, LOCK_FREE>) -> (r: &'b (
        K,
        V,
    ))
        requires
            cell.wf(),
            self.at_live(cell),
        ensures
            cell.views()[self.spec_depth() as int].slots[self.spec_index() as int] == Some(*r),
    {
        let arr = subchain_at::<K, V, LOCK_FREE>(&cell.data_array, self.current_depth);
        proof {
            let v = cell.views()[self.current_depth as int];
            lemma_live_subset(v.occ, v.rem);
            lemma_subset_bit(live_mask(v), v.occ, self.current_index as u32);
        }
        match &arr.data[self.current_index] {
            Some(p) => p,
            None => unreached(),
        }
    }
}

/// Walks `depth` links from `arr` and borrows the array there.
fn subchain_at<'a, K, V, const LOCK_FREE: bool>(arr: &'a DataArray<K, V>, depth: usize) -> (r:
    &'a DataArray<K, V>)
    requires
        suffix_ok(arr, LOCK_FREE),
        (depth as int) < subchain_views(arr).len(),
    ensures
        suffix_ok(r, LOCK_FREE),
        subchain_views(r) == subchain_views(arr).skip(depth as int),
        r.arr_view() == subchain_views(arr)[depth as int],
    decreases depth,
{
    proof {
        assert(subchain_views(arr)[0] == arr.arr_view());
    }
    if depth == 0 {
        proof {
            assert(subchain_views(arr).skip(0) =~= subchain_views(arr));
        }
        arr
    } else {
        match &arr.link {
            Some(b) => {
                proof {
                    assert(subchain_views(&**b) =~= subchain_views(arr).drop_first());
                    assert(subchain_views(&**b).skip(depth - 1) =~= subchain_views(arr).skip(
                        depth as int,
                    ));
                }
                subchain_at::<K, V, LOCK_FREE>(&**b, depth - 1)
            },
            None => {
                proof {
                    assert(subchain_views(arr).len() == 1);
                    assert(false);
                }
                unreached()
            },
        }
    }
}

/// Scans the chain from `arr` for the first readable slot at or after slot
/// `from` of `arr`, in depth-then-slot order. Returns the relative depth,
/// the slot, the pair and its hash fingerprint.
fn scan_from<'b, K, V, const LOCK_FREE: bool>(arr: &'b DataArray<K, V>, from: usize) -> (r: Option<
    (usize, usize, &'b (K, V), u8),
>)
    requires
        suffix_ok(arr, LOCK_FREE),
        subchain_views(arr).len() <= usize::MAX as int + 1,
    ensures
        ({
            let vs = subchain_views(arr);
            match r {
                Some((doff, idx, e, h)) => {
                    &&& (doff as int) < vs.len()
                    &&& idx < 32
                    &&& (doff == 0 ==> idx >= from)
                    &&& bit_set(live_mask(vs[doff as int]), idx as u32)
                    &&& vs[doff as int].slots[idx as int] == Some(*e)
                    &&& vs[doff as int].hashes[idx as int] == h
                    &&& forall|d: int, i: u32|
                        0 <= d < vs.len() && i < 32 && (d > 0 || i >= from) && pos_lt(
                            (d, i as int),
                            (doff as int, idx as int),
                        ) ==> !bit_set(live_mask(vs[d]), i)
                },
                None => forall|d: int, i: u32|
                    0 <= d < vs.len() && i < 32 && (d > 0 || i >= from) ==> !bit_set(
                        live_mask(vs[d]),
                        i,
                    ),
            }
        }),
    decreases arr,
{
    let ghost vs = subchain_views(arr);
    let ghost v = arr.arr_view();
    proof {
        assert(vs[0] == v);
    }
    let len = arr.data.len();
    let live = if LOCK_FREE {
        arr.occupied & !arr.removed
    } else {
        arr.occupied
    };
    proof {
        if !LOCK_FREE {
            lemma_no_removed(arr.occupied);
        }
        assert(live == live_mask(v));
        lemma_live_subset(v.occ, v.rem);
    }
    let mut i: usize = from;
    while i < len
        invariant
            view_wf(v, v.slots.len() as int),
            v == arr.arr_view(),
            len == v.slots.len(),
            live == live_mask(v),
            live & !v.occ == 0,
            from <= i,
            i <= len || from > len,
            forall|j: u32| from <= j < i ==> !bit_set(live_mask(v), j),
        decreases len - i,
    {
        if (live & (1u32 << (i as u32))) != 0 {
            proof {
                lemma_subset_bit(live_mask(v), v.occ, i as u32);
            }
            match &arr.data[i] {
                Some(p) => {
                    let h = arr.partial_hash_array[i];
                    return Some((0, i, p, h));
                },
                None => {
                    proof {
                        assert(false);
                    }
                },
            }
        }
        i = i + 1;
    }
    proof {
        assert forall|j: u32| j < 32 && j >= from implies !bit_set(live_mask(v), j) by {
            if bit_set(live_mask(v), j) {
                lemma_subset_bit(live_mask(v), v.occ, j);
            }
        }
    }
    match &arr.link {
        None => {
            proof {
                assert(vs.len() == 1);
            }
            None
        },
        Some(b) => {
            proof {
                assert(subchain_views(&**b) =~= vs.drop_first());
            }
            match scan_from::<K, V, LOCK_FREE>(&**b, 0) {
                Some((doff, idx, e, h)) => {
                    proof {
                        let sub = subchain_views(&**b);
                        assert((doff as int) < sub.len());
                        assert(vs[doff + 1] == sub[doff as int]);
                        assert forall|d: int, i2: u32|
                            0 <= d < vs.len() && i2 < 32 && (d > 0 || i2 >= from) && pos_lt(
                                (d, i2 as int),
                                (doff + 1, idx as int),
                            ) implies !bit_set(live_mask(vs[d]), i2) by {
                            if d == 0 {
                                assert(!bit_set(live_mask(v), i2));
                            } else {
                                assert(vs[d] == sub[d - 1]);
                                assert(pos_lt((d - 1, i2 as int), (doff as int, idx as int)));
                                assert(d - 1 > 0 || i2 >= 0);
                                assert(!bit_set(live_mask(sub[d - 1]), i2));
                            }
                        }
                    }
                    Some((doff + 1, idx, e, h))
                },
                None => {
                    proof {
                        let sub = subchain_views(&**b);
                        assert forall|d: int, i2: u32|
                            0 <= d < vs.len() && i2 < 32 && (d > 0 || i2 >= from) implies !bit_set(
                            live_mask(vs[d]),
                            i2,
                        ) by {
                            if d == 0 {
                                assert(!bit_set(live_mask(v), i2));
                            } else {
                                assert(vs[d] == sub[d - 1]);
                                assert(!bit_set(live_mask(sub[d - 1]), i2));
                            }
                        }
                    }
                    None
                },
            }
        },
    }
}


/// The chain of a well-formed cell is short: at most one array per
/// recorded entry, plus the main array.
pub proof fn lemma_views_len_bound<K, V, const LOCK_FREE: bool>(cell: &Cell<K, V, LOCK_FREE>)
    requires
        cell.wf(),
    ensures
        cell.views().len() <= u32::MAX as int + 1,
{
    let ovs = overflow_views(cell.spec_link());
    assert(cell.views().drop_first() =~= ovs);
    assert(cell.views()[0] == cell.spec_main_view());
    if is_killed(cell.spec_state()) {
        assert(ovs.len() == 0);
    } else {
        lemma_overflow_len(cell.spec_link());
        lemma_count_nonneg(live_mask(cell.views()[0]), 32);
        assert(views_live_count(cell.views()) == count_bits(live_mask(cell.views()[0]), 32)
            + views_live_count(ovs));
    }
}

impl<K, V, const LOCK_FREE: bool> Cell<K, V, LOCK_FREE> {
    /// The overflow link of the main array; exposed for the chain lemmas.
    pub closed spec fn spec_link(&self) -> Option<Box<DataArray<K, V>>> {
        self.data_array.link
    }

    /// The view of the main array alone.
    pub closed spec fn spec_main_view(&self) -> ArrView<K, V> {
        self.data_array.arr_view()
    }

    /// Creates a cursor over this cell's readable slots, standing before
    /// the first slot of the main array.
    pub fn iter(&self, barrier: &Barrier) -> (r: EntryIterator)
        requires
            self.wf(),
        ensures
            r.valid_for(self),
            !r.is_finished(),
            r.pos() == (0int, -1int),
    {
        let _ = barrier;
        EntryIterator::new()
    }
}

impl EntryIterator {
    /// Steps to the next readable slot in depth-then-slot order and
    /// borrows its pair and hash fingerprint; `None` — and a fused cursor —
    /// once none is left.
    pub fn next_entry<'b, K, V, const LOCK_FREE: bool>(
        &mut self,
        cell: &'b Cell<K, V, LOCK_FREE>,
    ) -> (r: Option<(&'b (K, V), u8)>)
        requires
            cell.wf(),
            old(self).valid_for(cell),
        ensures
            final(self).valid_for(cell),
            match r {
                Some((e, h)) => {
                    &&& final(self).at_live(cell)
                    &&& pos_lt(old(self).pos(), final(self).pos())
                    &&& cell.views()[final(self).spec_depth() as int].slots[final(self).spec_index() as int]
                        == Some(*e)
                    &&& cell.views()[final(self).spec_depth() as int].hashes[final(self).spec_index() as int]
                        == h
                    &&& !old(self).is_finished()
                    &&& forall|d: int, i: u32|
                        0 <= d < cell.views().len() && i < 32 && pos_lt(old(self).pos(), (d, i as int))
                            && pos_lt((d, i as int), final(self).pos()) ==> !bit_set(
                            live_mask(cell.views()[d]),
                            i,
                        )
                },
                None => {
                    &&& final(self).is_finished()
                    &&& !old(self).is_finished() ==> forall|d: int, i: u32|
                        0 <= d < cell.views().len() && i < 32 && pos_lt(old(self).pos(), (d, i as int))
                            ==> !bit_set(live_mask(cell.views()[d]), i)
                },
            },
    {
        if self.finished {
            return None;
        }
        let ghost vs_all = cell.views();
        let ghost d0 = self.current_depth as int;
        proof {
            lemma_views_len_bound(cell);
            assert(subchain_views(&cell.data_array) =~= vs_all);
        }
        let from = if self.current_index == usize::MAX {
            0
        } else {
            self.current_index + 1
        };
        let arr = subchain_at::<K, V, LOCK_FREE>(&cell.data_array, self.current_depth);
        let ghost vs_sub = subchain_views(arr);
        match scan_from::<K, V, LOCK_FREE>(arr, from) {
            Some((doff, idx, e, h)) => {
                proof {
                    assert((doff as int) < vs_sub.len());
                    assert(vs_sub.len() == vs_all.len() - d0);
                }
                self.current_depth = self.current_depth + doff;
                self.current_index = idx;
                proof {
                    assert(vs_all[d0 + doff] == vs_sub[doff as int]);
                    assert forall|d: int, i: u32|
                        0 <= d < vs_all.len() && i < 32 && pos_lt(old(self).pos(), (d, i as int))
                            && pos_lt((d, i as int), (d0 + doff, idx as int)) implies !bit_set(
                        live_mask(vs_all[d]),
                        i,
                    ) by {
                        assert(d >= d0);
                        assert(vs_all[d] == vs_sub[d - d0]);
                        assert(d - d0 > 0 || i >= from);
                        assert(pos_lt((d - d0, i as int), (doff as int, idx as int)));
                    }
                }
                Some((e, h))
            },
            None => {
                self.finished = true;
                proof {
                    assert forall|d: int, i: u32|
                        0 <= d < vs_all.len() && i < 32 && pos_lt(old(self).pos(), (d, i as int))
                            implies !bit_set(live_mask(vs_all[d]), i) by {
                        assert(d >= d0);
                        assert(vs_all[d] == vs_sub[d - d0]);
                        assert(d - d0 > 0 || i >= from);
                    }
                }
                None
            },
        }
    }
}

impl<K: Eq, V, const LOCK_FREE: bool> Cell<K, V, LOCK_FREE> {
    /// Searches the overflow chain and returns the relative depth and slot
    /// of the first array whose search hits.
    fn get_chain(link: &Option<Box<DataArray<K, V>>>, key_ref: &K, partial_hash: u8) -> (r: Option<
        (usize, usize),
    >)
        requires
            overflow_wf(*link),
            !LOCK_FREE ==> overflow_clean(*link),
            K::obeys_eq_spec(),
            overflow_views(*link).len() <= usize::MAX as int,
        ensures
            ({
                let vs = overflow_views(*link);
                let dm = chain_match(vs, *key_ref, partial_hash, 0);
                match r {
                    Some((d, i)) => {
                        &&& d as int == dm
                        &&& dm < vs.len()
                        &&& i < 32
                        &&& i as u32 == probe_match(vs[dm], *key_ref, partial_hash)
                        &&& slot_matches(vs[dm], i as u32, *key_ref, partial_hash)
                    },
                    None => dm == vs.len() && !has_live_match(vs, *key_ref, partial_hash),
                }
            }),
        decreases link,
    {
        match link {
            None => None,
            Some(b) => {
                let ghost vs = overflow_views(*link);
                proof {
                    assert(vs[0] == b.arr_view());
                    assert(overflow_views(b.link) =~= vs.drop_first());
                }
                match Self::search_array(&**b, key_ref, partial_hash) {
                    Some((i, _e)) => {
                        proof {
                            assert(probe_match(vs[0], *key_ref, partial_hash) == i as u32);
                            lemma_chain_match(vs, *key_ref, partial_hash, 0, 0);
                        }
                        Some((0, i))
                    },
                    None => {
                        let ghost sub = overflow_views(b.link);
                        proof {
                            let dsub = chain_match(sub, *key_ref, partial_hash, 0);
                            lemma_chain_match_props(sub, *key_ref, partial_hash, 0);
                            assert forall|d2: int|
                                0 <= d2 < dsub + 1 implies probe_match(
                                #[trigger] vs[d2],
                                *key_ref,
                                partial_hash,
                            ) >= 32 by {
                                if d2 > 0 {
                                    assert(vs[d2] == sub[d2 - 1]);
                                }
                            }
                            lemma_chain_match(vs, *key_ref, partial_hash, 0, dsub + 1);
                        }
                        match Self::get_chain(&b.link, key_ref, partial_hash) {
                            Some((d, i)) => {
                                proof {
                                    assert(vs[d + 1] == sub[d as int]);
                                }
                                Some((d + 1, i))
                            },
                            None => {
                                proof {
                                    assert forall|d: int, i: u32|
                                        0 <= d < vs.len() && i < 32 && #[trigger] bit_set(
                                            live_mask(vs[d]),
                                            i,
                                        ) && vs[d].hashes[i as int] == partial_hash implies !vs[d].slots[i
                                        as int].unwrap().0.eq_spec(key_ref) by {
                                        if d > 0 {
                                            assert(vs[d] == sub[d - 1]);
                                            assert(!has_live_match(sub, *key_ref, partial_hash));
                                        }
                                    }
                                }
                                None
                            },
                        }
                    },
                }
            },
        }
    }

    /// Searches the cell — the same probe order as [`Cell::search`] — and
    /// returns a cursor standing on the matching entry, the entry point
    /// for erasing it later.
    pub fn get(&self, key_ref: &K, partial_hash: u8, barrier: &Barrier) -> (r: Option<
        EntryIterator,
    >)
        requires
            self.wf(),
            K::obeys_eq_spec(),
        ensures
            match r {
                Some(it) => ({
                    let vs = self.views();
                    let dm = chain_match(vs, *key_ref, partial_hash, 0);
                    &&& it.at_live(self)
                    &&& it.spec_depth() as int == dm
                    &&& it.spec_index() as u32 == probe_match(vs[dm], *key_ref, partial_hash)
                    &&& slot_matches(vs[dm], it.spec_index() as u32, *key_ref, partial_hash)
                }),
                None => is_killed(self.spec_state()) || (!has_live_match(
                    self.views(),
                    *key_ref,
                    partial_hash,
                ) && chain_match(self.views(), *key_ref, partial_hash, 0) == self.views().len()),
            },
            is_killed(self.spec_state()) ==> r is None,
    {
        let _ = barrier;
        let ghost vs = self.views();
        if self.num_entries == 0 {
            proof {
                if !is_killed(self.state) {
                    lemma_no_live_when_zero(vs);
                    no_live_no_match(vs, *key_ref, partial_hash);
                }
            }
            return None;
        }
        proof {
            assert(!is_killed(self.state));
            assert(vs[0] == self.data_array.arr_view());
            lemma_views_len_bound(self);
        }
        match Self::search_array(&self.data_array, key_ref, partial_hash) {
            Some((i, _e)) => {
                proof {
                    assert(probe_match(vs[0], *key_ref, partial_hash) == i as u32);
                    lemma_chain_match(vs, *key_ref, partial_hash, 0, 0);
                }
                Some(EntryIterator { current_depth: 0, current_index: i, finished: false })
            },
            None => {
                let ghost sub = overflow_views(self.data_array.link);
                proof {
                    assert(sub =~= vs.drop_first());
                    let dsub = chain_match(sub, *key_ref, partial_hash, 0);
                    lemma_chain_match_props(sub, *key_ref, partial_hash, 0);
                    assert forall|d2: int|
                        0 <= d2 < dsub + 1 implies probe_match(
                        #[trigger] vs[d2],
                        *key_ref,
                        partial_hash,
                    ) >= 32 by {
                        if d2 > 0 {
                            assert(vs[d2] == sub[d2 - 1]);
                        }
                    }
                    lemma_chain_match(vs, *key_ref, partial_hash, 0, dsub + 1);
                }
                match Self::get_chain(&self.data_array.link, key_ref, partial_hash) {
                    Some((d, i)) => {
                        proof {
                            assert(vs[d + 1] == sub[d as int]);
                        }
                        Some(EntryIterator { current_depth: d + 1, current_index: i, finished: false })
                    },
                    None => {
                        proof {
                            assert forall|d: int, i: u32|
                                0 <= d < vs.len() && i < 32 && #[trigger] bit_set(
                                    live_mask(vs[d]),
                                    i,
                                ) && vs[d].hashes[i as int] == partial_hash implies !vs[d].slots[i
                                as int].unwrap().0.eq_spec(key_ref) by {
                                if d > 0 {
                                    assert(vs[d] == sub[d - 1]);
                                    assert(!has_live_match(sub, *key_ref, partial_hash));
                                }
                            }
                        }
                        None
                    },
                }
            },
        }
    }
}


/// Every array of a well-formed overflow chain has a well-formed view of
/// [`LINKED_LEN`] slots.
pub proof fn lemma_overflow_wf_at<K, V>(link: Option<Box<DataArray<K, V>>>, d: int)
    requires
        overflow_wf(link),
        0 <= d < overflow_views(link).len(),
    ensures
        view_wf(overflow_views(link)[d], LINKED_LEN as int),
    decreases link,
{
    match link {
        Some(b) => {
            assert(overflow_views(link)[0] == b.arr_view());
            if d > 0 {
                assert(overflow_views(link).drop_first() =~= overflow_views(b.link));
                lemma_overflow_wf_at(b.link, d - 1);
            }
        },
        None => {
        },
    }
}

/// The view of `v` after slot `i` is filled with `(key, value)` under
/// fingerprint `hash`.
pub open spec fn filled<K, V>(v: ArrView<K, V>, i: u32, key: K, value: V, hash: u8) -> ArrView<
    K,
    V,
> {
    ArrView {
        occ: v.occ | (1u32 << i),
        rem: v.rem,
        hashes: v.hashes.update(i as int, hash),
        slots: v.slots.update(i as int, Some((key, value))),
    }
}

/// The all-empty view of a fresh overflow array.
pub open spec fn empty_view<K, V>(len: int) -> ArrView<K, V> {
    ArrView {
        occ: 0,
        rem: 0,
        hashes: Seq::new(len as nat, |j: int| 0u8),
        slots: Seq::new(len as nat, |j: int| None),
    }
}

/// True iff every slot of the array is occupied.
pub open spec fn array_full<K, V>(v: ArrView<K, V>) -> bool {
    forall|j: u32| (j as int) < v.slots.len() ==> bit_set(v.occ, j)
}

/// The lowest clear bit of `occ` at or above `j`; 32 when every bit of
/// `[j, 32)` is set.
pub open spec fn first_clear(occ: u32, j: u32) -> u32
    decreases 32 - j,
{
    if j >= 32 {
        32
    } else if !bit_set(occ, j) {
        j
    } else {
        first_clear(occ, (j + 1) as u32)
    }
}

/// The slot an insertion probes in one array: the preferred slot — the
/// hash fingerprint reduced by the array size — when it is free, else the
/// lowest free slot.
pub open spec fn probe_slot<K, V>(v: ArrView<K, V>, hash: u8) -> u32 {
    let preferred = (hash as int % (v.slots.len() as int)) as u32;
    if !bit_set(v.occ, preferred) {
        preferred
    } else {
        first_clear(v.occ, 0)
    }
}

/// The depth of the first array at or after `d` with a free slot;
/// `vs.len()` when every array from `d` on is full.
pub open spec fn first_space<K, V>(vs: Seq<ArrView<K, V>>, d: int) -> int
    decreases vs.len() - d,
{
    if d < 0 || d >= vs.len() {
        vs.len() as int
    } else if !array_full(vs[d]) {
        d
    } else {
        first_space(vs, d + 1)
    }
}

/// Where the lowest clear bit search lands: at or after its start, on a
/// clear bit when one exists, with everything below it set.
proof fn lemma_first_clear_props(occ: u32, k: u32)
    requires
        k <= 32,
    ensures
        k <= first_clear(occ, k) <= 32,
        first_clear(occ, k) < 32 ==> !bit_set(occ, first_clear(occ, k)),
        forall|j: u32| k <= j < first_clear(occ, k) ==> bit_set(occ, j),
    decreases 32 - k,
{
    if k < 32 && bit_set(occ, k) {
        lemma_first_clear_props(occ, (k + 1) as u32);
    }
}

/// The probe slot of an array with room is a free slot of the array.
proof fn lemma_probe_slot<K, V>(v: ArrView<K, V>, hash: u8)
    requires
        view_wf(v, v.slots.len() as int),
        !array_full(v),
    ensures
        (probe_slot(v, hash) as int) < v.slots.len(),
        probe_slot(v, hash) < 32,
        !bit_set(v.occ, probe_slot(v, hash)),
{
    let preferred = (hash as int % (v.slots.len() as int)) as u32;
    if bit_set(v.occ, preferred) {
        let fc = first_clear(v.occ, 0);
        lemma_first_clear_props(v.occ, 0);
        if fc >= v.slots.len() {
            assert forall|j: u32| (j as int) < v.slots.len() implies bit_set(v.occ, j) by {
                assert(j < fc);
            }
            assert(array_full(v));
        }
    }
}

/// A clear bit below which everything is set is the lowest clear bit.
proof fn lemma_first_clear(occ: u32, k: u32, i: u32)
    requires
        k <= i < 32,
        forall|j: u32| k <= j < i ==> bit_set(occ, j),
        !bit_set(occ, i),
    ensures
        first_clear(occ, k) == i,
    decreases i - k,
{
    if k < i {
        lemma_first_clear(occ, (k + 1) as u32, i);
    }
}

/// An array with a free slot behind full arrays is the first with space.
proof fn lemma_first_space<K, V>(vs: Seq<ArrView<K, V>>, k: int, d: int)
    requires
        0 <= k <= d < vs.len(),
        forall|d2: int| k <= d2 < d ==> array_full(#[trigger] vs[d2]),
        !array_full(vs[d]),
    ensures
        first_space(vs, k) == d,
    decreases d - k,
{
    if k < d {
        lemma_first_space(vs, k + 1, d);
    }
}

/// Every array before the first with space is full.
proof fn lemma_first_space_props<K, V>(vs: Seq<ArrView<K, V>>, k: int, d: int)
    requires
        0 <= k <= d < first_space(vs, k),
    ensures
        array_full(vs[d]),
    decreases d - k,
{
    if k < d {
        lemma_first_space_props(vs, k + 1, d);
    }
}

/// The first array with space, when one exists, indeed has space.
proof fn lemma_first_space_at<K, V>(vs: Seq<ArrView<K, V>>, k: int)
    requires
        0 <= k <= vs.len(),
        first_space(vs, k) < vs.len(),
    ensures
        k <= first_space(vs, k),
        !array_full(vs[first_space(vs, k)]),
    decreases vs.len() - k,
{
    if k < vs.len() && array_full(vs[k]) {
        lemma_first_space_at(vs, k + 1);
    }
}

/// When every array from `k` on is full, there is no space at all.
proof fn lemma_first_space_full<K, V>(vs: Seq<ArrView<K, V>>, k: int)
    requires
        0 <= k <= vs.len(),
        forall|d2: int| k <= d2 < vs.len() ==> array_full(#[trigger] vs[d2]),
    ensures
        first_space(vs, k) == vs.len(),
    decreases vs.len() - k,
{
    if k < vs.len() {
        lemma_first_space_full(vs, k + 1);
    }
}

/// How an insertion changes the chain, following the probe order: the
/// first array with a free slot — the main array, then each overflow
/// array, nearest first — receives the pair in its probe slot; when every
/// array is full, a fresh overflow array holding only the new pair, in its
/// preferred slot, is linked in right behind the main array.
pub open spec fn insert_effect<K, V>(
    vs0: Seq<ArrView<K, V>>,
    vs1: Seq<ArrView<K, V>>,
    key: K,
    value: V,
    hash: u8,
) -> bool {
    let d = first_space(vs0, 0);
    if d < vs0.len() {
        vs1 == vs0.update(d, filled(vs0[d], probe_slot(vs0[d], hash), key, value, hash))
    } else {
        vs1 == vs0.insert(
            1,
            filled(
                empty_view(LINKED_LEN as int),
                (hash as int % (LINKED_LEN as int)) as u32,
                key,
                value,
                hash,
            ),
        )
    }
}

/// Replacing one view changes the chain's live count by the difference at
/// that position.
pub proof fn lemma_views_count_update<K, V>(vs: Seq<ArrView<K, V>>, d: int, v2: ArrView<K, V>)
    requires
        0 <= d < vs.len(),
    ensures
        views_live_count(vs.update(d, v2)) == views_live_count(vs) - count_bits(
            live_mask(vs[d]),
            32,
        ) + count_bits(live_mask(v2), 32),
    decreases vs.len(),
{
    if d == 0 {
        assert(vs.update(0, v2).drop_first() =~= vs.drop_first());
    } else {
        assert(vs.update(d, v2).drop_first() =~= vs.drop_first().update(d - 1, v2));
        assert(vs.update(d, v2)[0] == vs[0]);
        lemma_views_count_update(vs.drop_first(), d - 1, v2);
    }
}

/// Inserting one view adds its live count to the chain's.
pub proof fn lemma_views_count_insert<K, V>(vs: Seq<ArrView<K, V>>, d: int, v2: ArrView<K, V>)
    requires
        0 <= d <= vs.len(),
    ensures
        views_live_count(vs.insert(d, v2)) == views_live_count(vs) + count_bits(
            live_mask(v2),
            32,
        ),
    decreases d,
{
    if d == 0 {
        assert(vs.insert(0, v2)[0] == v2);
        assert(vs.insert(0, v2).drop_first() =~= vs);
    } else {
        assert(vs.insert(d, v2)[0] == vs[0]);
        assert(vs.insert(d, v2).drop_first() =~= vs.drop_first().insert(d - 1, v2));
        lemma_views_count_insert(vs.drop_first(), d - 1, v2);
    }
}

/// Removing one view subtracts its live count from the chain's.
pub proof fn lemma_views_count_remove<K, V>(vs: Seq<ArrView<K, V>>, d: int)
    requires
        0 <= d < vs.len(),
    ensures
        views_live_count(vs.remove(d)) == views_live_count(vs) - count_bits(live_mask(vs[d]), 32),
    decreases d,
{
    if d == 0 {
        assert(vs.remove(0) =~= vs.drop_first());
    } else {
        assert(vs.remove(d)[0] == vs[0]);
        assert(vs.remove(d).drop_first() =~= vs.drop_first().remove(d - 1));
        lemma_views_count_remove(vs.drop_first(), d - 1);
    }
}

/// The chain's live count is at least any one member's.
pub proof fn lemma_views_count_lower<K, V>(vs: Seq<ArrView<K, V>>, d: int)
    requires
        0 <= d < vs.len(),
    ensures
        views_live_count(vs) >= count_bits(live_mask(vs[d]), 32),
    decreases d,
{
    lemma_views_count_nonneg(vs.drop_first());
    lemma_count_nonneg(live_mask(vs[0]), 32);
    if d > 0 {
        lemma_views_count_lower(vs.drop_first(), d - 1);
    }
}

/// Liveness of every overflow array, stated over the link structure and
/// over the view chain, agree.
pub proof fn lemma_overflow_live_iff<K, V>(link: Option<Box<DataArray<K, V>>>)
    ensures
        overflow_live(link) <==> (forall|d: int|
            0 <= d < overflow_views(link).len() ==> count_bits(
                live_mask(#[trigger] overflow_views(link)[d]),
                32,
            ) >= 1),
    decreases link,
{
    match link {
        Some(b) => {
            lemma_overflow_live_iff(b.link);
            assert(overflow_views(link).drop_first() =~= overflow_views(b.link));
            assert(overflow_views(link)[0] == b.arr_view());
            if overflow_live(link) {
                assert forall|d: int|
                    0 <= d < overflow_views(link).len() implies count_bits(
                    live_mask(#[trigger] overflow_views(link)[d]),
                    32,
                ) >= 1 by {
                    if d > 0 {
                        assert(overflow_views(link)[d] == overflow_views(b.link)[d - 1]);
                    }
                }
            }
            if forall|d: int|
                0 <= d < overflow_views(link).len() ==> count_bits(
                    live_mask(#[trigger] overflow_views(link)[d]),
                    32,
                ) >= 1 {
                assert forall|d: int|
                    0 <= d < overflow_views(b.link).len() implies count_bits(
                    live_mask(#[trigger] overflow_views(b.link)[d]),
                    32,
                ) >= 1 by {
                    assert(overflow_views(b.link)[d] == overflow_views(link)[d + 1]);
                }
            }
        },
        None => {
        },
    }
}


/// The view of `v` after the slot `i` is erased: in lock-free mode only
/// the removal mark is set, otherwise the slot is vacated.
pub open spec fn erased_view<K, V>(v: ArrView<K, V>, i: u32, lock_free: bool) -> ArrView<K, V> {
    if lock_free {
        ArrView { rem: v.rem | (1u32 << i), ..v }
    } else {
        ArrView { occ: v.occ & !(1u32 << i), slots: v.slots.update(i as int, None), ..v }
    }
}

impl<K, V, const LOCK_FREE: bool> Cell<K, V, LOCK_FREE> {
    /// Writes `(key, value)` and its fingerprint into free slot `index`
    /// and then publishes the occupancy bit; the concurrent design emits
    /// a release fence between the two steps in lock-free mode.
    fn insert_slot(
        arr: &mut DataArray<K, V>,
        index: usize,
        key: K,
        value: V,
        partial_hash: u8,
    )
        requires
            view_wf(old(arr).arr_view(), old(arr).arr_view().slots.len() as int),
            index < old(arr).arr_view().slots.len(),
            !bit_set(old(arr).arr_view().occ, index as u32),
        ensures
            final(arr).arr_view() == filled(
                old(arr).arr_view(),
                index as u32,
                key,
                value,
                partial_hash,
            ),
            final(arr).link == old(arr).link,
            view_wf(final(arr).arr_view(), final(arr).arr_view().slots.len() as int),
            final(arr).arr_view().rem == old(arr).arr_view().rem,
            live_mask(final(arr).arr_view()) == live_mask(old(arr).arr_view()) | (1u32 << (index
                as u32)),
            count_bits(live_mask(final(arr).arr_view()), 32) == count_bits(
                live_mask(old(arr).arr_view()),
                32,
            ) + 1,
    {
        let ghost v0 = arr.arr_view();
        let slot = &mut arr.data[index];
        *slot = Some((key, value));
        let hp = &mut arr.partial_hash_array[index];
        *hp = partial_hash;
        arr.occupied = arr.occupied | (1u32 << (index as u32));
        proof {
            let v1 = arr.arr_view();
            lemma_or_bit();
            lemma_live_grow(v0.occ, v0.rem, index as u32);
            lemma_subset_grow(v0.occ, v0.rem, index as u32);
            lemma_count_set_bit(live_mask(v0), index as u32, 32);
            assert(v1 =~= filled(v0, index as u32, key, value, partial_hash));
            assert forall|i2: u32|
                i2 < 32 implies (bit_set(v1.occ, i2) == (i2 < v1.slots.len() && v1.slots[i2
                as int] is Some)) by {
                if i2 != index as u32 {
                    assert(bit_set(v1.occ, i2) == bit_set(v0.occ, i2));
                }
            }
        }
    }

    /// Tries to insert into one array: the preferred slot first, then the
    /// lowest free slot. Hands the pair back when the array is full.
    fn try_insert_array(
        arr: &mut DataArray<K, V>,
        key: K,
        value: V,
        partial_hash: u8,
    ) -> (r: Result<(), (K, V)>)
        requires
            view_wf(old(arr).arr_view(), old(arr).arr_view().slots.len() as int),
        ensures
            match r {
                Ok(()) => {
                    &&& !array_full(old(arr).arr_view())
                    &&& final(arr).arr_view() == filled(
                        old(arr).arr_view(),
                        probe_slot(old(arr).arr_view(), partial_hash),
                        key,
                        value,
                        partial_hash,
                    )
                    &&& final(arr).link == old(arr).link
                    &&& view_wf(final(arr).arr_view(), final(arr).arr_view().slots.len() as int)
                    &&& final(arr).arr_view().rem == old(arr).arr_view().rem
                    &&& count_bits(live_mask(final(arr).arr_view()), 32) == count_bits(
                        live_mask(old(arr).arr_view()),
                        32,
                    ) + 1
                },
                Err(kv) => kv == (key, value) && *final(arr) == *old(arr) && array_full(
                    old(arr).arr_view(),
                ),
            },
    {
        let ghost v0 = arr.arr_view();
        let len = arr.data.len();
        let preferred = (partial_hash as usize) % len;
        if (arr.occupied & (1u32 << (preferred as u32))) == 0 {
            proof {
                assert(preferred as int == partial_hash as int % (v0.slots.len() as int));
                assert(!bit_set(v0.occ, preferred as u32));
                assert(probe_slot(v0, partial_hash) == preferred as u32);
                assert(!array_full(v0));
            }
            Self::insert_slot(arr, preferred, key, value, partial_hash);
            return Ok(());
        }
        let mut i: usize = 0;
        while i < len
            invariant
                view_wf(v0, v0.slots.len() as int),
                *arr == *old(arr),
                v0 == arr.arr_view(),
                len == v0.slots.len(),
                i <= len,
                bit_set(v0.occ, ((partial_hash as int) % (len as int)) as u32),
                forall|j: u32| j < i ==> bit_set(v0.occ, j),
            decreases len - i,
        {
            if (arr.occupied & (1u32 << (i as u32))) == 0 {
                proof {
                    assert(!bit_set(v0.occ, i as u32));
                    assert((i as int) < v0.slots.len());
                    lemma_first_clear(v0.occ, 0, i as u32);
                    assert(probe_slot(v0, partial_hash) == i as u32);
                    assert(!array_full(v0));
                }
                Self::insert_slot(arr, i, key, value, partial_hash);
                return Ok(());
            }
            i = i + 1;
        }
        proof {
            assert forall|j: u32| (j as int) < v0.slots.len() implies bit_set(v0.occ, j) by {
                assert(j < len);
            }
        }
        Err((key, value))
    }

    /// Tries to insert into some overflow array of the chain, nearest
    /// first. Hands the pair back when every array is full.
    fn insert_chain(
        link: &mut Option<Box<DataArray<K, V>>>,
        key: K,
        value: V,
        partial_hash: u8,
    ) -> (r: Result<(), (K, V)>)
        requires
            overflow_wf(*old(link)),
        ensures
            match r {
                Ok(()) => {
                    &&& first_space(overflow_views(*old(link)), 0) < overflow_views(
                        *old(link),
                    ).len()
                    &&& overflow_views(*final(link)) == overflow_views(*old(link)).update(
                        first_space(overflow_views(*old(link)), 0),
                        filled(
                            overflow_views(*old(link))[first_space(overflow_views(*old(link)), 0)],
                            probe_slot(
                                overflow_views(*old(link))[first_space(
                                    overflow_views(*old(link)),
                                    0,
                                )],
                                partial_hash,
                            ),
                            key,
                            value,
                            partial_hash,
                        ),
                    )
                },
                Err(kv) => {
                    &&& kv == (key, value)
                    &&& *final(link) == *old(link)
                    &&& forall|d2: int|
                        0 <= d2 < overflow_views(*old(link)).len() ==> array_full(
                            #[trigger] overflow_views(*old(link))[d2],
                        )
                },
            },
            overflow_wf(*final(link)),
            overflow_clean(*old(link)) ==> overflow_clean(*final(link)),
            overflow_live(*old(link)) ==> overflow_live(*final(link)),
        decreases *old(link),
    {
        match link {
            None => Err((key, value)),
            Some(b) => {
                let ghost vs0 = overflow_views(*old(link));
                proof {
                    assert(vs0[0] == b.arr_view());
                    assert(overflow_views(b.link) =~= vs0.drop_first());
                }
                match Self::try_insert_array(&mut **b, key, value, partial_hash) {
                    Ok(()) => {
                        proof {
                            assert(first_space(vs0, 0) == 0);
                            let i = probe_slot(vs0[0], partial_hash);
                            assert(overflow_views(*link) =~= vs0.update(
                                0,
                                filled(vs0[0], i, key, value, partial_hash),
                            ));
                            lemma_count_nonneg(live_mask(vs0[0]), 32);
                            assert(view_wf(vs0[0], LINKED_LEN as int));
                            lemma_probe_slot(vs0[0], partial_hash);
                            assert(b.arr_view() == filled(vs0[0], i, key, value, partial_hash));
                            assert(filled(vs0[0], i, key, value, partial_hash).slots
                                == vs0[0].slots.update(i as int, Some((key, value))));
                            assert(vs0[0].slots.update(i as int, Some((key, value))).len()
                                == vs0[0].slots.len());
                            assert(b.arr_view().slots.len() == LINKED_LEN as int);
                            assert(view_wf(b.arr_view(), LINKED_LEN as int));
                            assert(overflow_wf(*link));
                        }
                        Ok(())
                    },
                    Err(kv) => {
                        let (key2, value2) = kv;
                        let r = Self::insert_chain(&mut b.link, key2, value2, partial_hash);
                        proof {
                            assert(key2 == key && value2 == value);
                            let sub0 = vs0.drop_first();
                            assert(array_full(vs0[0]));
                            assert(first_space(vs0, 0) == first_space(vs0, 1));
                            if r is Ok {
                                let ds = first_space(sub0, 0);
                                assert(ds < sub0.len());
                                lemma_first_space_at(sub0, 0);
                                assert forall|d2: int| 1 <= d2 < ds + 1 implies array_full(
                                    #[trigger] vs0[d2],
                                ) by {
                                    lemma_first_space_props(sub0, 0, d2 - 1);
                                    assert(vs0[d2] == sub0[d2 - 1]);
                                }
                                assert(!array_full(sub0[ds]));
                                assert(vs0[ds + 1] == sub0[ds]);
                                lemma_first_space(vs0, 1, ds + 1);
                                assert(first_space(vs0, 0) == ds + 1);
                                assert(overflow_views(*link) =~= vs0.update(
                                    ds + 1,
                                    filled(
                                        vs0[ds + 1],
                                        probe_slot(vs0[ds + 1], partial_hash),
                                        key,
                                        value,
                                        partial_hash,
                                    ),
                                ));
                            } else {
                                assert forall|d2: int| 0 <= d2 < vs0.len() implies array_full(
                                    #[trigger] vs0[d2],
                                ) by {
                                    if d2 > 0 {
                                        assert(vs0[d2] == sub0[d2 - 1]);
                                    }
                                }
                            }
                            assert(view_wf(b.arr_view(), LINKED_LEN as int));
                            assert(overflow_wf(*link));
                        }
                        r
                    },
                }
            },
        }
    }
}

impl Locker {
    /// Records a new entry count; the cell funnels every update of
    /// `num_entries` through this point.
    fn num_entries_updated<K, V, const LOCK_FREE: bool>(
        &self,
        cell: &mut Cell<K, V, LOCK_FREE>,
        num: u32,
    )
        ensures
            final(cell).spec_state() == old(cell).spec_state(),
            final(cell).spec_num_entries() == num,
            final(cell).views() == old(cell).views(),
            final(cell).spec_link() == old(cell).spec_link(),
            final(cell).shape_ok() == old(cell).shape_ok(),
            final(cell).spec_main_view() == old(cell).spec_main_view(),
    {
        cell.num_entries = num;
    }

    /// Inserts a new key-value pair without a uniqueness check: into the
    /// main array's preferred or lowest free slot, else into an overflow
    /// array, else into a fresh overflow array linked in right behind the
    /// main array.
    pub fn insert<K, V, const LOCK_FREE: bool>(
        &self,
        cell: &mut Cell<K, V, LOCK_FREE>,
        key: K,
        value: V,
        partial_hash: u8,
        barrier: &Barrier,
    )
        requires
            old(cell).wf(),
            is_locked(old(cell).spec_state()),
            !is_killed(old(cell).spec_state()),
            old(cell).spec_num_entries() < u32::MAX,
        ensures
            final(cell).wf(),
            final(cell).spec_state() == old(cell).spec_state(),
            final(cell).spec_num_entries() == old(cell).spec_num_entries() + 1,
            insert_effect(old(cell).views(), final(cell).views(), key, value, partial_hash),
            has_live_pair(final(cell).views(), key, value, partial_hash),
    {
        let _ = barrier;
        let ghost vs0 = cell.views();
        proof {
            assert(vs0[0] == cell.data_array.arr_view());
            assert(overflow_views(cell.data_array.link) =~= vs0.drop_first());
        }
        match Cell::<K, V, LOCK_FREE>::try_insert_array(
            &mut cell.data_array,
            key,
            value,
            partial_hash,
        ) {
            Ok(()) => {
                proof {
                    assert(first_space(vs0, 0) == 0);
                    let i = probe_slot(vs0[0], partial_hash);
                    lemma_probe_slot(vs0[0], partial_hash);
                    assert(cell.views() =~= vs0.update(
                        0,
                        filled(vs0[0], i, key, value, partial_hash),
                    ));
                    lemma_views_count_update(
                        vs0,
                        0,
                        filled(vs0[0], i, key, value, partial_hash),
                    );
                    lemma_or_bit();
                    lemma_live_grow(vs0[0].occ, vs0[0].rem, i);
                    assert(bit_set(live_mask(cell.views()[0]), i));
                    assert(cell.views()[0].slots[i as int] == Some((key, value)));
                    assert(cell.views()[0].hashes[i as int] == partial_hash);
                }
                let n = cell.num_entries;
                self.num_entries_updated(cell, n + 1);
            },
            Err(kv) => {
                let (key2, value2) = kv;
                match Cell::<K, V, LOCK_FREE>::insert_chain(
                    &mut cell.data_array.link,
                    key2,
                    value2,
                    partial_hash,
                ) {
                    Ok(()) => {
                        proof {
                            assert(key2 == key && value2 == value);
                            let sub0 = vs0.drop_first();
                            let ds = first_space(sub0, 0);
                            assert(ds < sub0.len());
                            lemma_first_space_at(sub0, 0);
                            assert(array_full(vs0[0]));
                            assert forall|d2: int| 1 <= d2 < ds + 1 implies array_full(
                                #[trigger] vs0[d2],
                            ) by {
                                lemma_first_space_props(sub0, 0, d2 - 1);
                                assert(vs0[d2] == sub0[d2 - 1]);
                            }
                            assert(vs0[ds + 1] == sub0[ds]);
                            lemma_first_space(vs0, 1, ds + 1);
                            assert(first_space(vs0, 0) == ds + 1);
                            let i = probe_slot(vs0[ds + 1], partial_hash);
                            lemma_overflow_wf_at(old(cell).spec_link(), ds);
                            lemma_probe_slot(vs0[ds + 1], partial_hash);
                            assert(cell.views() =~= vs0.update(
                                ds + 1,
                                filled(vs0[ds + 1], i, key, value, partial_hash),
                            ));
                            lemma_views_count_update(
                                vs0,
                                ds + 1,
                                filled(vs0[ds + 1], i, key, value, partial_hash),
                            );
                            lemma_or_bit();
                            lemma_live_grow(vs0[ds + 1].occ, vs0[ds + 1].rem, i);
                            lemma_count_set_bit(live_mask(vs0[ds + 1]), i, 32);
                            assert(bit_set(live_mask(cell.views()[ds + 1]), i));
                            assert(cell.views()[ds + 1].slots[i as int] == Some((key, value)));
                            assert(cell.views()[ds + 1].hashes[i as int] == partial_hash);
                        }
                        let n = cell.num_entries;
                        self.num_entries_updated(cell, n + 1);
                    },
                    Err(kv2) => {
                        let (key3, value3) = kv2;
                        proof {
                            assert(key3 == key && value3 == value);
                            assert(array_full(vs0[0]));
                            assert forall|d2: int| 0 <= d2 < vs0.len() implies array_full(
                                #[trigger] vs0[d2],
                            ) by {
                                if d2 > 0 {
                                    assert(vs0[d2] == vs0.drop_first()[d2 - 1]);
                                }
                            }
                            lemma_first_space_full(vs0, 0);
                        }
                        let mut new_array: DataArray<K, V> = DataArray::new(LINKED_LEN);
                        let preferred = (partial_hash as usize) % LINKED_LEN;
                        proof {
                            assert(new_array.arr_view() =~= empty_view::<K, V>(
                                LINKED_LEN as int,
                            ));
                            assert(!bit_set(0u32, preferred as u32)) by (bit_vector)
                                requires
                                    preferred < 32,
                            ;
                        }
                        Cell::<K, V, LOCK_FREE>::insert_slot(
                            &mut new_array,
                            preferred,
                            key3,
                            value3,
                            partial_hash,
                        );
                        core::mem::swap(&mut new_array.link, &mut cell.data_array.link);
                        cell.data_array.link = Some(Box::new(new_array));
                        proof {
                            let nv = filled(
                                empty_view::<K, V>(LINKED_LEN as int),
                                preferred as u32,
                                key,
                                value,
                                partial_hash,
                            );
                            assert(cell.views() =~= vs0.insert(1, nv));
                            lemma_views_count_insert(vs0, 1, nv);
                            lemma_count_zero_word(32);
                            assert(0u32 & !0u32 == 0u32) by (bit_vector);
                            assert(count_bits(live_mask(empty_view::<K, V>(LINKED_LEN as int)), 32)
                                == 0);
                            lemma_or_bit();
                            lemma_live_grow(0u32, 0u32, preferred as u32);
                            assert(bit_set(live_mask(cell.views()[1]), preferred as u32));
                            assert(cell.views()[1].slots[preferred as int] == Some((key, value)));
                            assert(cell.views()[1].hashes[preferred as int] == partial_hash);
                        }
                        let n = cell.num_entries;
                        self.num_entries_updated(cell, n + 1);
                    },
                }
            },
        }
    }
}


impl<K, V, const LOCK_FREE: bool> Cell<K, V, LOCK_FREE> {
    /// Erases slot `index` of one array: marks it removed in lock-free
    /// mode, vacates it otherwise. Also reports whether the array is left
    /// without readable slots.
    fn erase_slot(arr: &mut DataArray<K, V>, index: usize) -> (r: (Option<(K, V)>, bool))
        requires
            view_wf(old(arr).arr_view(), old(arr).arr_view().slots.len() as int),
            index < old(arr).arr_view().slots.len(),
            bit_set(live_mask(old(arr).arr_view()), index as u32),
            !LOCK_FREE ==> old(arr).arr_view().rem == 0,
        ensures
            final(arr).link == old(arr).link,
            final(arr).arr_view() == erased_view(old(arr).arr_view(), index as u32, LOCK_FREE),
            view_wf(final(arr).arr_view(), final(arr).arr_view().slots.len() as int),
            !LOCK_FREE ==> final(arr).arr_view().rem == 0,
            live_mask(final(arr).arr_view()) == live_mask(old(arr).arr_view()) & !(1u32 << (index
                as u32)),
            count_bits(live_mask(final(arr).arr_view()), 32) == count_bits(
                live_mask(old(arr).arr_view()),
                32,
            ) - 1,
            r.0 == (if LOCK_FREE {
                None::<(K, V)>
            } else {
                Some(old(arr).arr_view().slots[index as int].unwrap())
            }),
            r.1 == (live_mask(final(arr).arr_view()) == 0),
    {
        let ghost v0 = arr.arr_view();
        proof {
            lemma_live_subset(v0.occ, v0.rem);
            lemma_subset_bit(live_mask(v0), v0.occ, index as u32);
        }
        let taken: Option<(K, V)>;
        if LOCK_FREE {
            arr.removed = arr.removed | (1u32 << (index as u32));
            taken = None;
            proof {
                lemma_live_remove(v0.occ, v0.rem, index as u32);
                lemma_subset_add(v0.occ, v0.rem, index as u32);
                assert(arr.arr_view() =~= erased_view(v0, index as u32, LOCK_FREE));
            }
        } else {
            arr.occupied = arr.occupied & !(1u32 << (index as u32));
            let slot = &mut arr.data[index];
            let mut t: Option<(K, V)> = None;
            core::mem::swap(slot, &mut t);
            taken = t;
            proof {
                lemma_no_removed(v0.occ);
                lemma_no_removed(arr.occupied);
                lemma_and_not_bit();
                assert(0u32 & !arr.occupied == 0) by (bit_vector);
                assert(arr.arr_view() =~= erased_view(v0, index as u32, LOCK_FREE));
                assert forall|i2: u32|
                    i2 < 32 implies (bit_set(arr.arr_view().occ, i2) == (i2
                    < arr.arr_view().slots.len() && arr.arr_view().slots[i2 as int] is Some)) by {
                    if i2 != index as u32 {
                        assert(bit_set(arr.arr_view().occ, i2) == bit_set(v0.occ, i2));
                    }
                }
            }
        }
        proof {
            lemma_count_clear_bit(live_mask(v0), index as u32, 32);
        }
        let now_empty = if LOCK_FREE {
            (arr.occupied & !arr.removed) == 0
        } else {
            arr.occupied == 0
        };
        (taken, now_empty)
    }

    /// Erases slot `index` of the overflow array at `depth` in the chain.
    fn erase_slot_at(
        link: &mut Option<Box<DataArray<K, V>>>,
        depth: usize,
        index: usize,
    ) -> (r: (Option<(K, V)>, bool))
        requires
            overflow_wf(*old(link)),
            (depth as int) < overflow_views(*old(link)).len(),
            index < LINKED_LEN,
            bit_set(live_mask(overflow_views(*old(link))[depth as int]), index as u32),
            !LOCK_FREE ==> overflow_clean(*old(link)),
        ensures
            ({
                let vs0 = overflow_views(*old(link));
                let v1 = erased_view(vs0[depth as int], index as u32, LOCK_FREE);
                &&& overflow_views(*final(link)) == vs0.update(depth as int, v1)
                &&& overflow_wf(*final(link))
                &&& (!LOCK_FREE ==> overflow_clean(*final(link)))
                &&& r.0 == (if LOCK_FREE {
                    None::<(K, V)>
                } else {
                    Some(vs0[depth as int].slots[index as int].unwrap())
                })
                &&& r.1 == (live_mask(v1) == 0)
                &&& count_bits(live_mask(v1), 32) == count_bits(
                    live_mask(vs0[depth as int]),
                    32,
                ) - 1
            }),
        decreases depth,
    {
        let ghost vs0 = overflow_views(*link);
        match link {
            Some(b) => {
                proof {
                    assert(vs0[0] == b.arr_view());
                    assert(overflow_views(b.link) =~= vs0.drop_first());
                }
                if depth == 0 {
                    let r = Self::erase_slot(&mut **b, index);
                    proof {
                        assert(overflow_views(*link) =~= vs0.update(
                            0,
                            erased_view(vs0[0], index as u32, LOCK_FREE),
                        ));
                    }
                    r
                } else {
                    let r = Self::erase_slot_at(&mut b.link, depth - 1, index);
                    proof {
                        let v1 = erased_view(vs0[depth as int], index as u32, LOCK_FREE);
                        assert(vs0[depth as int] == vs0.drop_first()[depth - 1]);
                        assert(overflow_views(*link) =~= vs0.update(depth as int, v1));
                    }
                    r
                }
            },
            None => {
                proof {
                    assert(false);
                }
                unreached()
            },
        }
    }

    /// Detaches the overflow array at `depth` from the chain, splicing its
    /// successor into its place, and hands it to the barrier for
    /// reclamation. Returns whether a successor took its place.
    #[verifier::spinoff_prover]
    #[verifier::rlimit(50)]
    fn unlink_overflow(
        link: &mut Option<Box<DataArray<K, V>>>,
        depth: usize,
        barrier: &Barrier,
    ) -> (r: bool)
        requires
            overflow_wf(*old(link)),
            (depth as int) < overflow_views(*old(link)).len(),
            !LOCK_FREE ==> overflow_clean(*old(link)),
        ensures
            overflow_views(*final(link)) == overflow_views(*old(link)).remove(depth as int),
            overflow_wf(*final(link)),
            !LOCK_FREE ==> overflow_clean(*final(link)),
            r == ((depth as int) < overflow_views(*old(link)).len() - 1),
        decreases depth,
    {
        let ghost vs0 = overflow_views(*link);
        if depth == 0 {
            let mut taken: Option<Box<DataArray<K, V>>> = None;
            core::mem::swap(link, &mut taken);
            match taken {
                Some(mut dead) => {
                    proof {
                        assert(vs0[0] == dead.arr_view());
                        assert(overflow_views(dead.link) =~= vs0.drop_first());
                    }
                    let mut next: Option<Box<DataArray<K, V>>> = None;
                    core::mem::swap(&mut dead.link, &mut next);
                    core::mem::swap(link, &mut next);
                    barrier.reclaim(dead);
                    proof {
                        assert(overflow_views(*link) =~= vs0.remove(0));
                    }
                },
                None => {
                    proof {
                        assert(false);
                    }
                },
            }
            link.is_some()
        } else {
            match link {
                Some(b) => {
                    proof {
                        assert(vs0[0] == b.arr_view());
                        assert(overflow_views(b.link) =~= vs0.drop_first());
                    }
                    let r = Self::unlink_overflow(&mut b.link, depth - 1, barrier);
                    proof {
                        assert(overflow_views(*link) =~= vs0.remove(depth as int));
                    }
                    r
                },
                None => {
                    proof {
                        assert(false);
                    }
                    unreached()
                },
            }
        }
    }
}

impl EntryIterator {
    /// Detaches the current overflow array — emptied by an erasure — from
    /// the chain; the caller must hold the cell's exclusive lock. The
    /// cursor moves to before-first of the array that took its place, or
    /// fuses when none did.
    pub fn unlink_data_array<K, V, const LOCK_FREE: bool>(
        &mut self,
        cell: &mut Cell<K, V, LOCK_FREE>,
        barrier: &Barrier,
    )
        requires
            old(cell).shape_ok(),
            is_locked(old(cell).spec_state()),
            !old(self).is_finished(),
            0 < old(self).spec_depth(),
            (old(self).spec_depth() as int) < old(cell).views().len(),
        ensures
            final(cell).shape_ok(),
            final(cell).spec_state() == old(cell).spec_state(),
            final(cell).spec_num_entries() == old(cell).spec_num_entries(),
            final(cell).views() == old(cell).views().remove(old(self).spec_depth() as int),
            final(self).spec_depth() == old(self).spec_depth(),
            final(self).is_finished() == ((old(self).spec_depth() as int) == old(
                cell,
            ).views().len() - 1),
            !final(self).is_finished() ==> final(self).spec_index() == usize::MAX,
    {
        let ghost vs0 = cell.views();
        proof {
            assert(vs0[0] == cell.data_array.arr_view());
            assert(overflow_views(cell.data_array.link) =~= vs0.drop_first());
        }
        let d = self.current_depth;
        let had_next = Cell::<K, V, LOCK_FREE>::unlink_overflow(
            &mut cell.data_array.link,
            d - 1,
            barrier,
        );
        proof {
            assert(cell.views() =~= vs0.remove(d as int));
        }
        if had_next {
            self.current_index = usize::MAX;
        } else {
            self.finished = true;
        }
    }
}


impl Locker {
    /// Removes the pair the cursor stands on. In lock-free mode the slot
    /// is only marked removed — concurrent readers of the design may
    /// still hold it — and `None` is returned; otherwise the pair is moved
    /// out. An overflow array left without readable slots is unlinked.
    #[verifier::spinoff_prover]
    #[verifier::rlimit(100)]
    pub fn erase<K, V, const LOCK_FREE: bool>(
        &self,
        cell: &mut Cell<K, V, LOCK_FREE>,
        iterator: &mut EntryIterator,
        barrier: &Barrier,
    ) -> (r: Option<(K, V)>)
        requires
            old(cell).wf(),
            is_locked(old(cell).spec_state()),
            !is_killed(old(cell).spec_state()),
            old(iterator).valid_for(old(cell)),
            !old(iterator).is_finished(),
        ensures
            final(cell).wf(),
            final(cell).spec_state() == old(cell).spec_state(),
            ({
                let d = old(iterator).spec_depth() as int;
                let i = old(iterator).spec_index();
                let vs0 = old(cell).views();
                if i == usize::MAX {
                    &&& r is None
                    &&& *final(cell) == *old(cell)
                    &&& *final(iterator) == *old(iterator)
                } else {
                    let v1 = erased_view(vs0[d], i as u32, LOCK_FREE);
                    let emptied = d > 0 && live_mask(v1) == 0;
                    &&& old(cell).spec_num_entries() >= 1
                    &&& final(cell).spec_num_entries() == old(cell).spec_num_entries() - 1
                    &&& r == (if LOCK_FREE {
                        None::<(K, V)>
                    } else {
                        Some(vs0[d].slots[i as int].unwrap())
                    })
                    &&& final(cell).views() == (if emptied {
                        vs0.remove(d)
                    } else {
                        vs0.update(d, v1)
                    })
                    &&& (!emptied ==> *final(iterator) == *old(iterator))
                    &&& (emptied ==> final(iterator).spec_depth() == d
                        && final(iterator).is_finished() == (d == vs0.len() - 1)
                        && (!final(iterator).is_finished() ==> final(iterator).spec_index()
                        == usize::MAX))
                }
            }),
    {
        let _ = barrier;
        if iterator.current_index == usize::MAX {
            return None;
        }
        let ghost vs0 = cell.views();
        let d = iterator.current_depth;
        let i = iterator.current_index;
        let ghost v1 = erased_view(vs0[d as int], i as u32, LOCK_FREE);
        proof {
            lemma_count_pos(live_mask(vs0[d as int]), i as u32, 32);
            lemma_views_count_lower(vs0, d as int);
            assert(vs0[0] == cell.data_array.arr_view());
            assert(overflow_views(cell.data_array.link) =~= vs0.drop_first());
            lemma_overflow_live_iff(cell.data_array.link);
        }
        let taken: Option<(K, V)>;
        if d == 0 {
            let (t, _now_empty) = Cell::<K, V, LOCK_FREE>::erase_slot(&mut cell.data_array, i);
            taken = t;
            proof {
                assert(cell.views() =~= vs0.update(0, v1));
                lemma_views_count_update(vs0, 0, v1);
            }
        } else {
            proof {
                lemma_overflow_wf_at(cell.data_array.link, d - 1);
                let vd = vs0[d as int];
                lemma_live_subset(vd.occ, vd.rem);
                lemma_subset_bit(live_mask(vd), vd.occ, i as u32);
                assert(vs0[d as int] == vs0.drop_first()[d - 1]);
            }
            let (t, now_empty) = Cell::<K, V, LOCK_FREE>::erase_slot_at(
                &mut cell.data_array.link,
                d - 1,
                i,
            );
            taken = t;
            proof {
                assert(cell.views() =~= vs0.update(d as int, v1));
                lemma_views_count_update(vs0, d as int, v1);
                lemma_overflow_live_iff(cell.data_array.link);
                if !now_empty {
                    assert forall|d2: int|
                        0 <= d2 < overflow_views(cell.data_array.link).len() implies count_bits(
                        live_mask(#[trigger] overflow_views(cell.data_array.link)[d2]),
                        32,
                    ) >= 1 by {
                        assert(overflow_views(cell.data_array.link) =~= cell.views().drop_first());
                        if d2 == d - 1 {
                            assert(overflow_views(cell.data_array.link)[d2] == v1);
                            if count_bits(live_mask(v1), 32) == 0 {
                                lemma_count_zero_implies_zero(live_mask(v1));
                            }
                        } else {
                            assert(overflow_views(cell.data_array.link)[d2] == vs0.drop_first()[
                                d2]);
                            assert(count_bits(live_mask(vs0.drop_first()[d2]), 32) >= 1);
                        }
                    }
                }
            }
            if now_empty {
                let ghost vs_mid = cell.views();
                iterator.unlink_data_array(cell, barrier);
                proof {
                    assert(vs_mid =~= vs0.update(d as int, v1));
                    assert(cell.views() =~= vs0.remove(d as int));
                    lemma_views_count_remove(vs_mid, d as int);
                    lemma_count_zero_word(32);
                    assert(live_mask(v1) == 0u32);
                    assert(count_bits(live_mask(v1), 32) == 0);
                    lemma_overflow_live_iff(cell.data_array.link);
                    let ovs_new = overflow_views(cell.data_array.link);
                    assert(ovs_new =~= cell.views().drop_first());
                    assert(ovs_new =~= vs0.drop_first().remove(d - 1));
                    assert forall|d2: int|
                        0 <= d2 < ovs_new.len() implies count_bits(
                        live_mask(#[trigger] ovs_new[d2]),
                        32,
                    ) >= 1 by {
                        if d2 < d - 1 {
                            assert(ovs_new[d2] == vs0.drop_first()[d2]);
                        } else {
                            assert(ovs_new[d2] == vs0.drop_first()[d2 + 1]);
                        }
                    }
                }
            }
        }
        let n = cell.num_entries;
        self.num_entries_updated(cell, n - 1);
        taken
    }

    /// Moves the pair the cursor stands on out of the cell, for a rehash;
    /// only the variant that is not lock-free supports it. An overflow
    /// array left without readable slots is unlinked.
    pub fn extract<K, V, const LOCK_FREE: bool>(
        &self,
        cell: &mut Cell<K, V, LOCK_FREE>,
        iterator: &mut EntryIterator,
        barrier: &Barrier,
    ) -> (r: (K, V))
        requires
            !LOCK_FREE,
            old(cell).wf(),
            is_locked(old(cell).spec_state()),
            !is_killed(old(cell).spec_state()),
            old(iterator).at_live(old(cell)),
        ensures
            final(cell).wf(),
            final(cell).spec_state() == old(cell).spec_state(),
            ({
                let d = old(iterator).spec_depth() as int;
                let i = old(iterator).spec_index();
                let vs0 = old(cell).views();
                let v1 = erased_view(vs0[d], i as u32, LOCK_FREE);
                let emptied = d > 0 && live_mask(v1) == 0;
                &&& old(cell).spec_num_entries() >= 1
                &&& final(cell).spec_num_entries() == old(cell).spec_num_entries() - 1
                &&& r == vs0[d].slots[i as int].unwrap()
                &&& final(cell).views() == (if emptied {
                    vs0.remove(d)
                } else {
                    vs0.update(d, v1)
                })
            }),
    {
        match self.erase(cell, iterator, barrier) {
            Some(pair) => pair,
            None => unreached(),
        }
    }

    /// Kills the cell: marks every occupied slot of the main array removed
    /// in lock-free mode, sets the kill flag, zeroes the entry count, and
    /// hands the whole overflow chain to the barrier. Every later
    /// acquisition observes the kill flag and yields nothing.
    pub fn purge<K, V, const LOCK_FREE: bool>(
        &mut self,
        cell: &mut Cell<K, V, LOCK_FREE>,
        barrier: &Barrier,
    )
        requires
            old(cell).wf(),
            is_locked(old(cell).spec_state()),
        ensures
            final(cell).wf(),
            final(cell).spec_state() == old(cell).spec_state() | KILLED,
            is_killed(final(cell).spec_state()),
            is_locked(final(cell).spec_state()),
            final(cell).spec_num_entries() == 0,
            final(cell).views().len() == 1,
            final(cell).views()[0] == (if LOCK_FREE {
                ArrView { rem: old(cell).views()[0].occ, ..old(cell).views()[0] }
            } else {
                old(cell).views()[0]
            }),
    {
        let ghost vs0 = cell.views();
        proof {
            assert(vs0[0] == cell.data_array.arr_view());
        }
        if LOCK_FREE {
            cell.data_array.removed = cell.data_array.occupied;
            proof {
                lemma_self_clear(cell.data_array.arr_view().occ);
            }
        }
        proof {
            lemma_flag_set(cell.state, KILLED);
        }
        cell.state = cell.state | KILLED;
        cell.num_entries = 0;
        let mut taken: Option<Box<DataArray<K, V>>> = None;
        core::mem::swap(&mut cell.data_array.link, &mut taken);
        match taken {
            Some(chain) => barrier.reclaim(chain),
            None => (),
        }
        proof {
            assert(cell.views() =~= seq![cell.data_array.arr_view()]);
        }
    }
}


/// Law of the removal bitmap: in every array of a well-formed cell the
/// removal marks lie within the occupancy bitmap.
pub proof fn lemma_removal_within_occupancy<K, V, const LOCK_FREE: bool>(
    cell: &Cell<K, V, LOCK_FREE>,
    d: int,
)
    requires
        cell.wf(),
        0 <= d < cell.views().len(),
    ensures
        cell.views()[d].rem & !cell.views()[d].occ == 0,
{
    if d == 0 {
        assert(cell.views()[0] == cell.spec_main_view());
    } else {
        assert(cell.views().drop_first() =~= overflow_views(cell.spec_link()));
        assert(cell.views()[d] == overflow_views(cell.spec_link())[d - 1]);
        lemma_overflow_wf_at(cell.spec_link(), d - 1);
    }
}

/// Law of readability: a slot whose occupancy bit is set and whose removal
/// bit is clear holds an initialized pair — a lock-free search that
/// observes the two bits can hand the pair out. The concurrent design
/// guarantees initialization with a release fence before the occupancy
/// write; here it is part of well-formedness.
pub proof fn lemma_readable_slot_initialized<K, V, const LOCK_FREE: bool>(
    cell: &Cell<K, V, LOCK_FREE>,
    d: int,
    i: u32,
)
    requires
        cell.wf(),
        0 <= d < cell.views().len(),
        i < 32,
        bit_set(live_mask(cell.views()[d]), i),
    ensures
        (i as int) < cell.views()[d].slots.len(),
        cell.views()[d].slots[i as int] is Some,
{
    let v = cell.views()[d];
    if d == 0 {
        assert(cell.views()[0] == cell.spec_main_view());
    } else {
        assert(cell.views().drop_first() =~= overflow_views(cell.spec_link()));
        assert(cell.views()[d] == overflow_views(cell.spec_link())[d - 1]);
        lemma_overflow_wf_at(cell.spec_link(), d - 1);
    }
    lemma_live_subset(v.occ, v.rem);
    lemma_subset_bit(live_mask(v), v.occ, i);
}

/// Law of the entry count: until the cell is killed, `num_entries` counts
/// exactly the slots that are occupied and not removed, across the main
/// array and every overflow array.
pub proof fn lemma_entry_count<K, V, const LOCK_FREE: bool>(cell: &Cell<K, V, LOCK_FREE>)
    requires
        cell.wf(),
        !is_killed(cell.spec_state()),
    ensures
        cell.spec_num_entries() as int == views_live_count(cell.views()),
{
}

} // verus!
