//! Object registry and lifecycle control blocks.
//!
//! Guest references are indices into a bounds-checked store, never host addresses. Mutable
//! per-object lifecycle metadata (reference counts, validity) lives in a separate control block,
//! never inside the copied 128-bit value.

use vstd::prelude::*;
use std::marker::PhantomData;
use std::sync::atomic::Ordering;
use portable_atomic::{AtomicBool, AtomicU128};
use crate::ids::RegistryKey;

verus! {

/// A vector indexed by a newtype key `K`: bounds-checked indirection.
pub struct RegistryVec<K, V> {
    items: Vec<V>,
    keys: PhantomData<K>,
}

impl<K: RegistryKey, V> View for RegistryVec<K, V> {
    type V = Seq<V>;

    closed spec fn view(&self) -> Seq<V> {
        self.items@
    }
}

impl<K: RegistryKey, V> RegistryVec<K, V> {
    /// An empty registry.
    pub fn new() -> (r: Self)
        ensures
            r@ == Seq::<V>::empty(),
    {
        RegistryVec { items: Vec::new(), keys: PhantomData }
    }

    /// An empty registry with room for `n` items.
    pub fn with_capacity(n: usize) -> (r: Self)
        ensures
            r@ == Seq::<V>::empty(),
    {
        RegistryVec { items: Vec::with_capacity(n), keys: PhantomData }
    }

    /// Append `v`, returning its freshly assigned key.
    pub fn push(&mut self, v: V) -> (k: K)
        ensures
            k == K::key_at(old(self)@.len() as usize),
            old(self)@.len() <= usize::MAX,
            final(self)@ == old(self)@.push(v),
    {
        let k = K::from_index(self.items.len());
        self.items.push(v);
        k
    }

    /// The item of a key, if there is one.
    pub fn get(&self, k: K) -> (r: Option<&V>)
        ensures
            k.position() < self@.len() ==> r == Some(&self@[k.position() as int]),
            k.position() >= self@.len() ==> r is None,
    {
        let i: usize = k.index();
        if i < self.items.len() {
            Some(&self.items[i])
        } else {
            None
        }
    }

    /// The item of a key, to be changed in place.
    pub fn get_mut(&mut self, k: K) -> (r: Option<&mut V>)
        ensures
            match r {
                Some(v) => k.position() < old(self)@.len() && *v == old(
                    self,
                )@[k.position() as int] && final(self)@ == old(self)@.update(
                    k.position() as int,
                    *final(v),
                ),
                None => k.position() >= old(self)@.len() && final(self)@ == old(self)@,
            },
    {
        let i: usize = k.index();
        if i < self.items.len() {
            Some(&mut self.items[i])
        } else {
            None
        }
    }

    /// Number of items.
    pub fn len(&self) -> (n: usize)
        ensures
            n == self@.len(),
    {
        self.items.len()
    }

    /// Whether there are no items.
    pub fn is_empty(&self) -> (b: bool)
        ensures
            b == (self@.len() == 0),
    {
        self.items.len() == 0
    }
}

impl<K: RegistryKey, V> Default for RegistryVec<K, V> {
    fn default() -> (r: Self)
        ensures
            r@ == Seq::<V>::empty(),
    {
        Self::new()
    }
}

/// What was pushed under a key is found under it again, and earlier items keep theirs, as long as
/// the key's integer can hold the position.
pub proof fn lemma_pushed_item_is_found<K: RegistryKey, V>(items: Seq<V>, v: V)
    requires
        items.len() <= usize::MAX,
        K::key_at(items.len() as usize).position() == items.len(),
    ensures
        items.push(v)[K::key_at(items.len() as usize).position() as int] == v,
        forall|i: int| 0 <= i < items.len() ==> items.push(v)[i] == items[i],
{
}

/// A snapshot of an object's strong/weak reference counts.
#[derive(Clone, Copy, PartialEq, Eq, Debug, Structural)]
pub struct RefCounts {
    pub strong: u64,
    pub weak: u64,
}

/// One of the two counts.
#[derive(Clone, Copy, PartialEq, Eq, Debug, Structural)]
pub enum Count {
    Strong,
    Weak,
}

impl RefCounts {
    /// The counts after adding a signed delta to one of them, modulo 2^64.
    pub open spec fn after(self, which: Count, delta: i64) -> RefCounts {
        match which {
            Count::Strong => RefCounts { strong: RefCounts::moved(self.strong, delta), ..self },
            Count::Weak => RefCounts { weak: RefCounts::moved(self.weak, delta), ..self },
        }
    }

    /// Both counts in one 128-bit word: strong in the high half.
    pub open spec fn word(self) -> u128 {
        ((self.strong as u128) << 64) | (self.weak as u128)
    }

    /// The counts that a word holds.
    pub open spec fn of_word(bits: u128) -> RefCounts {
        RefCounts { strong: (bits >> 64) as u64, weak: bits as u64 }
    }

    /// A count after adding a signed delta, modulo 2^64.
    pub open spec fn moved(count: u64, delta: i64) -> u64 {
        (count + delta) as u64
    }

    pub fn pack(self) -> (bits: u128)
        ensures
            bits == self.word(),
    {
        ((self.strong as u128) << 64) | (self.weak as u128)
    }

    pub fn unpack(bits: u128) -> (c: RefCounts)
        ensures
            c == RefCounts::of_word(bits),
    {
        RefCounts { strong: (bits >> 64) as u64, weak: bits as u64 }
    }

    /// The word after adding `delta` to its strong count.
    pub fn strong_moved(bits: u128, delta: i64) -> (r: u128)
        ensures
            r == RefCounts::of_word(bits).after(Count::Strong, delta).word(),
    {
        let c = RefCounts::unpack(bits);
        RefCounts { strong: (c.strong as i128 + delta as i128) as u64, weak: c.weak }.pack()
    }

    /// The word after adding `delta` to its weak count.
    pub fn weak_moved(bits: u128, delta: i64) -> (r: u128)
        ensures
            r == RefCounts::of_word(bits).after(Count::Weak, delta).word(),
    {
        let c = RefCounts::unpack(bits);
        RefCounts { strong: c.strong, weak: (c.weak as i128 + delta as i128) as u64 }.pack()
    }

    /// The word after adding `delta` to one of its counts; always possible.
    pub fn changed(bits: u128, which: Count, delta: i64) -> (r: Option<u128>)
        ensures
            r == Some(RefCounts::of_word(bits).after(which, delta).word()),
    {
        Some(
            match which {
                Count::Strong => RefCounts::strong_moved(bits, delta),
                Count::Weak => RefCounts::weak_moved(bits, delta),
            },
        )
    }
}

/// Packing loses nothing: the counts come back from the word, and the word from the counts.
pub proof fn lemma_counts_round_trip(c: RefCounts, bits: u128)
    ensures
        RefCounts::of_word(c.word()) == c,
        RefCounts::of_word(bits).word() == bits,
{
    let (s, w) = (c.strong, c.weak);
    assert(((((s as u128) << 64) | (w as u128)) >> 64) as u64 == s) by (bit_vector);
    assert((((s as u128) << 64) | (w as u128)) as u64 == w) by (bit_vector);
    assert(((((bits >> 64) as u64) as u128) << 64) | ((bits as u64) as u128) == bits)
        by (bit_vector);
}

/// Taking back a delta restores a count.
pub proof fn lemma_moved_back(count: u64, delta: i64)
    requires
        delta > i64::MIN,
    ensures
        RefCounts::moved(RefCounts::moved(count, delta), (-delta) as i64) == count,
{
    let d: i64 = delta;
    let n: i64 = (-delta) as i64;
    assert((((count + d) as u64) + n) as u64 == count) by (bit_vector)
        requires
            n == -d,
    ;
}

/// `portable_atomic::AtomicU128`: a shared 128-bit cell, opaque here.
#[verifier::external_type_specification]
#[verifier::external_body]
pub struct ExAtomicU128(AtomicU128);

/// `portable_atomic::AtomicBool`: a shared flag, opaque here.
#[verifier::external_type_specification]
#[verifier::external_body]
pub struct ExAtomicBool(AtomicBool);

/// The value a 128-bit cell was created with.
pub uninterp spec fn cell128_start(a: AtomicU128) -> u128;

/// The value a flag was created with.
pub uninterp spec fn flag_start(a: AtomicBool) -> bool;

/// `AtomicU128::new`: a cell that starts with `v`.
#[verifier::external_body]
fn new_cell128(v: u128) -> (a: AtomicU128)
    ensures
        cell128_start(a) == v,
{
    AtomicU128::new(v)
}

/// The record of one `AtomicU128::load`. Only the call itself makes one.
#[verifier::external_body]
pub struct Loaded128 {
    found: u128,
}

/// What a record says: the cell, and the word found there.
pub uninterp spec fn loaded128(t: Loaded128) -> (AtomicU128, u128);

/// `AtomicU128::load`: the current word, which depends on the other threads, and a record.
#[verifier::external_body]
fn load128(a: &AtomicU128) -> (r: (u128, Loaded128))
    ensures
        loaded128(r.1) == (*a, r.0),
{
    let found: u128 = a.load(Ordering::Acquire);
    (found, Loaded128 { found })
}

/// The record of one `AtomicU128::fetch_update`. Only the call itself makes one.
#[verifier::external_body]
pub struct Changed128 {
    found: Result<u128, u128>,
}

/// What a record says: the cell, which count was to change by how much, and the word found there.
pub uninterp spec fn changed128(t: Changed128) -> (AtomicU128, Count, i64, Result<u128, u128>);

/// `AtomicU128::fetch_update` with [`RefCounts::changed`]: applies the change to whatever word is
/// found, as one atomic step, and gives that word back with a record. Which word is found depends on
/// the other threads; it is `Ok` because the change is always possible.
#[verifier::external_body]
fn update128(a: &AtomicU128, which: Count, delta: i64) -> (r: (Result<u128, u128>, Changed128))
    ensures
        changed128(r.1) == (*a, which, delta, r.0),
        r.0 is Ok,
{
    let (ok, not) = (Ordering::AcqRel, Ordering::Acquire);
    let found = a.fetch_update(ok, not, |w| RefCounts::changed(w, which, delta));
    (found, Changed128 { found })
}

/// `AtomicBool::new`: a flag that starts with `v`.
#[verifier::external_body]
fn new_flag(v: bool) -> (a: AtomicBool)
    ensures
        flag_start(a) == v,
{
    AtomicBool::new(v)
}

/// The record of one `AtomicBool::load`. Only the call itself makes one.
#[verifier::external_body]
pub struct LoadedFlag {
    found: bool,
}

/// What a record says: the flag, and the value found.
pub uninterp spec fn loaded_flag(t: LoadedFlag) -> (AtomicBool, bool);

/// `AtomicBool::load`: the current value, which depends on the other threads, and a record.
#[verifier::external_body]
fn load_flag(a: &AtomicBool) -> (r: (bool, LoadedFlag))
    ensures
        loaded_flag(r.1) == (*a, r.0),
{
    let found = a.load(Ordering::Acquire);
    (found, LoadedFlag { found })
}

/// The record of one `AtomicBool::swap`. Only the call itself makes one.
#[verifier::external_body]
pub struct SwappedFlag {
    found: bool,
}

/// What a record says: the flag, the value stored, and the value found before.
pub uninterp spec fn swapped_flag(t: SwappedFlag) -> (AtomicBool, bool, bool);

/// `AtomicBool::swap`: stores `v` and gives the value found before, which depends on the other
/// threads, with a record.
#[verifier::external_body]
fn swap_flag(a: &AtomicBool, v: bool) -> (r: (bool, SwappedFlag))
    ensures
        swapped_flag(r.1) == (*a, v, r.0),
{
    let found = a.swap(v, Ordering::AcqRel);
    (found, SwappedFlag { found })
}

/// A change of one of two counts: the counts found, the counts left, and the record.
pub struct CountChange {
    pub before: RefCounts,
    pub after: RefCounts,
    pub record: Changed128,
}

impl CountChange {
    /// Whether this was a change of a cell's counts by a delta.
    pub open spec fn changes(self, cell: AtomicU128, which: Count, delta: i64) -> bool {
        let (a, w, d, found) = changed128(self.record);
        &&& a == cell
        &&& w == which
        &&& d == delta
        &&& found matches Ok(word) && self.before == RefCounts::of_word(word)
        &&& self.after == self.before.after(which, delta)
    }
}

/// Per-object control block for objects shared across threads.
///
/// The (strong, weak) pair is a single 128-bit atomic. Keeping the mutable counts here, out of the
/// copied pointer value, is what makes the pointer value an immutable, tear-free datum.
pub struct ControlBlock {
    counts: AtomicU128,
    valid: AtomicBool,
}

impl ControlBlock {
    /// The cell that holds the counts.
    pub closed spec fn counts_cell(&self) -> AtomicU128 {
        self.counts
    }

    /// The flag that holds the validity.
    pub closed spec fn valid_cell(&self) -> AtomicBool {
        self.valid
    }

    /// The counts that the block was created with.
    pub closed spec fn start(&self) -> RefCounts {
        RefCounts::of_word(cell128_start(self.counts))
    }

    /// Whether the block was created valid.
    pub closed spec fn starts_valid(&self) -> bool {
        flag_start(self.valid)
    }

    /// A block with `strong` strong references, 0 weak, valid.
    pub fn new(strong: u64) -> (b: ControlBlock)
        ensures
            b.start() == (RefCounts { strong, weak: 0 }),
            b.starts_valid(),
    {
        let c = RefCounts { strong, weak: 0 };
        proof {
            lemma_counts_round_trip(c, 0);
        }
        ControlBlock { counts: new_cell128(c.pack()), valid: new_flag(true) }
    }

    /// The (strong, weak) counts that were found.
    pub fn counts(&self) -> (c: RefCounts)
        ensures
            exists|t: Loaded128|
                (#[trigger] loaded128(t)).0 == self.counts_cell() && c == RefCounts::of_word(
                    loaded128(t).1,
                ),
    {
        let (word, look) = load128(&self.counts);
        assert(loaded128(look).0 == self.counts_cell());
        RefCounts::unpack(word)
    }

    /// Whether the object was found to be still valid.
    pub fn is_valid(&self) -> (b: bool)
        ensures
            exists|t: LoadedFlag| #[trigger] loaded_flag(t) == (self.valid_cell(), b),
    {
        let (b, look) = load_flag(&self.valid);
        assert(loaded_flag(look) == (self.valid_cell(), b));
        b
    }

    /// Invalidate: `false` is stored. Returns the previous validity.
    pub fn invalidate(&self) -> (b: bool)
        ensures
            exists|t: SwappedFlag| #[trigger] swapped_flag(t) == (self.valid_cell(), false, b),
    {
        let (b, t) = swap_flag(&self.valid, false);
        assert(swapped_flag(t) == (self.valid_cell(), false, b));
        b
    }

    /// Atomically add `delta` to one of the counts; gives the counts before and after. The other
    /// count does not change in between.
    pub fn change(&self, which: Count, delta: i64) -> (r: CountChange)
        ensures
            r.changes(self.counts_cell(), which, delta),
    {
        let (result, record) = update128(&self.counts, which, delta);
        let found: u128 = match result {
            Ok(w) => w,
            Err(w) => w,
        };
        let before = RefCounts::unpack(found);
        let after = match which {
            Count::Strong => RefCounts::unpack(RefCounts::strong_moved(found, delta)),
            Count::Weak => RefCounts::unpack(RefCounts::weak_moved(found, delta)),
        };
        proof {
            lemma_counts_round_trip(before.after(which, delta), 0);
        }
        CountChange { before, after, record }
    }

    /// Atomically add `delta` to the strong count; returns the new strong count.
    pub fn add_strong(&self, delta: i64) -> (n: u64)
        ensures
            exists|r: CountChange| #[trigger]
                r.changes(self.counts_cell(), Count::Strong, delta) && n == r.after.strong,
    {
        let r = self.change(Count::Strong, delta);
        assert(r.changes(self.counts_cell(), Count::Strong, delta));
        r.after.strong
    }

    /// Atomically add `delta` to the weak count; returns the new weak count.
    pub fn add_weak(&self, delta: i64) -> (n: u64)
        ensures
            exists|r: CountChange| #[trigger]
                r.changes(self.counts_cell(), Count::Weak, delta) && n == r.after.weak,
    {
        let r = self.change(Count::Weak, delta);
        assert(r.changes(self.counts_cell(), Count::Weak, delta));
        r.after.weak
    }
}

/// A count moves by what is added, where it can; the other count stays; and the word has the strong
/// count in its higher half and the weak one in its lower.
pub proof fn lemma_counts_move(c: RefCounts, which: Count, delta: i64)
    ensures
        0 <= c.strong + delta <= u64::MAX ==> c.after(Count::Strong, delta).strong == c.strong + delta,
        0 <= c.weak + delta <= u64::MAX ==> c.after(Count::Weak, delta).weak == c.weak + delta,
        c.after(Count::Strong, delta).weak == c.weak,
        c.after(Count::Weak, delta).strong == c.strong,
        c.word() == c.strong * 0x1_0000_0000_0000_0000 + c.weak,
{
    let (s, w) = (c.strong, c.weak);
    assert((((s as u128) << 64) | (w as u128)) == (s as u128) * 0x1_0000_0000_0000_0000 + (
    w as u128)) by (bit_vector);
}

} // verus!
