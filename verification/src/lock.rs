//! Locking. Two distinct facilities that must not be mixed: the compact read/write lock for compound
//! field transactions, and the reentrant monitor for `synchronized`.
//!
//! Every operation here is one attempt: it says whether it was granted, and the caller decides how
//! to wait.

use vstd::prelude::*;
use std::sync::atomic::Ordering;
use portable_atomic::{AtomicU16, AtomicU32};
use crate::ir::{cell32_start, new_cell32};

verus! {

/// What a lock word says.
#[verifier::ext_equal]
pub struct LockState {
    /// How many readers are inside.
    pub readers: nat,
    /// A writer waits: no new reader is let in.
    pub waiting: bool,
    /// A writer is inside.
    pub held: bool,
}

/// A step of the lock protocol.
#[derive(Clone, Copy, PartialEq, Eq, Debug, Structural)]
pub enum LockMove {
    /// A reader enters.
    Enter,
    /// A reader leaves.
    Leave,
    /// A writer announces itself.
    Announce,
    /// A writer enters.
    Claim,
    /// A writer leaves; another that waits goes on waiting.
    Release,
}

impl LockState {
    /// The state after a step, or `None` if the step has to wait. `max` is the largest count of
    /// readers that a word can hold.
    pub open spec fn after(self, m: LockMove, max: nat) -> Option<LockState> {
        match m {
            LockMove::Enter => if self.waiting || self.held || self.readers >= max {
                None
            } else {
                Some(LockState { readers: self.readers + 1, ..self })
            },
            LockMove::Leave => Some(
                LockState {
                    readers: if self.readers == 0 {
                        max
                    } else {
                        (self.readers - 1) as nat
                    },
                    ..self
                },
            ),
            LockMove::Announce => if self.waiting {
                None
            } else {
                Some(LockState { waiting: true, ..self })
            },
            LockMove::Claim => if self.readers > 0 || self.held {
                None
            } else {
                Some(LockState { readers: 0, waiting: false, held: true })
            },
            LockMove::Release => Some(LockState { held: false, ..self }),
        }
    }
}

/// The largest reader count of a 16-bit lock word.
pub const MAX_READERS_16: u16 = 0x3FFF;

/// The largest reader count of a 32-bit lock word.
pub const MAX_READERS_32: u32 = 0x3FFF_FFFF;

/// What a 16-bit lock word says: bit 0 write-held, bit 1 write-waiting, the rest the reader count.
pub open spec fn state16(s: u16) -> LockState {
    LockState { readers: (s / 4) as nat, waiting: (s / 2) % 2 == 1, held: s % 2 == 1 }
}

/// What a 32-bit lock word says: bit 0 write-held, bit 1 write-waiting, the rest the reader count.
pub open spec fn state32(s: u32) -> LockState {
    LockState { readers: (s / 4) as nat, waiting: (s / 2) % 2 == 1, held: s % 2 == 1 }
}

/// What a 16-bit lock word says after a step.
pub open spec fn step16(s: u16, m: LockMove) -> Option<LockState> {
    state16(s).after(m, MAX_READERS_16 as nat)
}

/// What a 32-bit lock word says after a step.
pub open spec fn step32(s: u32, m: LockMove) -> Option<LockState> {
    state32(s).after(m, MAX_READERS_32 as nat)
}

/// Whether a word is what a step makes of another word, or `None` if the step has to wait.
pub open spec fn follows16(s: u16, m: LockMove, r: Option<u16>) -> bool {
    match step16(s, m) {
        Some(t) => r is Some && state16(r->0) == t,
        None => r is None,
    }
}

/// Whether a word is what a step makes of another word, or `None` if the step has to wait.
pub open spec fn follows32(s: u32, m: LockMove, r: Option<u32>) -> bool {
    match step32(s, m) {
        Some(t) => r is Some && state32(r->0) == t,
        None => r is None,
    }
}

/// A 16-bit lock word after a step.
pub fn moved16(m: LockMove, s: u16) -> (r: Option<u16>)
    ensures
        follows16(s, m, r),
{
    match m {
        LockMove::Enter => {
            if s & 0b11 == 0 && s <= 0xFFFB {
                assert(s & 0b11 == 0 ==> s % 4 == 0) by (bit_vector);
                Some(s + 4)
            } else {
                assert(s & 0b11 != 0 ==> s % 4 != 0) by (bit_vector);
                None
            }
        },
        LockMove::Leave => {
            if s >= 4 {
                Some(s - 4)
            } else {
                Some(0xFFFC + s)
            }
        },
        LockMove::Announce => {
            if s & 0b10 == 0 {
                assert(s & 0b10 == 0 ==> (s / 2) % 2 == 0 && (s | 0b10) == s + 2) by (bit_vector);
                Some(s | 0b10)
            } else {
                assert(s & 0b10 != 0 ==> (s / 2) % 2 == 1) by (bit_vector);
                None
            }
        },
        LockMove::Claim => {
            assert(s >> 2 == s / 4 && s & 0b01 == s % 2) by (bit_vector);
            if s >> 2 == 0 && s & 0b01 == 0 {
                Some(0b01)
            } else {
                None
            }
        },
        LockMove::Release => {
            assert(s & 0b01 == s % 2) by (bit_vector);
            Some(s - (s & 0b01))
        },
    }
}

/// A 32-bit lock word after a step.
pub fn moved32(m: LockMove, s: u32) -> (r: Option<u32>)
    ensures
        follows32(s, m, r),
{
    match m {
        LockMove::Enter => {
            if s & 0b11 == 0 && s <= 0xFFFF_FFFB {
                assert(s & 0b11 == 0 ==> s % 4 == 0) by (bit_vector);
                Some(s + 4)
            } else {
                assert(s & 0b11 != 0 ==> s % 4 != 0) by (bit_vector);
                None
            }
        },
        LockMove::Leave => {
            if s >= 4 {
                Some(s - 4)
            } else {
                Some(0xFFFF_FFFC + s)
            }
        },
        LockMove::Announce => {
            if s & 0b10 == 0 {
                assert(s & 0b10 == 0 ==> (s / 2) % 2 == 0 && (s | 0b10) == s + 2) by (bit_vector);
                Some(s | 0b10)
            } else {
                assert(s & 0b10 != 0 ==> (s / 2) % 2 == 1) by (bit_vector);
                None
            }
        },
        LockMove::Claim => {
            assert(s >> 2 == s / 4 && s & 0b01 == s % 2) by (bit_vector);
            if s >> 2 == 0 && s & 0b01 == 0 {
                Some(0b01)
            } else {
                None
            }
        },
        LockMove::Release => {
            assert(s & 0b01 == s % 2) by (bit_vector);
            Some(s - (s & 0b01))
        },
    }
}

/// `portable_atomic::AtomicU16`: a shared 16-bit cell, opaque here.
#[verifier::external_type_specification]
#[verifier::external_body]
pub struct ExAtomicU16(AtomicU16);

/// The value a 16-bit cell was created with.
pub uninterp spec fn cell16_start(a: AtomicU16) -> u16;

/// `AtomicU16::new`: a cell that starts with `v`.
#[verifier::external_body]
fn new_cell16(v: u16) -> (a: AtomicU16)
    ensures
        cell16_start(a) == v,
{
    AtomicU16::new(v)
}

/// The record of one `AtomicU16::fetch_update`. Only the call itself makes one.
#[verifier::external_body]
pub struct Tried16 {
    step: LockMove,
    found: Result<u16, u16>,
}

/// What a record says: the cell, the step that was handed to it, and the word found there, `Ok` if the
/// step was taken.
pub uninterp spec fn tried16(t: Tried16) -> (AtomicU16, LockMove, Result<u16, u16>);

/// `AtomicU16::fetch_update` with [`moved16`]: applies the step to whatever word is found, and gives
/// that word back with a record: `Ok` if the step was taken, `Err` if it has to wait. Which word is
/// found depends on the other threads.
#[verifier::external_body]
fn update16(a: &AtomicU16, m: LockMove) -> (r: (Result<u16, u16>, Tried16))
    ensures
        tried16(r.1) == (*a, m, r.0),
        match r.0 {
            Ok(s) => step16(s, m) is Some,
            Err(s) => step16(s, m) is None,
        },
{
    let found = a.fetch_update(Ordering::AcqRel, Ordering::Acquire, |s| moved16(m, s));
    (found, Tried16 { step: m, found })
}

/// One try at a 16-bit lock: the word found, `Ok` if the step was taken, and the record.
pub struct Attempt16 {
    pub found: Result<u16, u16>,
    pub record: Tried16,
}

impl Attempt16 {
    /// Whether this was a try at a step on a cell.
    pub open spec fn tries(self, cell: AtomicU16, m: LockMove) -> bool {
        &&& tried16(self.record) == (cell, m, self.found)
        &&& match self.found {
            Ok(s) => step16(s, m) is Some,
            Err(s) => step16(s, m) is None,
        }
    }
}

/// Try a step.
fn attempt16(a: &AtomicU16, m: LockMove) -> (t: Attempt16)
    ensures
        t.tries(*a, m),
{
    let (found, record) = update16(a, m);
    Attempt16 { found, record }
}

/// The record of one `AtomicU32::fetch_update`. Only the call itself makes one.
#[verifier::external_body]
pub struct Tried32 {
    step: LockMove,
    found: Result<u32, u32>,
}

/// What a record says: the cell, the step that was handed to it, and the word found there, `Ok` if the
/// step was taken.
pub uninterp spec fn tried32(t: Tried32) -> (AtomicU32, LockMove, Result<u32, u32>);

/// `AtomicU32::fetch_update` with [`moved32`]: applies the step to whatever word is found, and gives
/// that word back with a record: `Ok` if the step was taken, `Err` if it has to wait. Which word is
/// found depends on the other threads.
#[verifier::external_body]
fn update32(a: &AtomicU32, m: LockMove) -> (r: (Result<u32, u32>, Tried32))
    ensures
        tried32(r.1) == (*a, m, r.0),
        match r.0 {
            Ok(s) => step32(s, m) is Some,
            Err(s) => step32(s, m) is None,
        },
{
    let found = a.fetch_update(Ordering::AcqRel, Ordering::Acquire, |s| moved32(m, s));
    (found, Tried32 { step: m, found })
}

/// One try at a 32-bit lock: the word found, `Ok` if the step was taken, and the record.
pub struct Attempt32 {
    pub found: Result<u32, u32>,
    pub record: Tried32,
}

impl Attempt32 {
    /// Whether this was a try at a step on a cell.
    pub open spec fn tries(self, cell: AtomicU32, m: LockMove) -> bool {
        &&& tried32(self.record) == (cell, m, self.found)
        &&& match self.found {
            Ok(s) => step32(s, m) is Some,
            Err(s) => step32(s, m) is None,
        }
    }
}

/// Try a step.
fn attempt32(a: &AtomicU32, m: LockMove) -> (t: Attempt32)
    ensures
        t.tries(*a, m),
{
    let (found, record) = update32(a, m);
    Attempt32 { found, record }
}

/// How far a writer has come.
#[derive(Clone, Copy, PartialEq, Eq, Debug, Structural)]
pub enum Writing {
    /// It has not announced itself.
    Wants,
    /// It has announced itself: no new reader is let in.
    Waits,
    /// It is inside.
    Holds,
}

impl Writing {
    /// How far a writer has come after it tried to announce itself and to enter: what it did not have
    /// to try does not count.
    pub open spec fn after(self, announced: bool, claimed: bool) -> Writing {
        match self {
            Writing::Wants => if !announced {
                Writing::Wants
            } else if claimed {
                Writing::Holds
            } else {
                Writing::Waits
            },
            Writing::Waits => if claimed {
                Writing::Holds
            } else {
                Writing::Waits
            },
            Writing::Holds => Writing::Holds,
        }
    }
}

/// How far a writer has come after it tried to announce itself and to enter.
pub fn writing_after(from: Writing, announced: bool, claimed: bool) -> (to: Writing)
    ensures
        to == from.after(announced, claimed),
{
    match from {
        Writing::Wants => {
            if !announced {
                Writing::Wants
            } else if claimed {
                Writing::Holds
            } else {
                Writing::Waits
            }
        },
        Writing::Waits => {
            if claimed {
                Writing::Holds
            } else {
                Writing::Waits
            }
        },
        Writing::Holds => Writing::Holds,
    }
}

/// Nothing that a writer has reached is lost, whatever the tries come to.
pub proof fn lemma_writers_lose_nothing(from: Writing, announced: bool, claimed: bool)
    ensures
        from is Waits ==> !(from.after(announced, claimed) is Wants),
        from is Holds ==> from.after(announced, claimed) is Holds,
        announced && claimed ==> from.after(announced, claimed) is Holds,
{
}

/// How far a writer has come at a 16-bit lock, and what it tried.
pub struct Written16 {
    pub to: Writing,
    pub announced: Option<Attempt16>,
    pub claimed: Option<Attempt16>,
}

impl Written16 {
    /// Whether the try to announce was made and taken.
    pub open spec fn noted(self) -> bool {
        self.announced matches Some(t) && t.found is Ok
    }

    /// Whether the try to enter was made and taken.
    pub open spec fn inside(self) -> bool {
        self.claimed matches Some(t) && t.found is Ok
    }

    /// Whether a writer that had come as far as `from` went on: it tried to announce itself if it had
    /// not, and then to enter if it has, and has come as far as the words found say.
    pub open spec fn goes_on(self, cell: AtomicU16, from: Writing) -> bool {
        &&& self.announced is Some <==> from is Wants
        &&& self.announced matches Some(t) ==> t.tries(cell, LockMove::Announce)
        &&& self.claimed is Some <==> (from is Waits || self.noted())
        &&& self.claimed matches Some(t) ==> t.tries(cell, LockMove::Claim)
        &&& self.to == from.after(self.noted(), self.inside())
    }
}

/// How far a writer has come at a 32-bit lock, and what it tried.
pub struct Written32 {
    pub to: Writing,
    pub announced: Option<Attempt32>,
    pub claimed: Option<Attempt32>,
}

impl Written32 {
    /// Whether the try to announce was made and taken.
    pub open spec fn noted(self) -> bool {
        self.announced matches Some(t) && t.found is Ok
    }

    /// Whether the try to enter was made and taken.
    pub open spec fn inside(self) -> bool {
        self.claimed matches Some(t) && t.found is Ok
    }

    /// Whether a writer that had come as far as `from` went on: it tried to announce itself if it had
    /// not, and then to enter if it has, and has come as far as the words found say.
    pub open spec fn goes_on(self, cell: AtomicU32, from: Writing) -> bool {
        &&& self.announced is Some <==> from is Wants
        &&& self.announced matches Some(t) ==> t.tries(cell, LockMove::Announce)
        &&& self.claimed is Some <==> (from is Waits || self.noted())
        &&& self.claimed matches Some(t) ==> t.tries(cell, LockMove::Claim)
        &&& self.to == from.after(self.noted(), self.inside())
    }
}

/// Compact 16-bit read/write lock for cold field transactions. Write-waiting blocks new readers, so
/// that writers do not starve. Not reentrant.
pub struct U16Lock {
    word: AtomicU16,
}

impl U16Lock {
    /// The lock's word, as a cell.
    pub closed spec fn cell(&self) -> AtomicU16 {
        self.word
    }

    /// The word that the lock was created with.
    pub closed spec fn start(&self) -> u16 {
        cell16_start(self.word)
    }

    /// A free lock.
    pub fn new() -> (l: U16Lock)
        ensures
            l.start() == 0,
            state16(l.start()) == (LockState { readers: 0, waiting: false, held: false }),
    {
        U16Lock { word: new_cell16(0) }
    }

    /// Try to enter as a reader: it is let in if no writer holds the lock or waits for it.
    pub fn read(&self) -> (t: Attempt16)
        ensures
            t.tries(self.cell(), LockMove::Enter),
    {
        attempt16(&self.word, LockMove::Enter)
    }

    /// Leave as a reader.
    pub fn read_unlock(&self) -> (t: Attempt16)
        ensures
            t.tries(self.cell(), LockMove::Leave),
            t.found is Ok,
    {
        attempt16(&self.word, LockMove::Leave)
    }

    /// Try to announce a writer: it is noted if no other waits.
    pub fn announce_write(&self) -> (t: Attempt16)
        ensures
            t.tries(self.cell(), LockMove::Announce),
    {
        attempt16(&self.word, LockMove::Announce)
    }

    /// Try to enter as a writer: it is let in if nobody is inside.
    pub fn claim_write(&self) -> (t: Attempt16)
        ensures
            t.tries(self.cell(), LockMove::Claim),
    {
        attempt16(&self.word, LockMove::Claim)
    }

    /// Go on with entering as a writer: announce, then wait for the readers to drain. Nothing that
    /// was reached is lost.
    pub fn write(&self, from: Writing) -> (w: Written16)
        ensures
            w.goes_on(self.cell(), from),
    {
        let announced: Option<Attempt16> = match from {
            Writing::Wants => Some(self.announce_write()),
            _ => None,
        };
        let noted: bool = match &announced {
            Some(t) => t.found.is_ok(),
            None => false,
        };
        let claimed: Option<Attempt16> = if noted || from == Writing::Waits {
            Some(self.claim_write())
        } else {
            None
        };
        let inside: bool = match &claimed {
            Some(t) => t.found.is_ok(),
            None => false,
        };
        Written16 { to: writing_after(from, noted, inside), announced, claimed }
    }

    /// Leave as a writer.
    pub fn write_unlock(&self) -> (t: Attempt16)
        ensures
            t.tries(self.cell(), LockMove::Release),
            t.found is Ok,
    {
        attempt16(&self.word, LockMove::Release)
    }
}

impl Default for U16Lock {
    fn default() -> (l: U16Lock)
        ensures
            l.start() == 0,
    {
        U16Lock::new()
    }
}

/// Wider lock for hot objects with potentially thousands of concurrent readers.
pub struct U32Lock {
    word: AtomicU32,
}

impl U32Lock {
    /// The lock's word, as a cell.
    pub closed spec fn cell(&self) -> AtomicU32 {
        self.word
    }

    /// The word that the lock was created with.
    pub closed spec fn start(&self) -> u32 {
        cell32_start(self.word)
    }

    /// A free lock.
    pub fn new() -> (l: U32Lock)
        ensures
            l.start() == 0,
            state32(l.start()) == (LockState { readers: 0, waiting: false, held: false }),
    {
        U32Lock { word: new_cell32(0) }
    }

    /// Try to enter as a reader: it is let in if no writer holds the lock or waits for it.
    pub fn read(&self) -> (t: Attempt32)
        ensures
            t.tries(self.cell(), LockMove::Enter),
    {
        attempt32(&self.word, LockMove::Enter)
    }

    /// Leave as a reader.
    pub fn read_unlock(&self) -> (t: Attempt32)
        ensures
            t.tries(self.cell(), LockMove::Leave),
            t.found is Ok,
    {
        attempt32(&self.word, LockMove::Leave)
    }

    /// Try to announce a writer: it is noted if no other waits.
    pub fn announce_write(&self) -> (t: Attempt32)
        ensures
            t.tries(self.cell(), LockMove::Announce),
    {
        attempt32(&self.word, LockMove::Announce)
    }

    /// Try to enter as a writer: it is let in if nobody is inside.
    pub fn claim_write(&self) -> (t: Attempt32)
        ensures
            t.tries(self.cell(), LockMove::Claim),
    {
        attempt32(&self.word, LockMove::Claim)
    }

    /// Go on with entering as a writer: announce, then wait for the readers to drain. Nothing that
    /// was reached is lost.
    pub fn write(&self, from: Writing) -> (w: Written32)
        ensures
            w.goes_on(self.cell(), from),
    {
        let announced: Option<Attempt32> = match from {
            Writing::Wants => Some(self.announce_write()),
            _ => None,
        };
        let noted: bool = match &announced {
            Some(t) => t.found.is_ok(),
            None => false,
        };
        let claimed: Option<Attempt32> = if noted || from == Writing::Waits {
            Some(self.claim_write())
        } else {
            None
        };
        let inside: bool = match &claimed {
            Some(t) => t.found.is_ok(),
            None => false,
        };
        Written32 { to: writing_after(from, noted, inside), announced, claimed }
    }

    /// Leave as a writer.
    pub fn write_unlock(&self) -> (t: Attempt32)
        ensures
            t.tries(self.cell(), LockMove::Release),
            t.found is Ok,
    {
        attempt32(&self.word, LockMove::Release)
    }
}

impl Default for U32Lock {
    fn default() -> (l: U32Lock)
        ensures
            l.start() == 0,
    {
        U32Lock::new()
    }
}

/// A lock, with who is inside and who waits.
#[verifier::ext_equal]
pub struct Occupied {
    pub state: LockState,
    pub readers: nat,
    pub writers: nat,
    /// Writers that have announced themselves and are not inside yet.
    pub waiters: nat,
}

impl Occupied {
    /// A free lock.
    pub open spec fn free() -> Occupied {
        Occupied {
            state: LockState { readers: 0, waiting: false, held: false },
            readers: 0,
            writers: 0,
            waiters: 0,
        }
    }

    /// The word tells who is inside, any number of readers or one writer, and whether one waits.
    pub open spec fn wf(self) -> bool {
        &&& self.state.readers == self.readers
        &&& self.writers == (if self.state.held {
            1nat
        } else {
            0
        })
        &&& self.waiters == (if self.state.waiting {
            1nat
        } else {
            0
        })
        &&& self.state.held ==> self.readers == 0
    }

    /// After some thread tries a step. Only who is inside leaves, and only who waits enters as a
    /// writer; a step that has to wait changes nothing.
    pub open spec fn after(self, m: LockMove, max: nat) -> Occupied {
        let allowed = match m {
            LockMove::Leave => self.readers > 0,
            LockMove::Claim => self.waiters > 0,
            LockMove::Release => self.writers > 0,
            _ => true,
        };
        match self.state.after(m, max) {
            Some(state) => if allowed {
                Occupied {
                    state,
                    readers: match m {
                        LockMove::Enter => self.readers + 1,
                        LockMove::Leave => (self.readers - 1) as nat,
                        _ => self.readers,
                    },
                    writers: match m {
                        LockMove::Claim => self.writers + 1,
                        LockMove::Release => (self.writers - 1) as nat,
                        _ => self.writers,
                    },
                    waiters: match m {
                        LockMove::Announce => self.waiters + 1,
                        LockMove::Claim => (self.waiters - 1) as nat,
                        _ => self.waiters,
                    },
                }
            } else {
                self
            },
            None => self,
        }
    }

    /// After the steps that any threads try, in the order in which they reach the lock.
    pub open spec fn after_all(self, moves: Seq<LockMove>, max: nat) -> Occupied
        decreases moves.len(),
    {
        if moves.len() == 0 {
            self
        } else {
            self.after_all(moves.drop_last(), max).after(moves.last(), max)
        }
    }
}

/// Mutual exclusion: whatever the threads try, and in whatever order, a writer is never inside with
/// another writer or with a reader.
pub proof fn lemma_mutual_exclusion(moves: Seq<LockMove>, max: nat)
    ensures
        Occupied::free().after_all(moves, max).wf(),
        Occupied::free().after_all(moves, max).writers <= 1,
        Occupied::free().after_all(moves, max).writers == 1 ==> Occupied::free().after_all(
            moves,
            max,
        ).readers == 0,
    decreases moves.len(),
{
    if moves.len() > 0 {
        lemma_mutual_exclusion(moves.drop_last(), max);
    }
}

/// Writers do not starve: while a writer waits, no new reader gets in, whatever the threads try and in
/// whatever order. Only its own entry ends its waiting: no other writer's announcement, entry or exit
/// does.
pub proof fn lemma_waiting_writer_stops_readers(o: Occupied, moves: Seq<LockMove>, max: nat)
    requires
        o.wf(),
        o.state.waiting,
        forall|i: int|
            0 <= i < moves.len() && #[trigger] moves[i] is Claim ==> o.after_all(
                moves.take(i),
                max,
            ).after(LockMove::Claim, max) == o.after_all(moves.take(i), max),
    ensures
        o.after_all(moves, max).wf(),
        o.after_all(moves, max).state.waiting,
        o.after_all(moves, max).waiters == 1,
        o.after_all(moves, max).readers <= o.readers,
        o.after_all(moves, max).after(LockMove::Enter, max) == o.after_all(moves, max),
    decreases moves.len(),
{
    if moves.len() > 0 {
        let rest = moves.drop_last();
        assert(moves[moves.len() - 1] == moves.last());
        assert(moves.take(moves.len() - 1) =~= rest);
        assert forall|i: int| 0 <= i < rest.len() && #[trigger] rest[i] is Claim implies o.after_all(
            rest.take(i),
            max,
        ).after(LockMove::Claim, max) == o.after_all(rest.take(i), max) by {
            assert(moves[i] == rest[i]);
            assert(moves.take(i) =~= rest.take(i));
        }
        lemma_waiting_writer_stops_readers(o, rest, max);
    }
}

proof fn lemma_three_parts(n: int)
    requires
        0 <= n,
    ensures
        n == 4 * (n / 4) + 2 * ((n / 2) % 2) + n % 2,
{
    assert((n / 2) / 2 == n / 4);
}

/// The words are the states: different words say different things.
pub proof fn lemma_word_is_its_state(a: u16, b: u16)
    ensures
        state16(a) == state16(b) <==> a == b,
{
    lemma_three_parts(a as int);
    lemma_three_parts(b as int);
}

/// The wide words are the states, too.
pub proof fn lemma_wide_word_is_its_state(a: u32, b: u32)
    ensures
        state32(a) == state32(b) <==> a == b,
{
    lemma_three_parts(a as int);
    lemma_three_parts(b as int);
}

/// The owner of a monitor that nobody is in.
pub const NO_OWNER: u32 = 0xFFFF_FFFF;

/// How a thread gets into a monitor.
#[derive(Clone, Copy, PartialEq, Eq, Debug, Structural)]
pub enum Entry {
    /// It is inside already: one level deeper.
    Deeper,
    /// It has to become the owner.
    Claim,
}

/// How the thread `vt` gets into a monitor whose owner is `owner`.
pub fn entry_of(owner: u32, vt: u32) -> (e: Entry)
    ensures
        e == (if owner == vt {
            Entry::Deeper
        } else {
            Entry::Claim
        }),
{
    if owner == vt {
        Entry::Deeper
    } else {
        Entry::Claim
    }
}

/// Whether leaving a monitor at a depth gives it up.
pub fn gives_up(depth: u32) -> (b: bool)
    ensures
        b == (depth == 1),
{
    depth == 1
}

/// The owner that a word names.
pub open spec fn named_owner(word: u32) -> Option<u32> {
    if word == NO_OWNER {
        None
    } else {
        Some(word)
    }
}

/// The owner that a word names.
pub fn owner_of(word: u32) -> (o: Option<u32>)
    ensures
        o == named_owner(word),
{
    if word == NO_OWNER {
        None
    } else {
        Some(word)
    }
}

/// The record of one `AtomicU32::load`. Only the call itself makes one.
#[verifier::external_body]
pub struct Loaded32 {
    found: u32,
}

/// What a record says: the cell, and the value found there.
pub uninterp spec fn loaded32(t: Loaded32) -> (AtomicU32, u32);

/// `AtomicU32::load`: the current value, which depends on the other threads, and a record.
#[verifier::external_body]
fn load32(a: &AtomicU32) -> (r: (u32, Loaded32))
    ensures
        loaded32(r.1) == (*a, r.0),
{
    let found: u32 = a.load(Ordering::Acquire);
    (found, Loaded32 { found })
}

/// The record of one `AtomicU32::store`. Only the call itself makes one.
#[verifier::external_body]
pub struct Stored32 {
    value: u32,
}

/// What a record says: the cell, and the value stored there.
pub uninterp spec fn stored32(t: Stored32) -> (AtomicU32, u32);

/// `AtomicU32::store`: stores the value; the record says so.
#[verifier::external_body]
fn store32(a: &AtomicU32, v: u32) -> (t: Stored32)
    ensures
        stored32(t) == (*a, v),
{
    a.store(v, Ordering::Release);
    Stored32 { value: v }
}

/// The record of one `AtomicU32::compare_exchange`. Only the call itself makes one.
#[verifier::external_body]
pub struct Exchanged32 {
    found: Result<u32, u32>,
}

/// What a record says: the cell, the value looked for, the value to store in its place, and the value
/// found, `Ok` if it was the one looked for.
pub uninterp spec fn exchanged32(t: Exchanged32) -> (AtomicU32, u32, u32, Result<u32, u32>);

/// `AtomicU32::compare_exchange`: stores `new` if the value found is `current`, and gives the value
/// found, with a record: `Ok` if it was `current`, `Err` if it was not.
#[verifier::external_body]
fn exchange32(a: &AtomicU32, current: u32, new: u32) -> (r: (Result<u32, u32>, Exchanged32))
    ensures
        exchanged32(r.1) == (*a, current, new, r.0),
        match r.0 {
            Ok(v) => v == current,
            Err(v) => v != current,
        },
{
    let found = a.compare_exchange(current, new, Ordering::Acquire, Ordering::Relaxed);
    (found, Exchanged32 { found })
}

/// The record of one `AtomicU32::fetch_add`. Only the call itself makes one.
#[verifier::external_body]
pub struct Added32 {
    found: u32,
}

/// What a record says: the cell, the value added, wrapping around, and the value found before.
pub uninterp spec fn added32(t: Added32) -> (AtomicU32, u32, u32);

/// `AtomicU32::fetch_add`: adds, wrapping around, and gives the value found before, with a record.
#[verifier::external_body]
fn add32(a: &AtomicU32, v: u32) -> (r: (u32, Added32))
    ensures
        added32(r.1) == (*a, v, r.0),
{
    let found: u32 = a.fetch_add(v, Ordering::Relaxed);
    (found, Added32 { found })
}

/// The record of one `AtomicU32::fetch_sub`. Only the call itself makes one.
#[verifier::external_body]
pub struct Taken32 {
    found: u32,
}

/// What a record says: the cell, the value subtracted, wrapping around, and the value found before.
pub uninterp spec fn taken32(t: Taken32) -> (AtomicU32, u32, u32);

/// `AtomicU32::fetch_sub`: subtracts, wrapping around, and gives the value found before, with a record.
#[verifier::external_body]
fn sub32(a: &AtomicU32, v: u32) -> (r: (u32, Taken32))
    ensures
        taken32(r.1) == (*a, v, r.0),
{
    let found: u32 = a.fetch_sub(v, Ordering::Relaxed);
    (found, Taken32 { found })
}

/// How an attempt to enter a monitor went.
#[derive(Clone, Copy, PartialEq, Eq, Debug, Structural)]
pub enum Entered {
    /// The thread owned it before and is one level deeper.
    Again,
    /// The thread owns it now.
    First,
    /// This thread owns it.
    No(u32),
}

/// How an attempt to leave a monitor went; with the depth before it.
#[derive(Clone, Copy, PartialEq, Eq, Debug, Structural)]
pub enum Left {
    /// The thread is still inside.
    Inside(u32),
    /// The thread has given the monitor up.
    Outside(u32),
    /// Another thread owns it, or none.
    NotOwner(u32),
}

/// What the two words of a monitor say.
#[verifier::ext_equal]
pub struct MonitorState {
    pub owner: u32,
    pub count: u32,
}

impl MonitorState {
    /// Nobody is inside.
    pub open spec fn free() -> MonitorState {
        MonitorState { owner: NO_OWNER, count: 0 }
    }

    /// After thread `vt` has entered, or `None` if it has to wait.
    pub open spec fn entered(self, vt: u32) -> Option<MonitorState> {
        if self.owner == vt {
            Some(MonitorState { count: self.count.wrapping_add(1), ..self })
        } else if self.owner == NO_OWNER {
            Some(MonitorState { owner: vt, count: 1 })
        } else {
            None
        }
    }

    /// After thread `vt` has left, or `None` if it is not the owner.
    pub open spec fn exited(self, vt: u32) -> Option<MonitorState> {
        if self.owner != vt {
            None
        } else {
            Some(
                MonitorState {
                    owner: if self.count == 1 {
                        NO_OWNER
                    } else {
                        vt
                    },
                    count: self.count.wrapping_sub(1),
                },
            )
        }
    }
}

/// An attempt to enter a monitor: how it went, the owner that was seen, and what was done to the words.
pub struct Entering {
    pub how: Entered,
    pub seen: u32,
    pub look: Loaded32,
    /// The depth found, if the thread owned the monitor, and the record of adding to it.
    pub deeper: Option<(u32, Added32)>,
    /// The owner found, if the thread did not own it, and the record of the exchange.
    pub claim: Option<(Result<u32, u32>, Exchanged32)>,
    /// The record of setting the depth, if the thread became the owner.
    pub first: Option<Stored32>,
}

impl Entering {
    /// Whether this was an attempt of thread `vt` to enter a monitor with given cells. Who is seen to
    /// be the owner adds 1 to the depth. Anyone else puts itself in the place of no owner, and then
    /// sets the depth to 1.
    pub open spec fn enters(self, owner: AtomicU32, count: AtomicU32, vt: u32) -> bool {
        &&& loaded32(self.look) == (owner, self.seen)
        &&& self.deeper is Some <==> self.seen == vt
        &&& self.deeper matches Some((depth, t)) ==> {
            &&& added32(t) == (count, 1u32, depth)
            &&& self.how == Entered::Again
        }
        &&& self.claim is Some <==> self.seen != vt
        &&& self.claim matches Some((found, t)) ==> {
            &&& exchanged32(t) == (owner, NO_OWNER, vt, found)
            &&& match found {
                Ok(o) => o == NO_OWNER && self.how == Entered::First,
                Err(o) => o != NO_OWNER && self.how == Entered::No(o),
            }
        }
        &&& self.first is Some <==> self.how is First
        &&& self.first matches Some(t) ==> stored32(t) == (count, 1u32)
    }

    /// The words that the attempt found. The depth is not looked at where it is overwritten.
    pub open spec fn before(self) -> MonitorState {
        match (self.deeper, self.claim) {
            (Some((depth, _)), _) => MonitorState { owner: self.seen, count: depth },
            (_, Some((Ok(o), _))) => MonitorState { owner: o, count: 0 },
            (_, Some((Err(o), _))) => MonitorState { owner: o, count: 0 },
            _ => MonitorState { owner: self.seen, count: 0 },
        }
    }

    /// The words that the attempt leaves, by its records, or `None` if it changed none.
    pub open spec fn after(self) -> Option<MonitorState> {
        match (self.deeper, self.claim, self.first) {
            (Some((depth, t)), _, _) => Some(
                MonitorState { owner: self.seen, count: depth.wrapping_add(added32(t).1) },
            ),
            (_, Some((Ok(_), t)), Some(d)) => Some(
                MonitorState { owner: exchanged32(t).2, count: stored32(d).1 },
            ),
            _ => None,
        }
    }
}

/// An attempt to leave a monitor: how it went, the owner that was seen, and what was done to the words.
pub struct Leaving {
    pub how: Left,
    pub seen: u32,
    pub look: Loaded32,
    /// The depth found, if the thread owned the monitor, and the record of subtracting from it.
    pub taken: Option<(u32, Taken32)>,
    /// The record of giving the monitor up, if the thread did.
    pub freed: Option<Stored32>,
}

impl Leaving {
    /// Whether this was an attempt of thread `vt` to leave a monitor with given cells. Who is seen to
    /// be the owner subtracts 1 from the depth, and where the depth was 1 stores that there is no
    /// owner. Anyone else changes nothing.
    pub open spec fn leaves(self, owner: AtomicU32, count: AtomicU32, vt: u32) -> bool {
        &&& loaded32(self.look) == (owner, self.seen)
        &&& self.taken is Some <==> self.seen == vt
        &&& self.seen != vt ==> self.how == Left::NotOwner(self.seen)
        &&& self.taken matches Some((depth, t)) ==> {
            &&& taken32(t) == (count, 1u32, depth)
            &&& self.how == (if depth == 1 {
                Left::Outside(depth)
            } else {
                Left::Inside(depth)
            })
        }
        &&& self.freed is Some <==> self.how is Outside
        &&& self.freed matches Some(t) ==> stored32(t) == (owner, NO_OWNER)
    }

    /// The words that the attempt found; the depth only if the thread owned the monitor.
    pub open spec fn before(self) -> MonitorState {
        match self.taken {
            Some((depth, _)) => MonitorState { owner: self.seen, count: depth },
            None => MonitorState { owner: self.seen, count: 0 },
        }
    }

    /// The words that the attempt leaves, by its records, or `None` if it changed none.
    pub open spec fn after(self) -> Option<MonitorState> {
        match self.taken {
            Some((depth, t)) => Some(
                MonitorState {
                    owner: match self.freed {
                        Some(d) => stored32(d).1,
                        None => self.seen,
                    },
                    count: depth.wrapping_sub(taken32(t).1),
                },
            ),
            None => None,
        }
    }
}

/// Reentrant monitor for `synchronized`.
pub struct Monitor {
    /// The owning thread, or [`NO_OWNER`].
    owner: AtomicU32,
    /// Reentry depth; only the owner changes it.
    count: AtomicU32,
}

impl Monitor {
    /// The cell that holds the owner.
    pub closed spec fn owner_cell(&self) -> AtomicU32 {
        self.owner
    }

    /// The cell that holds the depth.
    pub closed spec fn count_cell(&self) -> AtomicU32 {
        self.count
    }

    /// The owner and the depth that the monitor was created with.
    pub closed spec fn start(&self) -> (u32, u32) {
        (cell32_start(self.owner), cell32_start(self.count))
    }

    /// A monitor that nobody is in.
    pub fn new() -> (m: Monitor)
        ensures
            m.start() == (NO_OWNER, 0u32),
    {
        Monitor { owner: new_cell32(NO_OWNER), count: new_cell32(0) }
    }

    /// Try to enter for thread `vt`. Re-entry by the owner only counts. What is left of the words is
    /// what entering makes of the words found.
    pub fn enter(&self, vt: u32) -> (e: Entering)
        ensures
            e.enters(self.owner_cell(), self.count_cell(), vt),
            vt != NO_OWNER && e.before().owner != vt ==> e.after() == e.before().entered(vt),
            e.how is Again ==> e.after() == e.before().entered(vt),
    {
        let (seen, look) = load32(&self.owner);
        match entry_of(seen, vt) {
            Entry::Deeper => {
                let depth = add32(&self.count, 1);
                Entering {
                    how: Entered::Again,
                    seen,
                    look,
                    deeper: Some(depth),
                    claim: None,
                    first: None,
                }
            },
            Entry::Claim => {
                let (found, t) = exchange32(&self.owner, NO_OWNER, vt);
                let claim = Some((found, t));
                match found {
                    Ok(_) => {
                        let d = store32(&self.count, 1);
                        Entering {
                            how: Entered::First,
                            seen,
                            look,
                            deeper: None,
                            claim,
                            first: Some(d),
                        }
                    },
                    Err(other) => Entering {
                        how: Entered::No(other),
                        seen,
                        look,
                        deeper: None,
                        claim,
                        first: None,
                    },
                }
            },
        }
    }

    /// Leave for thread `vt`. Gives the monitor up when the reentry depth reaches zero. Who is not
    /// the owner changes nothing. What is left of the words is what leaving makes of the words found.
    pub fn exit(&self, vt: u32) -> (l: Leaving)
        ensures
            l.leaves(self.owner_cell(), self.count_cell(), vt),
            l.after() == l.before().exited(vt),
    {
        let (seen, look) = load32(&self.owner);
        match entry_of(seen, vt) {
            Entry::Claim => Leaving {
                how: Left::NotOwner(seen),
                seen,
                look,
                taken: None,
                freed: None,
            },
            Entry::Deeper => {
                let (depth, t) = sub32(&self.count, 1);
                let taken = Some((depth, t));
                if gives_up(depth) {
                    let d = store32(&self.owner, NO_OWNER);
                    Leaving { how: Left::Outside(depth), seen, look, taken, freed: Some(d) }
                } else {
                    Leaving { how: Left::Inside(depth), seen, look, taken, freed: None }
                }
            },
        }
    }

    /// The owner that was found, if there was one.
    pub fn owner(&self) -> (o: Option<u32>)
        ensures
            exists|t: Loaded32|
                (#[trigger] loaded32(t)).0 == self.owner_cell() && o == named_owner(loaded32(t).1),
    {
        let (word, look) = load32(&self.owner);
        assert(loaded32(look).0 == self.owner_cell());
        owner_of(word)
    }
}

impl Default for Monitor {
    fn default() -> (m: Monitor)
        ensures
            m.start() == (NO_OWNER, 0u32),
    {
        Monitor::new()
    }
}

impl MonitorState {
    /// After thread `vt` has entered `n` times.
    pub open spec fn entered_times(self, vt: u32, n: nat) -> Option<MonitorState>
        decreases n,
    {
        if n == 0 {
            Some(self)
        } else {
            match self.entered_times(vt, (n - 1) as nat) {
                Some(m) => m.entered(vt),
                None => None,
            }
        }
    }
}

proof fn lemma_entered_times(vt: u32, n: nat)
    requires
        vt != NO_OWNER,
        n <= u32::MAX,
    ensures
        MonitorState::free().entered_times(vt, n) == Some(
            if n == 0 {
                MonitorState::free()
            } else {
                MonitorState { owner: vt, count: n as u32 }
            },
        ),
    decreases n,
{
    if n > 0 {
        lemma_entered_times(vt, (n - 1) as nat);
    }
}

/// The monitor is reentrant: a thread can enter again and again, every exit takes back one entry,
/// and the monitor is free again only when every entry is taken back. Meanwhile no other thread gets
/// in or out.
pub proof fn lemma_monitor_is_reentrant(vt: u32, n: nat, other: u32)
    requires
        vt != NO_OWNER,
        0 < n <= u32::MAX,
        other != vt,
    ensures
        ({
            let m = MonitorState::free().entered_times(vt, n);
            &&& m is Some
            &&& m->0.owner == vt
            &&& m->0.exited(vt) == MonitorState::free().entered_times(vt, (n - 1) as nat)
            &&& m->0.entered(other) is None
            &&& m->0.exited(other) is None
        }),
{
    lemma_entered_times(vt, n);
    lemma_entered_times(vt, (n - 1) as nat);
}

/// A lock lets in whom it can: a reader unless a writer is inside or waits or the count is full, one
/// writer to wait, and a writer to enter when nobody is inside. Who leaves takes back that they came.
pub proof fn lemma_locks_let_in(s: LockState, max: nat)
    ensures
        s.after(LockMove::Enter, max) is Some <==> !s.held && !s.waiting && s.readers < max,
        s.after(LockMove::Announce, max) is Some <==> !s.waiting,
        s.after(LockMove::Claim, max) is Some <==> s.readers == 0 && !s.held,
        s.after(LockMove::Enter, max) matches Some(t) ==> {
            &&& t.readers == s.readers + 1
            &&& t.waiting == s.waiting && t.held == s.held
            &&& t.after(LockMove::Leave, max) == Some(s)
        },
        s.after(LockMove::Announce, max) matches Some(t) ==> t.waiting && t.readers == s.readers
            && t.held == s.held,
        s.after(LockMove::Claim, max) matches Some(t) ==> {
            &&& t.held && !t.waiting && t.readers == 0
            &&& t.after(LockMove::Release, max) matches Some(u) && !u.held && !u.waiting
                && u.readers == 0
        },
        s.after(LockMove::Release, max) matches Some(t) && !t.held && t.waiting == s.waiting
            && t.readers == s.readers,
{
}

/// The words: bit 0 says that a writer is inside, bit 1 that one waits, and the rest counts readers.
pub proof fn lemma_words_spell_states(s: u16, t: u32)
    ensures
        ({
            let a = state16(s);
            s == 4 * a.readers + (if a.waiting {
                2int
            } else {
                0
            }) + (if a.held {
                1int
            } else {
                0
            })
        }),
        ({
            let a = state32(t);
            t == 4 * a.readers + (if a.waiting {
                2int
            } else {
                0
            }) + (if a.held {
                1int
            } else {
                0
            })
        }),
        state16(s).readers <= MAX_READERS_16,
        state32(t).readers <= MAX_READERS_32,
        4 * MAX_READERS_16 + 3 == u16::MAX,
        4 * MAX_READERS_32 + 3 == u32::MAX,
{
    lemma_three_parts(s as int);
    lemma_three_parts(t as int);
}

/// A writer that has to announce itself and to enter has come as far as what succeeded: it waits when
/// only its announcement did, and wants as before when nothing did.
pub proof fn lemma_writers_come_as_far_as_they_get(from: Writing, announced: bool, claimed: bool)
    ensures
        from is Wants ==> from.after(announced, claimed) == (match (announced, claimed) {
            (false, _) => Writing::Wants,
            (true, false) => Writing::Waits,
            (true, true) => Writing::Holds,
        }),
        from is Waits && !claimed ==> from.after(announced, claimed) is Waits,
        from is Waits && claimed ==> from.after(announced, claimed) is Holds,
{
}

/// A free monitor lets anyone in, and nobody out.
pub proof fn lemma_free_monitors_let_in(vt: u32)
    requires
        vt != NO_OWNER,
    ensures
        MonitorState::free().entered(vt) == Some(MonitorState { owner: vt, count: 1 }),
        MonitorState::free().exited(vt) is None,
        named_owner(MonitorState::free().owner) is None,
        named_owner(vt) == Some(vt),
{
}

} // verus!
