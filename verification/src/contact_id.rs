//! Identifiers of contacts, and the pool they are drawn from.

use slotmap::{DefaultKey, Key, KeyData, SlotMap};
use vstd::prelude::*;

verus! {

/// The most identifiers a pool can hold.
pub const POOL_LIMIT: usize = 0xffff_fffe;

/// The identifier of a contact, stable while the contact lasts.
#[derive(Clone, Copy, Debug, PartialEq, Eq, Hash, Structural)]
pub struct ContactId {
    pub bits: u64,
}

/// Whether the low half of `bits`, the slot's index, is the one that no slot has.
pub open spec fn null_bits(bits: u64) -> bool {
    bits & 0xffff_ffff == 0xffff_ffff
}

/// Whether the version in the high half of `bits` is odd, as that of every
/// key of a slot map is.
pub open spec fn whole_bits(bits: u64) -> bool {
    bits | 0x1_0000_0000 == bits
}

impl ContactId {
    /// Whether this is an identifier that no contact ever gets from a pool.
    pub open spec fn null(self) -> bool {
        null_bits(self.bits)
    }

    /// The identifier of a contact that has none yet.
    pub fn invalid() -> (id: ContactId)
        ensures
            id.bits == 0x1_ffff_ffff,
            id.null(),
    {
        assert(0x1_ffff_ffffu64 & 0xffff_ffff == 0xffff_ffff) by (bit_vector);
        ContactId { bits: 0x1_ffff_ffff }
    }

    /// Whether this is an identifier that no contact ever gets from a pool.
    pub fn is_null(&self) -> (r: bool)
        ensures
            r == self.null(),
    {
        self.bits & 0xffff_ffff == 0xffff_ffff
    }
}

/// The slot map behind the pool.
#[verifier::external_body]
pub struct IdSlots {
    slots: SlotMap<DefaultKey, bool>,
}

/// The keys that a slot map holds, each as the 64 bits that stand for it and
/// with the mark stored under it.
pub uninterp spec fn slot_marks(slots: IdSlots) -> Map<u64, bool>;

/// `SlotMap::with_key`: a new slot map, which holds nothing.
#[verifier::external_body]
fn slots_new() -> (made: IdSlots)
    ensures
        slot_marks(made) == (Map::<u64, bool>::empty()),
{
    IdSlots { slots: SlotMap::with_key() }
}

/// `SlotMap::len`: the number of keys held.
#[verifier::external_body]
fn slots_len(slots: &IdSlots) -> (n: usize)
    ensures
        n == slot_marks(*slots).dom().len(),
{
    slots.slots.len()
}

/// `SlotMap::insert`: stores `mark` under a key that the map did not hold,
/// that is not null and whose version is odd, and returns the key. Every
/// other key keeps its mark.
/// The slot map panics only when all of its slots are taken, which the bound
/// on the number of keys held leaves out.
#[verifier::external_body]
fn slots_insert(slots: &mut IdSlots, mark: bool) -> (bits: u64)
    requires
        slot_marks(*old(slots)).dom().len() < POOL_LIMIT,
    ensures
        !slot_marks(*old(slots)).dom().contains(bits),
        !null_bits(bits),
        whole_bits(bits),
        slot_marks(*final(slots)) == slot_marks(*old(slots)).insert(bits, mark),
{
    slots.slots.insert(mark).data().as_ffi()
}

/// `SlotMap::contains_key`, on a key given by its bits: whether the map
/// holds the key that `KeyData::from_ffi` makes of the bits, which is the key
/// with the same index and with the version made odd.
#[verifier::external_body]
fn slots_contains(slots: &IdSlots, bits: u64) -> (r: bool)
    ensures
        r == slot_marks(*slots).dom().contains(bits | 0x1_0000_0000),
{
    slots.slots.contains_key(KeyData::from_ffi(bits).into())
}

/// The index operator of `SlotMap`, on a key that the map holds, given by its
/// bits: stores `mark` under that key. Every other key keeps its mark.
#[verifier::external_body]
fn slots_set(slots: &mut IdSlots, bits: u64, mark: bool)
    requires
        slot_marks(*old(slots)).dom().contains(bits),
    ensures
        slot_marks(*final(slots)) == slot_marks(*old(slots)).insert(bits, mark),
{
    slots.slots[KeyData::from_ffi(bits).into()] = mark;
}

/// Reads a mark and clears it.
pub fn take_mark(mark: &mut bool) -> (was: bool)
    ensures
        was == *old(mark),
        *final(mark) == false,
{
    let was = *mark;
    *mark = false;
    was
}

/// What stays in a pool when the unmarked identifiers leave it: those that
/// were marked, each with its mark cleared.
pub open spec fn swept(marks: Map<u64, bool>) -> Map<u64, bool> {
    Map::new(|bits: u64| marks.dom().contains(bits) && marks[bits], |bits: u64| false)
}

/// `SlotMap::retain`, with a closure that keeps a key exactly when its mark
/// is set, and clears the mark: the marked keys stay, unmarked.
#[verifier::external_body]
fn slots_sweep(slots: &mut IdSlots)
    ensures
        slot_marks(*final(slots)) == swept(slot_marks(*old(slots))),
{
    slots.slots.retain(|_, mark| take_mark(mark));
}


/// The pool of contact identifiers: the identifiers in use, each with a mark
/// that the collection of unused identifiers sets and clears.
pub struct ContactIdPool {
    slots: IdSlots,
    limit: usize,
}

impl View for ContactIdPool {
    type V = Map<u64, bool>;

    closed spec fn view(&self) -> Map<u64, bool> {
        slot_marks(self.slots)
    }
}

impl ContactIdPool {
    /// The most identifiers that the pool may hold.
    pub closed spec fn limit(&self) -> usize {
        self.limit
    }

    /// The pool holds finitely many identifiers, none of them null, and its
    /// limit is one that a pool can have.
    pub open spec fn wf(&self) -> bool {
        &&& self@.dom().finite()
        &&& self.limit() <= POOL_LIMIT
        &&& forall|bits: u64| self@.dom().contains(bits) ==> !null_bits(bits) && whole_bits(bits)
    }

    /// Whether the pool holds `id`.
    pub open spec fn holds(&self, id: ContactId) -> bool {
        self@.dom().contains(id.bits)
    }

    /// Whether no identifier in the pool is marked.
    pub open spec fn unmarked(&self) -> bool {
        forall|bits: u64| self@.dom().contains(bits) ==> !#[trigger] self@[bits]
    }

    /// An empty pool, which may hold as many identifiers as a pool can.
    pub fn new() -> (pool: ContactIdPool)
        ensures
            pool.wf(),
            pool@ == (Map::<u64, bool>::empty()),
            pool.limit() == POOL_LIMIT,
    {
        ContactIdPool { slots: slots_new(), limit: POOL_LIMIT }
    }

    /// An empty pool that may hold `limit` identifiers, or as many as a pool
    /// can where that is less.
    pub fn with_limit(limit: usize) -> (pool: ContactIdPool)
        ensures
            pool.wf(),
            pool@ == (Map::<u64, bool>::empty()),
            pool.limit() == (if limit <= POOL_LIMIT {
                limit
            } else {
                POOL_LIMIT
            }),
    {
        ContactIdPool {
            slots: slots_new(),
            limit: if limit <= POOL_LIMIT {
                limit
            } else {
                POOL_LIMIT
            },
        }
    }

    /// The most identifiers that the pool may hold.
    pub fn limit_of(&self) -> (n: usize)
        ensures
            n == self.limit(),
    {
        self.limit
    }

    /// The number of identifiers in the pool.
    pub fn len(&self) -> (n: usize)
        ensures
            n == self@.dom().len(),
    {
        slots_len(&self.slots)
    }

    /// Whether the pool holds `id`.
    pub fn contains(&self, id: ContactId) -> (r: bool)
        requires
            self.wf(),
        ensures
            r == self.holds(id),
    {
        if id.bits | 0x1_0000_0000 == id.bits {
            let r = slots_contains(&self.slots, id.bits);
            assert(whole_bits(id.bits));
            assert(r == self@.dom().contains(id.bits));
            r
        } else {
            assert(!whole_bits(id.bits));
            false
        }
    }

    /// Draws an identifier that the pool did not hold, unmarked. `None` when
    /// the pool is at its limit, and then the pool is unchanged.
    pub fn allocate(&mut self) -> (r: Option<ContactId>)
        requires
            old(self).wf(),
        ensures
            final(self).wf(),
            final(self).limit() == old(self).limit(),
            r is Some <==> old(self)@.dom().len() < old(self).limit(),
            r matches Some(id) ==> !id.null() && !old(self).holds(id) && final(self)@ == old(self)@.insert(id.bits, false),
            r is None ==> final(self)@ == old(self)@,
    {
        if slots_len(&self.slots) < self.limit {
            let bits: u64 = slots_insert(&mut self.slots, false);
            Some(ContactId { bits })
        } else {
            None
        }
    }

    /// Marks an identifier of the pool as in use.
    pub fn mark(&mut self, id: ContactId)
        requires
            old(self).wf(),
            old(self).holds(id),
        ensures
            final(self).wf(),
            final(self).limit() == old(self).limit(),
            final(self)@ == old(self)@.insert(id.bits, true),
    {
        slots_set(&mut self.slots, id.bits, true);
        assert(self@.dom() =~= old(self)@.dom());
    }

    /// Drops every unmarked identifier and clears the marks of the others.
    pub fn sweep(&mut self)
        requires
            old(self).wf(),
        ensures
            final(self).wf(),
            final(self).limit() == old(self).limit(),
            final(self).unmarked(),
            final(self)@ == swept(old(self)@),
    {
        slots_sweep(&mut self.slots);
        proof {
            vstd::set_lib::lemma_len_subset(self@.dom(), old(self)@.dom());
        }
    }
}

} // verus!
