//! Pointers packed with a small integer tag in their spare
//! most-significant bits.
//!
//! The scheduler publishes the task a worker currently executes through a
//! word that holds both a pointer and a count of threads that have signalled
//! intent to join that task. This module models that word over plain 64-bit
//! values: the pointer is an address below [`ADDR_LIMIT`], the tag a count
//! below [`TAG_LIMIT`], and both are packed into one word exactly as the
//! runtime does it. The atomic cell holding such a word is modelled
//! sequentially: every operation owns the cell exclusively for its duration,
//! which is what the hardware guarantees for one atomic instruction.

use vstd::prelude::*;

verus! {

/// Number of spare most-significant bits of a pointer word that hold the tag.
pub const TAG_BITS: u64 = 16;

/// Tags must stay below this bound; otherwise they would overflow into the
/// pointer bits.
pub const TAG_LIMIT: u64 = 0x1_0000;

/// Addresses must stay below this bound (48-bit address space), so that the
/// address survives being shifted into the upper bits of the word.
pub const ADDR_LIMIT: u64 = 0x1_0000_0000_0000;

/// A word holding a pointer in its upper bits and a tag in its lower bits.
#[derive(Clone, Copy)]
pub struct TaggedPtr {
    value: u64,
}

impl View for TaggedPtr {
    type V = (u64, u64);

    /// The decoded (address, tag) pair.
    closed spec fn view(&self) -> (u64, u64) {
        (self.value >> 16, self.value & 0xFFFF)
    }
}

/// Packing an address and a tag and decoding the word again gives the pair
/// back unchanged, for every address and tag within the supported widths.
pub proof fn lemma_tagged_round_trip(addr: u64, tag: u64)
    by (bit_vector)
    requires
        addr < 0x1_0000_0000_0000,
        tag < 0x1_0000,
    ensures
        ((addr << 16) | tag) >> 16 == addr,
        ((addr << 16) | tag) & 0xFFFF == tag,
{
}

impl TaggedPtr {
    /// Packs an address and a tag into one word.
    pub fn new(ptr: u64, tag: u64) -> (r: TaggedPtr)
        requires
            ptr < ADDR_LIMIT,
            tag < TAG_LIMIT,
        ensures
            r@ == (ptr, tag),
    {
        proof {
            lemma_tagged_round_trip(ptr, tag);
        }
        TaggedPtr { value: (ptr << 16) | tag }
    }

    /// Packs an address and a tag, or reports that either is too wide for
    /// its field instead of corrupting the other field's bits.
    pub fn try_new(ptr: u64, tag: u64) -> (r: Option<TaggedPtr>)
        ensures
            ptr < ADDR_LIMIT && tag < TAG_LIMIT ==> r is Some && r->0@ == (ptr, tag),
            !(ptr < ADDR_LIMIT && tag < TAG_LIMIT) ==> r is None,
    {
        if ptr < ADDR_LIMIT && tag < TAG_LIMIT {
            Some(TaggedPtr::new(ptr, tag))
        } else {
            None
        }
    }

    /// The address stored in the word.
    pub fn ptr(self) -> (r: u64)
        ensures
            r == self@.0,
    {
        self.value >> 16
    }

    /// The tag stored in the word.
    pub fn tag(self) -> (r: u64)
        ensures
            r == self@.1,
    {
        self.value & 0xFFFF
    }
}

/// A cell holding a [`TaggedPtr`], with the operations the runtime performs
/// on its activity slots. Each operation is one atomic instruction in the
/// runtime; the model therefore gives each operation the whole cell.
pub struct AtomicTaggedPtr {
    value: TaggedPtr,
}

impl View for AtomicTaggedPtr {
    type V = (u64, u64);

    /// The decoded (address, tag) pair currently stored.
    closed spec fn view(&self) -> (u64, u64) {
        self.value@
    }
}

impl AtomicTaggedPtr {
    pub fn new(value: TaggedPtr) -> (r: AtomicTaggedPtr)
        ensures
            r@ == value@,
    {
        AtomicTaggedPtr { value }
    }

    pub fn load(&self) -> (r: TaggedPtr)
        ensures
            r@ == self@,
    {
        self.value
    }

    pub fn store(&mut self, new: TaggedPtr)
        ensures
            final(self)@ == new@,
    {
        self.value = new;
    }

    /// Replaces the stored word when it equals `current`; reports the word
    /// that was found either way.
    pub fn compare_exchange(&mut self, current: TaggedPtr, new: TaggedPtr) -> (r: Result<
        TaggedPtr,
        TaggedPtr,
    >)
        ensures
            old(self)@ == current@ ==> final(self)@ == new@ && r is Ok && r->Ok_0@
                == current@,
            old(self)@ != current@ ==> final(self)@ == old(self)@ && r is Err && r->Err_0@
                == old(self)@,
    {
        if self.value.ptr() == current.ptr() && self.value.tag() == current.tag() {
            let found = self.value;
            self.value = new;
            proof {
                assert(found@ == current@);
            }
            Ok(found)
        } else {
            Err(self.value)
        }
    }

    /// The runtime's weak variant may fail spuriously; the sequential model
    /// has no other thread to lose against, so it behaves as the strong one.
    pub fn compare_exchange_weak(&mut self, current: TaggedPtr, new: TaggedPtr) -> (r: Result<
        TaggedPtr,
        TaggedPtr,
    >)
        ensures
            old(self)@ == current@ ==> final(self)@ == new@ && r is Ok && r->Ok_0@
                == current@,
            old(self)@ != current@ ==> final(self)@ == old(self)@ && r is Err && r->Err_0@
                == old(self)@,
    {
        self.compare_exchange(current, new)
    }

    /// Stores `new` and returns the word it replaced.
    pub fn swap(&mut self, new: TaggedPtr) -> (r: TaggedPtr)
        ensures
            final(self)@ == new@,
            r@ == old(self)@,
    {
        let r = self.value;
        self.value = new;
        r
    }

    /// Adds `tag` to the whole word, which adds it to the tag field alone as
    /// long as the tag field does not overflow; returns the previous word.
    pub fn fetch_add_tag(&mut self, tag: u64) -> (r: TaggedPtr)
        requires
            old(self)@.1 + tag < TAG_LIMIT,
        ensures
            final(self)@ == (old(self)@.0, (old(self)@.1 + tag) as u64),
            r@ == old(self)@,
    {
        let r = self.value;
        let v = self.value.value;
        proof {
            lemma_packed_add(v, tag);
        }
        self.value = TaggedPtr { value: v + tag };
        r
    }
}

/// Adding a small count to a packed word touches only the tag field: the
/// address bits are unchanged as long as the tag field does not overflow.
pub proof fn lemma_packed_add(v: u64, d: u64)
    by (bit_vector)
    requires
        (v & 0xFFFF) + d < 0x1_0000,
    ensures
        v + d <= u64::MAX,
        ((v + d) as u64) >> 16 == v >> 16,
        ((v + d) as u64) & 0xFFFF == (v & 0xFFFF) + d,
{
}

} // verus!
