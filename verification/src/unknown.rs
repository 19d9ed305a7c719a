//! The unknown-field store: a per-message table retaining fields the
//! current schema does not recognize, keyed by field number and wire type.
//!
//! Each entry keeps the field's exact raw bytes, key included, so that
//! re-encoding reproduces them unmodified.

use vstd::prelude::*;

use crate::buffer::WireWrite;
use crate::pb::encoding::WireType;

verus! {

/// One retained field: its number, wire type, and exact raw bytes.
#[derive(Debug, Clone, PartialEq, Eq)]
pub struct UnknownField {
    pub id: u32,
    pub wire_type: WireType,
    pub bytes: Vec<u8>,
}

/// The mathematical image of a retained field.
pub struct UnknownFieldView {
    pub id: u32,
    pub wire_type: WireType,
    pub bytes: Seq<u8>,
}

impl View for UnknownField {
    type V = UnknownFieldView;

    open spec fn view(&self) -> UnknownFieldView {
        UnknownFieldView { id: self.id, wire_type: self.wire_type, bytes: self.bytes@ }
    }
}

/// The raw bytes a sequence of retained fields re-emits, in order.
pub open spec fn unknown_bytes(s: Seq<UnknownFieldView>) -> Seq<u8>
    decreases s.len(),
{
    if s.len() == 0 {
        Seq::empty()
    } else {
        unknown_bytes(s.drop_last()) + s.last().bytes
    }
}

/// Splitting off the last of the first `i + 1` entries.
pub proof fn lemma_unknown_bytes_take(s: Seq<UnknownFieldView>, i: int)
    requires
        0 <= i < s.len(),
    ensures
        unknown_bytes(s.take(i + 1)) == unknown_bytes(s.take(i)) + s[i].bytes,
{
    assert(s.take(i + 1).drop_last() =~= s.take(i));
    assert(s.take(i + 1).last() == s[i]);
}

/// A prefix re-emits no more bytes than the whole store.
pub proof fn lemma_unknown_bytes_take_le(s: Seq<UnknownFieldView>, i: int)
    requires
        0 <= i <= s.len(),
    ensures
        unknown_bytes(s.take(i)).len() <= unknown_bytes(s).len(),
    decreases s.len() - i,
{
    if i < s.len() {
        lemma_unknown_bytes_take(s, i);
        lemma_unknown_bytes_take_le(s, i + 1);
    } else {
        assert(s.take(i) =~= s);
    }
}

/// The per-message store of retained fields.
#[derive(Debug, Clone, PartialEq, Eq)]
pub struct UnknownFields {
    pub entries: Vec<UnknownField>,
}

impl View for UnknownFields {
    type V = Seq<UnknownFieldView>;

    open spec fn view(&self) -> Seq<UnknownFieldView> {
        self.entries@.map_values(|e: UnknownField| e@)
    }
}

impl UnknownFields {
    /// An empty store.
    pub fn new() -> (r: UnknownFields)
        ensures
            r@ == Seq::<UnknownFieldView>::empty(),
    {
        let r = UnknownFields { entries: Vec::new() };
        assert(r@ =~= Seq::<UnknownFieldView>::empty());
        r
    }

    /// How many fields are retained.
    pub fn len(&self) -> (r: usize)
        ensures
            r == self@.len(),
    {
        self.entries.len()
    }

    /// The retained field at `i`, for iteration.
    pub fn get(&self, i: usize) -> (r: &UnknownField)
        requires
            i < self@.len(),
        ensures
            r@ == self@[i as int],
    {
        &self.entries[i]
    }

    /// Retain one field.
    pub fn push_field(&mut self, id: u32, wire_type: WireType, bytes: Vec<u8>)
        ensures
            final(self)@ == old(self)@.push(
                UnknownFieldView { id, wire_type, bytes: bytes@ },
            ),
    {
        self.entries.push(UnknownField { id, wire_type, bytes });
        assert(final(self)@ =~= old(self)@.push(
            UnknownFieldView { id, wire_type, bytes: bytes@ },
        ));
    }

    /// The byte count the store re-emits.
    pub fn byte_len(&self) -> (r: usize)
        requires
            unknown_bytes(self@).len() <= usize::MAX,
        ensures
            r == unknown_bytes(self@).len(),
    {
        let n = self.entries.len();
        let mut total: usize = 0;
        let mut i: usize = 0;
        assert(unknown_bytes(self@.take(0)).len() == 0);
        while i < n
            invariant
                i <= n == self@.len(),
                unknown_bytes(self@).len() <= usize::MAX,
                total == unknown_bytes(self@.take(i as int)).len(),
            decreases n - i,
        {
            proof {
                lemma_unknown_bytes_take(self@, i as int);
                lemma_unknown_bytes_take_le(self@, i + 1);
            }
            total = total + self.entries[i].bytes.len();
            i = i + 1;
        }
        assert(self@.take(n as int) =~= self@);
        total
    }

    /// Re-emit every retained field's exact bytes, in order.
    pub fn encode_fields<W: WireWrite>(&self, w: &mut W)
        requires
            old(w).wwf(),
            old(w).room() >= unknown_bytes(self@).len(),
        ensures
            final(w).wwf(),
            final(w).wview() == old(w).wview() + unknown_bytes(self@),
            final(w).room() == old(w).room() - unknown_bytes(self@).len(),
    {
        let ghost w0 = *w;
        let n = self.entries.len();
        let mut i: usize = 0;
        assert(w.wview() =~= w0.wview() + unknown_bytes(self@.take(0)));
        while i < n
            invariant
                i <= n == self@.len(),
                w.wwf(),
                w0.room() >= unknown_bytes(self@).len(),
                w.wview() == w0.wview() + unknown_bytes(self@.take(i as int)),
                w.room() == w0.room() - unknown_bytes(self@.take(i as int)).len(),
            decreases n - i,
        {
            proof {
                lemma_unknown_bytes_take(self@, i as int);
                lemma_unknown_bytes_take_le(self@, i + 1);
            }
            w.put_slice(self.entries[i].bytes.as_slice());
            assert(w.wview() =~= w0.wview() + unknown_bytes(self@.take(i + 1)));
            i = i + 1;
        }
        assert(self@.take(n as int) =~= self@);
    }
}

} // verus!
