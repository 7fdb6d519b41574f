use vstd::prelude::*;
use crate::types::{ArrayTypeId, tag_byte};
use crate::varint::{size_for_varint, write_varint_sized, varint_bytes_sized, varint_size, lemma_varint_size_fits};

verus! {

/// Sum of the recorded payload lengths.
pub open spec fn lens_sum(lens: Seq<usize>) -> nat
    decreases lens.len(),
{
    if lens.len() == 0 {
        0
    } else {
        lens_sum(lens.drop_last()) + lens.last() as nat
    }
}

/// An append-only byte stream with a sidecar of payload lengths, recorded in
/// the order their scopes close.
pub struct WriterStream {
    pub bytes: Vec<u8>,
    pub lens: Vec<usize>,
    /// How many type tag bytes have been reserved so far.
    pub tags: Ghost<nat>,
}

impl WriterStream {
    /// Every byte is either a type tag or lies in a length-framed payload.
    pub open spec fn framed(&self) -> bool {
        self.bytes@.len() == lens_sum(self.lens@) + self.tags@
    }

    pub fn new() -> (r: Self)
        ensures
            r.bytes@ == Seq::<u8>::empty(),
            r.lens@ == Seq::<usize>::empty(),
            r.tags@ == 0,
            r.framed(),
    {
        WriterStream { bytes: Vec::new(), lens: Vec::new(), tags: Ghost(0) }
    }

    /// Current end of the stream.
    pub fn position(&self) -> (r: usize)
        ensures
            r == self.bytes@.len(),
    {
        self.bytes.len()
    }

    /// Reserves the one-byte hole of a type tag and returns where it is.
    pub fn reserve_id(&mut self) -> (hole: usize)
        ensures
            hole == old(self).bytes@.len(),
            final(self).bytes@ == old(self).bytes@.push(0),
            final(self).lens@ == old(self).lens@,
            final(self).tags@ == old(self).tags@ + 1,
    {
        let hole = self.bytes.len();
        self.bytes.push(0);
        self.tags = Ghost(self.tags@ + 1);
        hole
    }

    /// Closes a tag scope: writes `id` into the hole. A `Void` branch has no
    /// payload, so the hole must be the last byte.
    pub fn write_with_id(&mut self, hole: usize, id: ArrayTypeId)
        requires
            hole < old(self).bytes@.len(),
            id == ArrayTypeId::Void ==> hole + 1 == old(self).bytes@.len(),
        ensures
            final(self).bytes@ == old(self).bytes@.update(hole as int, tag_byte(id)),
            final(self).lens@ == old(self).lens@,
            final(self).tags@ == old(self).tags@,
    {
        self.bytes.set(hole, id.to_byte());
    }

    /// Closes a length scope opened at `start`: records the bytes written since.
    pub fn write_with_len(&mut self, start: usize)
        requires
            start <= old(self).bytes@.len(),
        ensures
            final(self).bytes@ == old(self).bytes@,
            final(self).lens@ == old(self).lens@.push((old(self).bytes@.len() - start) as usize),
            lens_sum(final(self).lens@) == lens_sum(old(self).lens@) + (old(self).bytes@.len() - start),
            final(self).tags@ == old(self).tags@,
    {
        let n = self.bytes.len() - start;
        self.lens.push(n);
        assert(self.lens@.drop_last() =~= old(self).lens@);
    }

    /// Drops what was written since `restore` when the scope turned out `Void`.
    pub fn restore_if_void(&mut self, restore: usize, id: ArrayTypeId) -> (r: ArrayTypeId)
        requires
            restore <= old(self).bytes@.len(),
        ensures
            r == id,
            id == ArrayTypeId::Void ==> final(self).bytes@ == old(self).bytes@.subrange(0, restore as int),
            id != ArrayTypeId::Void ==> final(self).bytes@ == old(self).bytes@,
            final(self).lens@ == old(self).lens@,
            final(self).tags@ == old(self).tags@,
    {
        if id == ArrayTypeId::Void {
            self.bytes.truncate(restore);
        }
        id
    }

    /// Reserves room for a varint of any value up to `max`, zero-filled, and
    /// returns where it starts.
    pub fn reserve_and_write_with_varint(&mut self, max: u64) -> (start: usize)
        requires
            old(self).bytes@.len() + 9 <= usize::MAX,
        ensures
            start == old(self).bytes@.len(),
            final(self).bytes@ == old(self).bytes@ + Seq::new(varint_size(max as nat), |_i: int| 0u8),
            final(self).lens@ == old(self).lens@,
            final(self).tags@ == old(self).tags@,
    {
        let reserved = size_for_varint(max);
        let start = self.bytes.len();
        let mut i: usize = 0;
        while i < reserved
            invariant
                i <= reserved,
                reserved == varint_size(max as nat),
                self.bytes@ == old(self).bytes@ + Seq::new(i as nat, |_i: int| 0u8),
                self.lens@ == old(self).lens@,
                self.tags@ == old(self).tags@,
            decreases reserved - i,
        {
            self.bytes.push(0);
            i = i + 1;
            assert(self.bytes@ =~= old(self).bytes@ + Seq::new(i as nat, |_i: int| 0u8));
        }
        start
    }

    /// Fills a hole made by `reserve_and_write_with_varint(max)` with the varint
    /// of `v`, written in the full width of the hole.
    pub fn write_reserved_varint(&mut self, start: usize, max: u64, v: u64)
        requires
            v <= max,
            start + varint_size(max as nat) <= old(self).bytes@.len(),
        ensures
            final(self).bytes@ == old(self).bytes@.subrange(0, start as int)
                + varint_bytes_sized(v as nat, varint_size(max as nat))
                + old(self).bytes@.subrange(start + varint_size(max as nat), old(self).bytes@.len() as int),
            final(self).lens@ == old(self).lens@,
            final(self).tags@ == old(self).tags@,
    {
        let n = size_for_varint(max);
        proof {
            lemma_varint_size_fits(max as nat, n as nat);
            lemma_varint_size_fits(v as nat, n as nat);
        }
        let mut code: Vec<u8> = Vec::new();
        write_varint_sized(v, n, &mut code);
        assert(code@ =~= varint_bytes_sized(v as nat, n as nat));
        let total = self.bytes.len();
        let mut i: usize = 0;
        while i < n
            invariant
                i <= n,
                total == old(self).bytes@.len(),
                start + n <= total,
                n == varint_size(max as nat),
                code@.len() == n,
                start + n <= old(self).bytes@.len(),
                self.bytes@.len() == old(self).bytes@.len(),
                forall|j: int| 0 <= j < start ==> self.bytes@[j] == old(self).bytes@[j],
                forall|j: int| start + n <= j < self.bytes@.len() ==> self.bytes@[j] == old(self).bytes@[j],
                forall|j: int| 0 <= j < i ==> self.bytes@[start + j] == code@[j],
                self.lens@ == old(self).lens@,
                self.tags@ == old(self).tags@,
            decreases n - i,
        {
            self.bytes.set(start + i, code[i]);
            i = i + 1;
        }
        assert(self.bytes@ =~= old(self).bytes@.subrange(0, start as int) + code@
            + old(self).bytes@.subrange(start + n, old(self).bytes@.len() as int));
    }
}

} // verus!
