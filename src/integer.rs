use vstd::prelude::*;
use crate::types::{ArrayTypeId, tag_byte};
use crate::stream::WriterStream;
use crate::compressors::all_at_most;
use crate::select::{Width, Emitted, width_max, width_bits, palette, base_out, candidate_out, select_from, framed_payload, select, lemma_select_not_void};

verus! {

/// Largest value of `s`, 0 when empty.
pub open spec fn seq_max(s: Seq<u64>) -> nat
    decreases s.len(),
{
    if s.len() == 0 {
        0
    } else if seq_max(s.drop_last()) >= s.last() {
        seq_max(s.drop_last())
    } else {
        s.last() as nat
    }
}

/// The next narrower width.
pub open spec fn lower_width(w: Width) -> Option<Width> {
    match w {
        Width::U64 => Some(Width::U32),
        Width::U32 => Some(Width::U16),
        Width::U16 => Some(Width::U8),
        Width::U8 => None,
    }
}

/// The width reached by narrowing from `w` while the maximum `m` fits the next one down.
pub open spec fn lowered(w: Width, m: nat) -> Width
    decreases width_bits(w),
{
    match lower_width(w) {
        Some(l) => if m <= width_max(l) {
            lowered(l, m)
        } else {
            w
        },
        None => w,
    }
}

/// One byte per value: 1 for a value of 1, else 0.
pub open spec fn bool_bytes(s: Seq<u64>) -> Seq<u8> {
    s.map_values(|v: u64| if v == 1 { 1u8 } else { 0u8 })
}

/// What flushing an array of width `w` emits: `Void` when empty; a boolean
/// branch when every value is 0 or 1; else the selection at the lowered width.
pub open spec fn flush_out(s: Seq<u64>, w: Width) -> Emitted {
    if s.len() == 0 {
        (ArrayTypeId::Void, Seq::empty(), Seq::empty(), 0)
    } else if seq_max(s) <= 1 {
        framed_payload(ArrayTypeId::Boolean, bool_bytes(s))
    } else {
        select_from(lowered(w, seq_max(s)), true, 0, s)->0
    }
}

/// Simple16's guarantee holds for every payload of the branch that Simple16 packed.
pub open spec fn flush_sound(s: Seq<u64>, w: Width) -> bool {
    &&& flush_out(s, w).0 == ArrayTypeId::IntSimple16 ==> crate::compressors::simple16_sound(s)
    &&& flush_out(s, w).0 == ArrayTypeId::RLE ==> crate::select::children_sound(lowered(w, seq_max(s)), s)
}

pub proof fn lemma_seq_max_bounds(s: Seq<u64>)
    ensures
        all_at_most(s, seq_max(s)),
        s.len() > 0 ==> exists|i: int| 0 <= i < s.len() && s[i] == seq_max(s),
    decreases s.len(),
{
    if s.len() > 0 {
        lemma_seq_max_bounds(s.drop_last());
        if s.len() > 1 && seq_max(s.drop_last()) >= s.last() {
            let i = choose|i: int| 0 <= i < s.len() - 1 && s.drop_last()[i] == seq_max(s.drop_last());
            assert(s[i] == seq_max(s));
        } else {
            assert(s[s.len() - 1] == seq_max(s));
        }
        assert forall|i: int| 0 <= i < s.len() implies s[i] <= seq_max(s) by {
            if i < s.len() - 1 {
                assert(s[i] == s.drop_last()[i]);
            }
        }
    }
}

pub proof fn lemma_lowered_fits(w: Width, m: nat)
    requires
        m <= width_max(w),
    ensures
        m <= width_max(lowered(w, m)),
        width_bits(lowered(w, m)) <= width_bits(w),
    decreases width_bits(w),
{
    if let Some(l) = lower_width(w) {
        if m <= width_max(l) {
            lemma_lowered_fits(l, m);
        }
    }
}

/// Selection succeeds when some candidate from `i` on succeeds.
pub proof fn lemma_select_some(w: Width, with_rle: bool, i: int, j: int, s: Seq<u64>)
    requires
        0 <= i <= j < palette(w, with_rle).len(),
        candidate_out(w, with_rle, j, s) is Some,
    ensures
        select_from(w, with_rle, i, s) is Some,
    decreases j - i,
{
    if i < j {
        lemma_select_some(w, with_rle, i + 1, j, s);
    }
}

/// Every palette has a candidate that never declines on values of its width.
pub proof fn lemma_select_total(w: Width, with_rle: bool, s: Seq<u64>)
    requires
        all_at_most(s, width_max(w)),
    ensures
        select_from(w, with_rle, 0, s) is Some,
{
    let pal = palette(w, with_rle);
    let j: int = if w == Width::U64 { 0 } else { 1 };
    assert(candidate_out(w, with_rle, j, s) == base_out(pal[j], s));
    lemma_select_some(w, with_rle, 0, j, s);
}

/// Largest value of `data`, 0 when empty.
pub fn max_of(data: &Vec<u64>) -> (r: u64)
    ensures
        r == seq_max(data@),
{
    let mut m: u64 = 0;
    let mut i: usize = 0;
    while i < data.len()
        invariant
            i <= data@.len(),
            m == seq_max(data@.take(i as int)),
        decreases data@.len() - i,
    {
        assert(data@.take(i + 1).drop_last() =~= data@.take(i as int));
        if data[i] > m {
            m = data[i];
        }
        i = i + 1;
    }
    assert(data@.take(i as int) =~= data@);
    m
}

/// Narrows `w` while `max` fits the next width down.
pub fn lower_for(w: Width, max: u64) -> (r: Width)
    ensures
        r == lowered(w, max as nat),
    decreases width_bits(w),
{
    match w {
        Width::U64 => if max <= 0xffff_ffff { lower_for(Width::U32, max) } else { w },
        Width::U32 => if max <= 0xffff { lower_for(Width::U16, max) } else { w },
        Width::U16 => if max <= 0xff { lower_for(Width::U8, max) } else { w },
        Width::U8 => w,
    }
}

/// Flushes a buffered array of width `w`: writes its payload and the lengths,
/// and returns its tag. The caller writes the tag.
pub fn flush(data: &Vec<u64>, w: Width, stream: &mut WriterStream) -> (r: ArrayTypeId)
    requires
        all_at_most(data@, width_max(w)),
    ensures
        r == flush_out(data@, w).0,
        final(stream).bytes@ == old(stream).bytes@ + flush_out(data@, w).1,
        final(stream).lens@ == old(stream).lens@ + flush_out(data@, w).2,
        final(stream).tags@ == old(stream).tags@ + flush_out(data@, w).3,
        old(stream).framed() ==> final(stream).framed(),
        flush_sound(data@, w),
{
    if data.len() == 0 {
        assert(old(stream).bytes@ + Seq::<u8>::empty() =~= old(stream).bytes@);
        assert(old(stream).lens@ + Seq::<usize>::empty() =~= old(stream).lens@);
        return ArrayTypeId::Void;
    }
    let max = max_of(data);
    proof {
        lemma_seq_max_bounds(data@);
    }
    if max <= 1 {
        let start = stream.position();
        let mut i: usize = 0;
        while i < data.len()
            invariant
                i <= data@.len(),
                start == old(stream).bytes@.len(),
                stream.bytes@ == old(stream).bytes@ + bool_bytes(data@.take(i as int)),
                stream.lens@ == old(stream).lens@,
                stream.tags@ == old(stream).tags@,
            decreases data@.len() - i,
        {
            stream.bytes.push(if data[i] == 1 { 1u8 } else { 0u8 });
            i = i + 1;
            assert(stream.bytes@ =~= old(stream).bytes@ + bool_bytes(data@.take(i as int)));
        }
        assert(data@.take(i as int) =~= data@);
        stream.write_with_len(start);
        assert(stream.lens@ =~= old(stream).lens@ + seq![bool_bytes(data@).len() as usize]);
        return ArrayTypeId::Boolean;
    }
    let v = lower_for(w, max);
    proof {
        lemma_lowered_fits(w, max as nat);
        lemma_select_total(v, true, data@);
    }
    let chosen = select(data, v, true);
    match chosen {
        Some((id, out)) => {
            crate::select::append_stream(stream, &out);
            id
        },
        None => {
            proof {
                assert(false);
            }
            ArrayTypeId::Void
        },
    }
}

/// Writes one array branch: a tag byte, then the flushed payload.
pub fn write_array(data: &Vec<u64>, w: Width, stream: &mut WriterStream) -> (r: ArrayTypeId)
    requires
        all_at_most(data@, width_max(w)),
    ensures
        r == flush_out(data@, w).0,
        final(stream).bytes@ == old(stream).bytes@ + seq![tag_byte(r)] + flush_out(data@, w).1,
        final(stream).lens@ == old(stream).lens@ + flush_out(data@, w).2,
        final(stream).tags@ == old(stream).tags@ + 1 + flush_out(data@, w).3,
        old(stream).framed() ==> final(stream).framed(),
        flush_sound(data@, w),
{
    let hole = stream.reserve_id();
    let ghost mid = stream.bytes@;
    let id = flush(data, w, stream);
    proof {
        if data@.len() > 0 && seq_max(data@) > 1 {
            lemma_seq_max_bounds(data@);
            lemma_lowered_fits(w, seq_max(data@));
            lemma_select_total(lowered(w, seq_max(data@)), true, data@);
            lemma_select_not_void(lowered(w, seq_max(data@)), true, 0, data@);
        }
    }
    stream.write_with_id(hole, id);
    assert(stream.bytes@ =~= old(stream).bytes@ + seq![tag_byte(id)] + flush_out(data@, w).1);
    id
}

/// Lowering never keeps a width the data does not need: when the maximum of
/// a non-boolean array fits the next narrower width, the branch is chosen
/// from the palette of a width no wider than that one.
pub proof fn lemma_lowering_narrows(s: Seq<u64>, w: Width)
    requires
        s.len() > 0,
        all_at_most(s, width_max(w)),
        lower_width(w) is Some,
        1 < seq_max(s) <= width_max(lower_width(w)->0),
    ensures
        width_bits(lowered(w, seq_max(s))) <= width_bits(lower_width(w)->0),
        seq_max(s) <= width_max(lowered(w, seq_max(s))),
        select_from(lowered(w, seq_max(s)), true, 0, s) is Some,
        flush_out(s, w) == select_from(lowered(w, seq_max(s)), true, 0, s)->0,
{
    lemma_seq_max_bounds(s);
    lemma_lowered_fits(lower_width(w)->0, seq_max(s));
    lemma_select_total(lowered(w, seq_max(s)), true, s);
}

/// An empty array flushes as `Void`, with no payload, no lengths and no tags.
pub proof fn lemma_empty_is_void(w: Width)
    ensures
        flush_out(Seq::empty(), w) == (ArrayTypeId::Void, Seq::<u8>::empty(), Seq::<usize>::empty(), 0nat),
{
}

} // verus!
