use vstd::prelude::*;
use crate::types::{ArrayTypeId, tag_byte};
use crate::stream::{WriterStream, lens_sum};
use crate::compressors::{
    PrefixVarIntCompressor, Simple16Compressor, BytesCompressor, SIMPLE16_MAX, all_at_most,
    varints, narrow_u32, narrow_u8, simple16_bytes,
};

verus! {

/// An unsigned integer width.
#[derive(Clone, Copy, Debug, PartialEq, Eq, Structural)]
pub enum Width {
    U8,
    U16,
    U32,
    U64,
}

pub open spec fn width_max(w: Width) -> nat {
    match w {
        Width::U8 => 0xff,
        Width::U16 => 0xffff,
        Width::U32 => 0xffff_ffff,
        Width::U64 => 0xffff_ffff_ffff_ffff,
    }
}

/// Number of bits of the width.
pub open spec fn width_bits(w: Width) -> nat {
    match w {
        Width::U8 => 8,
        Width::U16 => 16,
        Width::U32 => 32,
        Width::U64 => 64,
    }
}

/// A candidate compressor.
#[derive(Clone, Copy, Debug, PartialEq, Eq, Structural)]
pub enum Kind {
    PrefixVar,
    Simple16,
    Bytes,
    Rle,
}

/// The candidates offered at a width, in order of preference on ties.
pub open spec fn palette(w: Width, with_rle: bool) -> Seq<Kind> {
    let base = match w {
        Width::U64 => seq![Kind::PrefixVar],
        Width::U32 => seq![Kind::Simple16, Kind::PrefixVar],
        Width::U16 => seq![Kind::Simple16, Kind::PrefixVar],
        Width::U8 => seq![Kind::Simple16, Kind::Bytes],
    };
    if with_rle {
        base.push(Kind::Rle)
    } else {
        base
    }
}

pub fn palette_of(w: Width, with_rle: bool) -> (r: Vec<Kind>)
    ensures
        r@ == palette(w, with_rle),
{
    let mut r: Vec<Kind> = match w {
        Width::U64 => vec![Kind::PrefixVar],
        Width::U32 => vec![Kind::Simple16, Kind::PrefixVar],
        Width::U16 => vec![Kind::Simple16, Kind::PrefixVar],
        Width::U8 => vec![Kind::Simple16, Kind::Bytes],
    };
    if with_rle {
        r.push(Kind::Rle);
    }
    assert(r@ =~= palette(w, with_rle));
    r
}

/// What a compressor emits: its tag, payload bytes, recorded lengths, and the
/// number of tag bytes inside the payload.
pub type Emitted = (ArrayTypeId, Seq<u8>, Seq<usize>, nat);

pub open spec fn framed_payload(id: ArrayTypeId, payload: Seq<u8>) -> Emitted {
    (id, payload, seq![payload.len() as usize], 0)
}

/// What a candidate other than run-length encoding emits for `s`, or `None` when it declines.
pub open spec fn base_out(k: Kind, s: Seq<u64>) -> Option<Emitted> {
    match k {
        Kind::PrefixVar => Some(framed_payload(ArrayTypeId::IntPrefixVar, varints(s))),
        Kind::Simple16 => if all_at_most(s, SIMPLE16_MAX as nat) {
            Some(framed_payload(ArrayTypeId::IntSimple16, simple16_bytes(narrow_u32(s))))
        } else {
            None
        },
        Kind::Bytes => if all_at_most(s, 255) {
            Some(framed_payload(ArrayTypeId::U8, narrow_u8(s)))
        } else {
            None
        },
        Kind::Rle => None,
    }
}

/// The smaller of two outcomes; the first wins a tie.
pub open spec fn better(a: Option<Emitted>, b: Option<Emitted>) -> Option<Emitted> {
    match a {
        None => b,
        Some(x) => match b {
            None => a,
            Some(y) => if x.1.len() <= y.1.len() {
                a
            } else {
                b
            },
        },
    }
}

/// Run-length split of `s`: the length of each run of equal values, and its value.
pub open spec fn rle_of(s: Seq<u64>) -> (Seq<u64>, Seq<u64>)
    decreases s.len(),
{
    if s.len() == 0 {
        (Seq::empty(), Seq::empty())
    } else {
        let (r, v) = rle_of(s.drop_last());
        if v.len() > 0 && v.last() == s.last() {
            (r.update(r.len() - 1, (r.last() + 1) as u64), v)
        } else {
            (r.push(1), v.push(s.last()))
        }
    }
}

/// What the candidate at index `i` of the palette emits for `s`.
pub open spec fn candidate_out(w: Width, with_rle: bool, i: int, s: Seq<u64>) -> Option<Emitted>
    decreases (if with_rle { 1int } else { 0int }), palette(w, with_rle).len() - i, 1int,
{
    let pal = palette(w, with_rle);
    if i < 0 || i >= pal.len() {
        None
    } else if with_rle && pal[i] == Kind::Rle {
        rle_out(w, s)
    } else {
        base_out(pal[i], s)
    }
}

/// Selection over the candidates from index `i` on.
pub open spec fn select_from(w: Width, with_rle: bool, i: int, s: Seq<u64>) -> Option<Emitted>
    decreases (if with_rle { 1int } else { 0int }), palette(w, with_rle).len() - i, 2int,
{
    let pal = palette(w, with_rle);
    if i < 0 || i >= pal.len() {
        None
    } else {
        better(candidate_out(w, with_rle, i, s), select_from(w, with_rle, i + 1, s))
    }
}

/// The branch run-length encoding emits: the runs, then the values, each as a
/// tagged child branch chosen among the width's other candidates.
pub open spec fn rle_out(w: Width, s: Seq<u64>) -> Option<Emitted>
    decreases 1int, 0int, 0int,
{
    let (runs, values) = rle_of(s);
    match select_from(w, false, 0, runs) {
        None => None,
        Some(a) => match select_from(w, false, 0, values) {
            None => None,
            Some(b) => Some(
                (
                    ArrayTypeId::RLE,
                    seq![tag_byte(a.0)] + a.1 + seq![tag_byte(b.0)] + b.1,
                    a.2 + b.2,
                    a.3 + b.3 + 2,
                ),
            ),
        },
    }
}

/// The stream holds exactly what `e` describes.
pub open spec fn holds(id: ArrayTypeId, st: WriterStream, e: Emitted) -> bool {
    id == e.0 && st.bytes@ == e.1 && st.lens@ == e.2 && st.tags@ == e.3 && st.framed()
}

pub open spec fn trial_matches(r: Option<(ArrayTypeId, WriterStream)>, e: Option<Emitted>) -> bool {
    match r {
        None => e is None,
        Some(t) => e is Some && holds(t.0, t.1, e->0),
    }
}

pub proof fn lemma_lens_sum_append(a: Seq<usize>, b: Seq<usize>)
    ensures
        lens_sum(a + b) == lens_sum(a) + lens_sum(b),
    decreases b.len(),
{
    if b.len() == 0 {
        assert(a + b =~= a);
    } else {
        assert((a + b).drop_last() =~= a + b.drop_last());
        lemma_lens_sum_append(a, b.drop_last());
    }
}

/// No candidate's outcome is tagged `Void`.
pub proof fn lemma_select_not_void(w: Width, with_rle: bool, i: int, s: Seq<u64>)
    ensures
        select_from(w, with_rle, i, s) matches Some(e) ==> e.0 != ArrayTypeId::Void,
    decreases palette(w, with_rle).len() - i,
{
    let pal = palette(w, with_rle);
    if 0 <= i < pal.len() {
        lemma_select_not_void(w, with_rle, i + 1, s);
        if with_rle && pal[i] == Kind::Rle {
            assert(candidate_out(w, with_rle, i, s) == rle_out(w, s));
            assert(rle_out(w, s) matches Some(e) ==> e.0 == ArrayTypeId::RLE);
        } else {
            assert(candidate_out(w, with_rle, i, s) == base_out(pal[i], s));
            assert(base_out(pal[i], s) matches Some(e) ==> e.0 != ArrayTypeId::Void);
        }
    }
}

/// Appends all of `other` to `stream`.
pub fn append_stream(stream: &mut WriterStream, other: &WriterStream)
    ensures
        final(stream).bytes@ == old(stream).bytes@ + other.bytes@,
        final(stream).lens@ == old(stream).lens@ + other.lens@,
        final(stream).tags@ == old(stream).tags@ + other.tags@,
        old(stream).framed() && other.framed() ==> final(stream).framed(),
{
    let mut i: usize = 0;
    while i < other.bytes.len()
        invariant
            i <= other.bytes@.len(),
            stream.bytes@ == old(stream).bytes@ + other.bytes@.take(i as int),
            stream.lens@ == old(stream).lens@,
            stream.tags@ == old(stream).tags@,
        decreases other.bytes@.len() - i,
    {
        stream.bytes.push(other.bytes[i]);
        i = i + 1;
        assert(stream.bytes@ =~= old(stream).bytes@ + other.bytes@.take(i as int));
    }
    let mut j: usize = 0;
    while j < other.lens.len()
        invariant
            j <= other.lens@.len(),
            stream.bytes@ == old(stream).bytes@ + other.bytes@,
            stream.lens@ == old(stream).lens@ + other.lens@.take(j as int),
            stream.tags@ == old(stream).tags@,
        decreases other.lens@.len() - j,
    {
        stream.lens.push(other.lens[j]);
        j = j + 1;
        assert(stream.lens@ =~= old(stream).lens@ + other.lens@.take(j as int));
    }
    assert(other.bytes@.take(i as int) =~= other.bytes@);
    assert(other.lens@.take(j as int) =~= other.lens@);
    stream.tags = Ghost(stream.tags@ + other.tags@);
    proof {
        lemma_lens_sum_append(old(stream).lens@, other.lens@);
    }
}

/// Where a child of run-length encoding is packed by Simple16, Simple16's
/// guarantee holds for it.
pub open spec fn children_sound(w: Width, s: Seq<u64>) -> bool {
    &&& (select_from(w, false, 0, rle_of(s).0) matches Some(a) && a.0 == ArrayTypeId::IntSimple16)
        ==> crate::compressors::simple16_sound(rle_of(s).0)
    &&& (select_from(w, false, 0, rle_of(s).1) matches Some(c) && c.0 == ArrayTypeId::IntSimple16)
        ==> crate::compressors::simple16_sound(rle_of(s).1)
}

/// Runs one candidate other than run-length encoding into a fresh stream.
fn try_base(k: Kind, data: &Vec<u64>) -> (r: Option<(ArrayTypeId, WriterStream)>)
    requires
        k != Kind::Rle,
    ensures
        trial_matches(r, base_out(k, data@)),
        r matches Some(t) && t.0 == ArrayTypeId::IntSimple16 ==> crate::compressors::simple16_sound(data@),
{
    let mut scratch = WriterStream::new();
    let res = match k {
        Kind::PrefixVar => PrefixVarIntCompressor::new().compress(data, &mut scratch),
        Kind::Simple16 => Simple16Compressor::new().compress(data, &mut scratch),
        _ => BytesCompressor::new().compress(data, &mut scratch),
    };
    match res {
        Ok(id) => {
            assert(scratch.lens@ =~= seq![scratch.bytes@.len() as usize]);
            Some((id, scratch))
        },
        Err(()) => None,
    }
}

/// Splits `data` into runs of equal values.
pub fn rle_split(data: &Vec<u64>) -> (r: (Vec<u64>, Vec<u64>))
    ensures
        (r.0@, r.1@) == rle_of(data@),
{
    let mut runs: Vec<u64> = Vec::new();
    let mut values: Vec<u64> = Vec::new();
    let mut i: usize = 0;
    while i < data.len()
        invariant
            i <= data@.len(),
            (runs@, values@) == rle_of(data@.take(i as int)),
            runs@.len() == values@.len(),
            forall|k: int| 0 <= k < runs@.len() ==> runs@[k] <= i,
        decreases data@.len() - i,
    {
        proof {
            assert(data@.take(i + 1).drop_last() =~= data@.take(i as int));
        }
        let x = data[i];
        if values.len() > 0 && values[values.len() - 1] == x {
            let last = runs.len() - 1;
            let c = runs[last];
            runs.set(last, c + 1);
        } else {
            runs.push(1);
            values.push(x);
        }
        i = i + 1;
    }
    assert(data@.take(i as int) =~= data@);
    (runs, values)
}

/// Run-length encoding as a candidate: both children go through selection
/// among the width's other candidates.
fn try_rle(data: &Vec<u64>, w: Width) -> (r: Option<(ArrayTypeId, WriterStream)>)
    ensures
        trial_matches(r, rle_out(w, data@)),
        r is Some ==> children_sound(w, data@),
    decreases 1int, 0int,
{
    let (runs, values) = rle_split(data);
    let a = select(&runs, w, false);
    let b = select(&values, w, false);
    proof {
        lemma_select_not_void(w, false, 0, runs@);
        lemma_select_not_void(w, false, 0, values@);
    }
    match (a, b) {
        (Some((ida, sa)), Some((idb, sb))) => {
            let mut out = WriterStream::new();
            let hole = out.reserve_id();
            append_stream(&mut out, &sa);
            out.write_with_id(hole, ida);
            let hole2 = out.reserve_id();
            append_stream(&mut out, &sb);
            out.write_with_id(hole2, idb);
            assert(out.bytes@ =~= seq![tag_byte(ida)] + sa.bytes@ + seq![tag_byte(idb)] + sb.bytes@);
            assert(out.lens@ =~= sa.lens@ + sb.lens@);
            proof {
                lemma_lens_sum_append(sa.lens@, sb.lens@);
            }
            Some((ArrayTypeId::RLE, out))
        },
        _ => None,
    }
}

/// The selection engine: trials every candidate of the width's palette and
/// keeps the smallest output, the earliest on ties; `None` when all decline.
pub fn select(data: &Vec<u64>, w: Width, with_rle: bool) -> (r: Option<(ArrayTypeId, WriterStream)>)
    ensures
        trial_matches(r, select_from(w, with_rle, 0, data@)),
        r matches Some(t) && t.0 == ArrayTypeId::IntSimple16 ==> crate::compressors::simple16_sound(data@),
        r matches Some(t) && t.0 == ArrayTypeId::RLE ==> children_sound(w, data@),
    decreases (if with_rle { 1int } else { 0int }), 3int,
{
    let pal = palette_of(w, with_rle);
    let mut best: Option<(ArrayTypeId, WriterStream)> = None;
    let mut i: usize = pal.len();
    while i > 0
        invariant
            i <= pal@.len(),
            pal@ == palette(w, with_rle),
            trial_matches(best, select_from(w, with_rle, i as int, data@)),
            best matches Some(t) && t.0 == ArrayTypeId::IntSimple16 ==> crate::compressors::simple16_sound(data@),
            best matches Some(t) && t.0 == ArrayTypeId::RLE ==> children_sound(w, data@),
        decreases i,
    {
        i = i - 1;
        let k = pal[i];
        let here = if with_rle && k == Kind::Rle {
            try_rle(data, w)
        } else {
            proof {
                assert(k != Kind::Rle);
            }
            try_base(k, data)
        };
        assert(candidate_out(w, with_rle, i as int, data@) == if with_rle && k == Kind::Rle {
            rle_out(w, data@)
        } else {
            base_out(k, data@)
        });
        best = match here {
            None => best,
            Some((hid, hs)) => match best {
                None => Some((hid, hs)),
                Some((bid, bs)) => if hs.bytes.len() <= bs.bytes.len() {
                    Some((hid, hs))
                } else {
                    Some((bid, bs))
                },
            },
        };
    }
    best
}

/// Selection is optimal among its candidates: whenever a candidate of the
/// palette succeeds on `s`, selection succeeds too, with a payload no larger.
pub proof fn lemma_selection_optimal(w: Width, with_rle: bool, s: Seq<u64>, k: int)
    requires
        0 <= k < palette(w, with_rle).len(),
        candidate_out(w, with_rle, k, s) is Some,
    ensures
        select_from(w, with_rle, 0, s) is Some,
        (select_from(w, with_rle, 0, s)->0).1.len() <= (candidate_out(w, with_rle, k, s)->0).1.len(),
{
    lemma_select_no_larger(w, with_rle, 0, s, k);
}

proof fn lemma_select_no_larger(w: Width, with_rle: bool, i: int, s: Seq<u64>, k: int)
    requires
        0 <= i <= k < palette(w, with_rle).len(),
        candidate_out(w, with_rle, k, s) is Some,
    ensures
        select_from(w, with_rle, i, s) is Some,
        (select_from(w, with_rle, i, s)->0).1.len() <= (candidate_out(w, with_rle, k, s)->0).1.len(),
    decreases k - i,
{
    if i < k {
        lemma_select_no_larger(w, with_rle, i + 1, s, k);
    }
}

} // verus!
