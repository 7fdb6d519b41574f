use vstd::prelude::*;
use crate::types::ArrayTypeId;
use crate::stream::{WriterStream, lens_sum};
use crate::varint::{varint_bytes, varint_size, encode_prefix_varint, size_for_varint, lemma_varint_size_fits};

verus! {

/// Largest value that Simple16 packs.
pub const SIMPLE16_MAX: u64 = 268435455;

#[verifier::external_type_specification]
#[verifier::external_body]
pub struct ExValueOutOfRange(simple_16::ValueOutOfRange);

/// Some value is above what Simple16 packs.
pub open spec fn exceeds_simple16(values: Seq<u32>) -> bool {
    exists|i: int| 0 <= i < values.len() && values[i] > SIMPLE16_MAX
}

/// The bytes `simple_16::compress` appends for `values`.
pub uninterp spec fn simple16_bytes(values: Seq<u32>) -> Seq<u8>;

/// `out` is `v` followed by zeros.
pub open spec fn zero_padded(out: Seq<u32>, v: Seq<u32>) -> bool {
    &&& out.len() >= v.len()
    &&& out.take(v.len() as int) == v
    &&& forall|i: int| v.len() <= i < out.len() ==> out[i] == 0
}

/// Relies on `simple_16::compress`: it first rejects any value above
/// `simple_16::MAX` without writing, else appends whole 32-bit words
/// (`pack`), each holding a selector and as many values as its layout has
/// room for, the unused fields left zero; `simple_16::decompress` unpacks
/// every field of every word, so it gives the values back followed by zeros.
#[verifier::external_body]
fn simple16_compress(values: &Vec<u32>, out: &mut Vec<u8>) -> (r: Result<(), simple_16::ValueOutOfRange>)
    ensures
        r is Err <==> exceeds_simple16(values@),
        r is Err ==> final(out)@ == old(out)@,
        r is Ok ==> final(out)@ == old(out)@ + simple16_bytes(values@),
        r is Ok ==> simple16_bytes(values@).len() % 4 == 0,
        r is Ok ==> simple16_bytes(values@).len() <= 4 * values@.len(),
        r is Ok ==> zero_padded(simple16_values(simple16_bytes(values@)), values@),
{
    simple_16::compress(values.as_slice(), out)
}

/// The values `simple_16::decompress` appends for `bytes`.
pub uninterp spec fn simple16_values(bytes: Seq<u8>) -> Seq<u32>;

/// Relies on `simple_16::decompress`: it fails, writing nothing, exactly when
/// the length is not a multiple of four, else appends the unpacked values.
#[verifier::external_body]
pub(crate) fn simple16_decompress(bytes: &Vec<u8>, out: &mut Vec<u32>) -> (r: Result<(), ()>)
    ensures
        r is Err <==> bytes@.len() % 4 != 0,
        r is Err ==> final(out)@ == old(out)@,
        r is Ok ==> final(out)@ == old(out)@ + simple16_values(bytes@),
{
    simple_16::decompress(bytes.as_slice(), out)
}

/// All values are at most `m`.
pub open spec fn all_at_most(s: Seq<u64>, m: nat) -> bool {
    forall|i: int| 0 <= i < s.len() ==> s[i] <= m
}

/// The shortest prefix varints of `s`, one after the other.
pub open spec fn varints(s: Seq<u64>) -> Seq<u8>
    decreases s.len(),
{
    if s.len() == 0 {
        Seq::empty()
    } else {
        varints(s.drop_last()) + varint_bytes(s.last() as nat)
    }
}

/// Sum of the varint sizes of `s`.
pub open spec fn varints_size(s: Seq<u64>) -> nat
    decreases s.len(),
{
    if s.len() == 0 {
        0
    } else {
        varints_size(s.drop_last()) + varint_size(s.last() as nat)
    }
}

pub open spec fn narrow_u32(s: Seq<u64>) -> Seq<u32> {
    s.map_values(|v: u64| v as u32)
}

pub open spec fn narrow_u8(s: Seq<u64>) -> Seq<u8> {
    s.map_values(|v: u64| v as u8)
}

pub proof fn lemma_varints_len(s: Seq<u64>)
    ensures
        varints(s).len() == varints_size(s),
        varints_size(s) <= 9 * s.len(),
    decreases s.len(),
{
    if s.len() > 0 {
        lemma_varints_len(s.drop_last());
        lemma_varint_size_fits(s.last() as nat, varint_size(s.last() as nat));
    }
}

/// Writes each value as a prefix varint.
pub struct PrefixVarIntCompressor;

impl PrefixVarIntCompressor {
    pub fn new() -> Self {
        PrefixVarIntCompressor
    }

    /// Exact size of what `compress` writes.
    pub fn fast_size_for(&self, data: &Vec<u64>) -> (r: Option<usize>)
        requires
            9 * data@.len() <= usize::MAX,
        ensures
            r == Some(varints_size(data@) as usize),
            varints_size(data@) == varints(data@).len(),
    {
        let mut size: usize = 0;
        let mut i: usize = 0;
        while i < data.len()
            invariant
                i <= data@.len(),
                9 * data@.len() <= usize::MAX,
                size == varints_size(data@.take(i as int)),
                size <= 9 * i,
            decreases data@.len() - i,
        {
            proof {
                assert(data@.take(i + 1).drop_last() =~= data@.take(i as int));
                lemma_varint_size_fits(data@[i as int] as nat, varint_size(data@[i as int] as nat));
            }
            size = size + size_for_varint(data[i]);
            i = i + 1;
        }
        proof {
            assert(data@.take(i as int) =~= data@);
            lemma_varints_len(data@);
        }
        Some(size)
    }

    /// Writes the varints of `data` as one length-framed payload.
    pub fn compress(&self, data: &Vec<u64>, stream: &mut WriterStream) -> (r: Result<ArrayTypeId, ()>)
        ensures
            r == Ok::<ArrayTypeId, ()>(ArrayTypeId::IntPrefixVar),
            final(stream).bytes@ == old(stream).bytes@ + varints(data@),
            final(stream).lens@ == old(stream).lens@.push(varints(data@).len() as usize),
            lens_sum(final(stream).lens@) == lens_sum(old(stream).lens@) + varints(data@).len(),
            final(stream).tags@ == old(stream).tags@,
    {
        let start = stream.position();
        let mut i: usize = 0;
        while i < data.len()
            invariant
                i <= data@.len(),
                start == old(stream).bytes@.len(),
                stream.bytes@ == old(stream).bytes@ + varints(data@.take(i as int)),
                stream.lens@ == old(stream).lens@,
                stream.tags@ == old(stream).tags@,
            decreases data@.len() - i,
        {
            proof {
                assert(data@.take(i + 1).drop_last() =~= data@.take(i as int));
            }
            encode_prefix_varint(data[i], &mut stream.bytes);
            i = i + 1;
            assert(stream.bytes@ =~= old(stream).bytes@ + varints(data@.take(i as int)));
        }
        assert(data@.take(i as int) =~= data@);
        stream.write_with_len(start);
        Ok(ArrayTypeId::IntPrefixVar)
    }
}

/// What Simple16 guarantees for `s`: whole words, which unpack to `s`
/// followed by zeros.
pub open spec fn simple16_sound(s: Seq<u64>) -> bool {
    &&& simple16_bytes(narrow_u32(s)).len() % 4 == 0
    &&& simple16_bytes(narrow_u32(s)).len() <= 4 * s.len()
    &&& zero_padded(simple16_values(simple16_bytes(narrow_u32(s))), narrow_u32(s))
}

/// Packs values up to `SIMPLE16_MAX` into 32-bit words.
pub struct Simple16Compressor;

impl Simple16Compressor {
    pub fn new() -> Self {
        Simple16Compressor
    }

    /// Writes `data` packed by Simple16 as one length-framed payload; declines,
    /// writing nothing, when a value is above `SIMPLE16_MAX`.
    pub fn compress(&self, data: &Vec<u64>, stream: &mut WriterStream) -> (r: Result<ArrayTypeId, ()>)
        ensures
            r is Err <==> !all_at_most(data@, SIMPLE16_MAX as nat),
            r is Ok ==> r == Ok::<ArrayTypeId, ()>(ArrayTypeId::IntSimple16),
            r is Ok ==> final(stream).bytes@ == old(stream).bytes@ + simple16_bytes(narrow_u32(data@)),
            r is Ok ==> final(stream).lens@ == old(stream).lens@.push(
                simple16_bytes(narrow_u32(data@)).len() as usize),
            r is Ok ==> lens_sum(final(stream).lens@) == lens_sum(old(stream).lens@) + simple16_bytes(
                narrow_u32(data@)).len(),
            r is Err ==> final(stream).bytes@ == old(stream).bytes@ && final(stream).lens@ == old(stream).lens@,
            r is Ok ==> simple16_sound(data@),
            final(stream).tags@ == old(stream).tags@,
    {
        let mut v: Vec<u32> = Vec::new();
        let mut i: usize = 0;
        while i < data.len()
            invariant
                i <= data@.len(),
                v@ == narrow_u32(data@.take(i as int)),
                all_at_most(data@.take(i as int), 0xffff_ffff),
            decreases data@.len() - i,
        {
            let item = data[i];
            if item > 0xffff_ffff {
                assert(!all_at_most(data@, SIMPLE16_MAX as nat)) by {
                    assert(data@[i as int] > SIMPLE16_MAX);
                }
                return Err(());
            }
            v.push(item as u32);
            i = i + 1;
            assert(v@ =~= narrow_u32(data@.take(i as int)));
        }
        assert(data@.take(i as int) =~= data@);
        let start = stream.position();
        match simple16_compress(&v, &mut stream.bytes) {
            Ok(()) => {},
            Err(_) => {
                assert(!all_at_most(data@, SIMPLE16_MAX as nat)) by {
                    let k = choose|k: int| 0 <= k < v@.len() && v@[k] > SIMPLE16_MAX;
                    assert(data@[k] as u32 == v@[k]);
                }
                return Err(());
            },
        }
        assert(all_at_most(data@, SIMPLE16_MAX as nat)) by {
            assert forall|k: int| 0 <= k < data@.len() implies data@[k] <= SIMPLE16_MAX by {
                assert(v@[k] == data@[k] as u32);
            }
        }
        stream.write_with_len(start);
        Ok(ArrayTypeId::IntSimple16)
    }
}

/// Writes each value as one raw byte.
pub struct BytesCompressor;

impl BytesCompressor {
    pub fn new() -> Self {
        BytesCompressor
    }

    /// Exact size of what `compress` writes.
    pub fn fast_size_for(&self, data: &Vec<u64>) -> (r: Option<usize>)
        ensures
            r == Some(data.len()),
    {
        Some(data.len())
    }

    /// Writes one byte per value as one length-framed payload; declines,
    /// writing nothing, when a value does not fit a byte.
    pub fn compress(&self, data: &Vec<u64>, stream: &mut WriterStream) -> (r: Result<ArrayTypeId, ()>)
        ensures
            r is Err <==> !all_at_most(data@, 255),
            r is Ok ==> r == Ok::<ArrayTypeId, ()>(ArrayTypeId::U8),
            r is Ok ==> final(stream).bytes@ == old(stream).bytes@ + narrow_u8(data@),
            r is Ok ==> final(stream).lens@ == old(stream).lens@.push(data@.len() as usize),
            r is Ok ==> lens_sum(final(stream).lens@) == lens_sum(old(stream).lens@) + data@.len(),
            r is Err ==> final(stream).bytes@ == old(stream).bytes@ && final(stream).lens@ == old(stream).lens@,
            final(stream).tags@ == old(stream).tags@,
    {
        let mut i: usize = 0;
        while i < data.len()
            invariant
                i <= data@.len(),
                all_at_most(data@.take(i as int), 255),
            decreases data@.len() - i,
        {
            if data[i] > 255 {
                return Err(());
            }
            i = i + 1;
        }
        assert(data@.take(i as int) =~= data@);
        let start = stream.position();
        let mut j: usize = 0;
        while j < data.len()
            invariant
                j <= data@.len(),
                all_at_most(data@, 255),
                start == old(stream).bytes@.len(),
                stream.bytes@ == old(stream).bytes@ + narrow_u8(data@.take(j as int)),
                stream.lens@ == old(stream).lens@,
                stream.tags@ == old(stream).tags@,
            decreases data@.len() - j,
        {
            stream.bytes.push(data[j] as u8);
            j = j + 1;
            assert(stream.bytes@ =~= old(stream).bytes@ + narrow_u8(data@.take(j as int)));
        }
        assert(data@.take(j as int) =~= data@);
        stream.write_with_len(start);
        Ok(ArrayTypeId::U8)
    }
}

} // verus!
