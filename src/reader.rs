use vstd::prelude::*;
use crate::types::{ArrayTypeId, ReadError, tag_of};
use crate::varint::{prefix_len, varint_value, decode_prefix_varint};
use crate::compressors::{all_at_most, simple16_values, simple16_decompress};
use crate::select::{Width, width_max};

verus! {

/// The values of back-to-back varints filling `b`, or `None` when the last runs off the end.
pub open spec fn parse_varints(b: Seq<u8>) -> Option<Seq<u64>>
    decreases b.len(),
{
    if b.len() == 0 {
        Some(Seq::empty())
    } else {
        let n = prefix_len(b[0]);
        if n > b.len() {
            None
        } else {
            match parse_varints(b.skip(n as int)) {
                Some(rest) => Some(seq![varint_value(b.take(n as int))] + rest),
                None => None,
            }
        }
    }
}

pub open spec fn widen_u8(b: Seq<u8>) -> Seq<u64> {
    b.map_values(|x: u8| x as u64)
}

pub open spec fn widen_u32(b: Seq<u32>) -> Seq<u64> {
    b.map_values(|x: u32| x as u64)
}

/// The values of a length-framed payload under tag `id`.
pub open spec fn payload_values(id: ArrayTypeId, p: Seq<u8>) -> Result<Seq<u64>, ReadError> {
    match id {
        ArrayTypeId::IntPrefixVar => match parse_varints(p) {
            Some(v) => Ok(v),
            None => Err(ReadError::InvalidFormat),
        },
        ArrayTypeId::U8 => Ok(widen_u8(p)),
        ArrayTypeId::Boolean => if forall|i: int| 0 <= i < p.len() ==> p[i] <= 1 {
            Ok(widen_u8(p))
        } else {
            Err(ReadError::InvalidFormat)
        },
        ArrayTypeId::IntSimple16 => if p.len() % 4 == 0 {
            Ok(widen_u32(simple16_values(p)))
        } else {
            Err(ReadError::InvalidFormat)
        },
        _ => Err(ReadError::SchemaMismatch),
    }
}

/// Each `values[i]` repeated `runs[i]` times; `None` when a non-empty run has no value.
pub open spec fn expand(runs: Seq<u64>, values: Seq<u64>) -> Option<Seq<u64>>
    decreases runs.len(),
{
    if runs.len() == 0 {
        Some(Seq::empty())
    } else {
        match expand(runs.drop_last(), values) {
            None => None,
            Some(o) => {
                let i = runs.len() - 1;
                if runs[i] == 0 {
                    Some(o)
                } else if i < values.len() {
                    Some(o + Seq::new(runs[i] as nat, |_j: int| values[i]))
                } else {
                    None
                }
            },
        }
    }
}

/// Decodes the branch whose tag is at `pos`, taking lengths from index `li`
/// on: its values, and where the next branch and its lengths start.
pub open spec fn decode_branch(b: Seq<u8>, lens: Seq<usize>, pos: int, li: int) -> Result<(Seq<u64>, int, int), ReadError>
    decreases b.len() - pos,
{
    if pos < 0 || pos >= b.len() || li < 0 || li > lens.len() || b[pos] > 6 {
        Err(ReadError::InvalidFormat)
    } else {
        let id = tag_of(b[pos]);
        if id == ArrayTypeId::Void {
            Ok((Seq::empty(), pos + 1, li))
        } else if id == ArrayTypeId::DoubleGorilla {
            Err(ReadError::SchemaMismatch)
        } else if id == ArrayTypeId::RLE {
            match decode_branch(b, lens, pos + 1, li) {
                Err(e) => Err(e),
                Ok((runs, mid, mid_li)) => if mid <= pos || mid > b.len() {
                    Err(ReadError::InvalidFormat)
                } else {
                    match decode_branch(b, lens, mid, mid_li) {
                        Err(e) => Err(e),
                        Ok((values, after, after_li)) => match expand(runs, values) {
                            Some(o) => Ok((o, after, after_li)),
                            None => Err(ReadError::InvalidFormat),
                        },
                    }
                },
            }
        } else if li >= lens.len() || pos + 1 + lens[li] > b.len() {
            Err(ReadError::InvalidFormat)
        } else {
            match payload_values(id, b.subrange(pos + 1, pos + 1 + lens[li])) {
                Ok(v) => Ok((v, pos + 1 + lens[li], li + 1)),
                Err(e) => Err(e),
            }
        }
    }
}

fn decode_varints(bytes: &Vec<u8>, start: usize, end: usize) -> (r: Result<Vec<u64>, ReadError>)
    requires
        start <= end <= bytes@.len(),
    ensures
        match parse_varints(bytes@.subrange(start as int, end as int)) {
            Some(v) => r matches Ok(o) && o@ == v,
            None => r == Err::<Vec<u64>, ReadError>(ReadError::InvalidFormat),
        },
{
    let ghost whole = bytes@.subrange(start as int, end as int);
    let mut out: Vec<u64> = Vec::new();
    let mut off = start;
    while off < end
        invariant
            start <= off <= end <= bytes@.len(),
            whole == bytes@.subrange(start as int, end as int),
            parse_varints(whole) == match parse_varints(bytes@.subrange(off as int, end as int)) {
                Some(rest) => Some(out@ + rest),
                None => None::<Seq<u64>>,
            },
        decreases end - off,
    {
        let ghost tail = bytes@.subrange(off as int, end as int);
        assert(tail[0] == bytes@[off as int]);
        match decode_prefix_varint(bytes, off, end) {
            Ok((v, next)) => {
                assert(tail.skip(next - off) =~= bytes@.subrange(next as int, end as int));
                assert(tail.take(next - off) =~= bytes@.subrange(off as int, next as int));
                proof {
                    match parse_varints(bytes@.subrange(next as int, end as int)) {
                        Some(rest) => {
                            assert(out@.push(v) + rest =~= out@ + (seq![v] + rest));
                        },
                        None => {},
                    }
                }
                out.push(v);
                off = next;
            },
            Err(e) => {
                return Err(e);
            },
        }
    }
    assert(bytes@.subrange(off as int, end as int) =~= Seq::<u8>::empty());
    assert(out@ + Seq::<u64>::empty() =~= out@);
    Ok(out)
}

fn decode_payload(id: ArrayTypeId, bytes: &Vec<u8>, start: usize, end: usize) -> (r: Result<Vec<u64>, ReadError>)
    requires
        start <= end <= bytes@.len(),
    ensures
        match payload_values(id, bytes@.subrange(start as int, end as int)) {
            Ok(v) => r matches Ok(o) && o@ == v,
            Err(e) => r == Err::<Vec<u64>, ReadError>(e),
        },
{
    let ghost p = bytes@.subrange(start as int, end as int);
    match id {
        ArrayTypeId::IntPrefixVar => decode_varints(bytes, start, end),
        ArrayTypeId::U8 | ArrayTypeId::Boolean => {
            let mut out: Vec<u64> = Vec::new();
            let mut i = start;
            while i < end
                invariant
                    start <= i <= end <= bytes@.len(),
                    p == bytes@.subrange(start as int, end as int),
                    out@ == widen_u8(p.take(i - start)),
                    id == ArrayTypeId::Boolean ==> forall|k: int| 0 <= k < i - start ==> p[k] <= 1,
                decreases end - i,
            {
                let b = bytes[i];
                if id == ArrayTypeId::Boolean && b > 1 {
                    assert(p[i - start] == b);
                    return Err(ReadError::InvalidFormat);
                }
                out.push(b as u64);
                i = i + 1;
                assert(out@ =~= widen_u8(p.take(i - start)));
            }
            assert(p.take(i - start) =~= p);
            Ok(out)
        },
        ArrayTypeId::IntSimple16 => {
            let mut payload: Vec<u8> = Vec::new();
            let mut i = start;
            while i < end
                invariant
                    start <= i <= end <= bytes@.len(),
                    p == bytes@.subrange(start as int, end as int),
                    payload@ == p.take(i - start),
                decreases end - i,
            {
                payload.push(bytes[i]);
                i = i + 1;
                assert(payload@ =~= p.take(i - start));
            }
            assert(p.take(i - start) =~= p);
            let mut words: Vec<u32> = Vec::new();
            match simple16_decompress(&payload, &mut words) {
                Ok(()) => {},
                Err(()) => {
                    return Err(ReadError::InvalidFormat);
                },
            }
            assert(words@ =~= simple16_values(p));
            let mut out: Vec<u64> = Vec::new();
            let mut j: usize = 0;
            while j < words.len()
                invariant
                    j <= words@.len(),
                    out@ == widen_u32(words@.take(j as int)),
                decreases words@.len() - j,
            {
                out.push(words[j] as u64);
                j = j + 1;
                assert(out@ =~= widen_u32(words@.take(j as int)));
            }
            assert(words@.take(j as int) =~= words@);
            Ok(out)
        },
        _ => Err(ReadError::SchemaMismatch),
    }
}

/// Repeats each value as many times as its run says.
pub fn expand_runs(runs: &Vec<u64>, values: &Vec<u64>) -> (r: Result<Vec<u64>, ReadError>)
    ensures
        match expand(runs@, values@) {
            Some(o) => r matches Ok(v) && v@ == o,
            None => r == Err::<Vec<u64>, ReadError>(ReadError::InvalidFormat),
        },
{
    let mut out: Vec<u64> = Vec::new();
    let mut i: usize = 0;
    while i < runs.len()
        invariant
            i <= runs@.len(),
            expand(runs@.take(i as int), values@) == Some(out@),
        decreases runs@.len() - i,
    {
        assert(runs@.take(i + 1).drop_last() =~= runs@.take(i as int));
        let n = runs[i];
        if n > 0 {
            if i >= values.len() {
                proof {
                    lemma_expand_prefix_fails(runs@, values@, i as int);
                }
                return Err(ReadError::InvalidFormat);
            }
            let x = values[i];
            let ghost before = out@;
            let mut c: u64 = 0;
            while c < n
                invariant
                    c <= n,
                    out@ == before + Seq::new(c as nat, |_j: int| x),
                decreases n - c,
            {
                out.push(x);
                c = c + 1;
                assert(out@ =~= before + Seq::new(c as nat, |_j: int| x));
            }
        }
        i = i + 1;
    }
    assert(runs@.take(i as int) =~= runs@);
    Ok(out)
}

proof fn lemma_expand_prefix_fails(runs: Seq<u64>, values: Seq<u64>, i: int)
    requires
        0 <= i < runs.len(),
        expand(runs.take(i + 1), values) is None,
    ensures
        expand(runs, values) is None,
    decreases runs.len() - i,
{
    if i + 1 < runs.len() {
        assert(runs.take(i + 2).drop_last() =~= runs.take(i + 1));
        lemma_expand_prefix_fails(runs, values, i + 1);
    } else {
        assert(runs.take(i + 1) =~= runs);
    }
}

/// Decodes the branch whose tag is at `pos`, taking lengths from index `li` on.
pub fn read_branch(bytes: &Vec<u8>, lens: &Vec<usize>, pos: usize, li: usize) -> (r: Result<(Vec<u64>, usize, usize), ReadError>)
    ensures
        match decode_branch(bytes@, lens@, pos as int, li as int) {
            Ok((v, p, l)) => r matches Ok((o, after, after_li)) && o@ == v && after == p && after_li == l,
            Err(e) => r matches Err(e2) && e2 == e,
        },
    decreases bytes@.len() - pos,
{
    if pos >= bytes.len() || li > lens.len() {
        return Err(ReadError::InvalidFormat);
    }
    let id = match ArrayTypeId::from_byte(bytes[pos]) {
        Some(id) => id,
        None => {
            return Err(ReadError::InvalidFormat);
        },
    };
    match id {
        ArrayTypeId::Void => Ok((Vec::new(), pos + 1, li)),
        ArrayTypeId::DoubleGorilla => Err(ReadError::SchemaMismatch),
        ArrayTypeId::RLE => {
            let (runs, mid, mid_li) = match read_branch(bytes, lens, pos + 1, li) {
                Ok(t) => t,
                Err(e) => {
                    return Err(e);
                },
            };
            if mid <= pos || mid > bytes.len() {
                return Err(ReadError::InvalidFormat);
            }
            let (values, after, after_li) = match read_branch(bytes, lens, mid, mid_li) {
                Ok(t) => t,
                Err(e) => {
                    return Err(e);
                },
            };
            match expand_runs(&runs, &values) {
                Ok(o) => Ok((o, after, after_li)),
                Err(e) => Err(e),
            }
        },
        _ => {
            if li >= lens.len() || lens[li] > bytes.len() - pos - 1 {
                return Err(ReadError::InvalidFormat);
            }
            let end = pos + 1 + lens[li];
            match decode_payload(id, bytes, pos + 1, end) {
                Ok(v) => Ok((v, end, li + 1)),
                Err(e) => Err(e),
            }
        },
    }
}

/// Where reading stands: the values of a column and the index of the next one.
pub open spec fn read_step(values: Seq<u64>, pos: nat) -> (u64, nat) {
    if pos < values.len() {
        (values[pos as int], pos + 1)
    } else {
        (0, pos)
    }
}

/// What `k` reads from index `pos` on return.
pub open spec fn reads(values: Seq<u64>, pos: nat, k: nat) -> Seq<u64>
    decreases k,
{
    if k == 0 {
        Seq::empty()
    } else {
        let (x, next) = read_step(values, pos);
        seq![x] + reads(values, next, (k - 1) as nat)
    }
}

/// Reading past the end never fails: once a column is exhausted, any further
/// `k` reads return `k` default values.
pub proof fn lemma_over_pull_defaults(values: Seq<u64>, pos: nat, k: nat)
    requires
        pos >= values.len(),
    ensures
        reads(values, pos, k) == Seq::new(k, |_i: int| 0u64),
    decreases k,
{
    if k > 0 {
        lemma_over_pull_defaults(values, pos, (k - 1) as nat);
        assert(reads(values, pos, k) =~= Seq::new(k, |_i: int| 0u64));
    }
}

/// A reader over one unsigned integer column.
pub struct UintReader {
    pub values: Vec<u64>,
    pub pos: usize,
}

impl UintReader {
    /// Decodes the root branch of `bytes` and `lens` for a column of width `w`;
    /// `SchemaMismatch` when a value does not fit `w`.
    pub fn new(bytes: &Vec<u8>, lens: &Vec<usize>, w: Width) -> (r: Result<UintReader, ReadError>)
        ensures
            match decode_branch(bytes@, lens@, 0, 0) {
                Ok((v, _, _)) => if all_at_most(v, width_max(w)) {
                    r matches Ok(rd) && rd.values@ == v && rd.pos == 0
                } else {
                    r == Err::<UintReader, ReadError>(ReadError::SchemaMismatch)
                },
                Err(e) => r == Err::<UintReader, ReadError>(e),
            },
    {
        let (values, _, _) = match read_branch(bytes, lens, 0, 0) {
            Ok(t) => t,
            Err(e) => {
                return Err(e);
            },
        };
        let max: u64 = match w {
            Width::U8 => 0xff,
            Width::U16 => 0xffff,
            Width::U32 => 0xffff_ffff,
            Width::U64 => 0xffff_ffff_ffff_ffff,
        };
        let mut i: usize = 0;
        while i < values.len()
            invariant
                i <= values@.len(),
                max == width_max(w),
                decode_branch(bytes@, lens@, 0, 0) matches Ok((v, _, _)) && v == values@,
                all_at_most(values@.take(i as int), max as nat),
            decreases values@.len() - i,
        {
            if values[i] > max {
                assert(!all_at_most(values@, width_max(w))) by {
                    assert(values@[i as int] > max);
                }
                return Err(ReadError::SchemaMismatch);
            }
            i = i + 1;
        }
        assert(values@.take(i as int) =~= values@);
        Ok(UintReader { values, pos: 0 })
    }

    /// The next value, or the default 0 once the column is exhausted.
    pub fn read_next(&mut self) -> (r: u64)
        ensures
            (r, final(self).pos as nat) == read_step(old(self).values@, old(self).pos as nat),
            final(self).values@ == old(self).values@,
    {
        if self.pos < self.values.len() {
            let x = self.values[self.pos];
            self.pos = self.pos + 1;
            x
        } else {
            0
        }
    }
}

} // verus!
