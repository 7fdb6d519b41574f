use vstd::prelude::*;
use vstd::std_specs::bits::{u64_leading_zeros, u64_trailing_zeros, axiom_u64_leading_zeros, axiom_u64_trailing_zeros};
use crate::types::{ArrayTypeId, ReadError};
use vstd::arithmetic::power2::{pow2, lemma2_to64};
use crate::varint::{le_bytes, push_le, le_value, read_le, lemma_le_value_bound};

verus! {

/// Staging state of the bit packer: the 64-bit word being filled, how many
/// of its low bits are still free, and the bytes flushed so far.
pub type BitState = (u64, nat, Seq<u8>);

/// Writes the low `count` bits of `bits` after those already staged; a full
/// word is flushed as eight little-endian bytes.
pub open spec fn bits_write(st: BitState, bits: u64, count: nat) -> BitState {
    let (buf, cap, out) = st;
    if count <= cap {
        (buf ^ (bits << ((cap - count) as u64)), (cap - count) as nat, out)
    } else {
        let rem = (count - cap) as nat;
        let flushed = if rem < 64 { buf ^ (bits >> (rem as u64)) } else { buf };
        (bits << ((64 - rem) as u64), (64 - rem) as nat, out + le_bytes(flushed as nat, 8))
    }
}

/// `x` with its `k` low-order bytes dropped.
pub open spec fn drop_low_bytes(x: nat, k: nat) -> nat
    decreases k,
{
    if k == 0 {
        x
    } else {
        drop_low_bytes(x / 256, (k - 1) as nat)
    }
}

/// The final word's used high-order bytes, little-endian, then one byte with
/// the number of bits used in it.
pub open spec fn bits_finish(st: BitState) -> Seq<u8> {
    let (buf, cap, out) = st;
    let used = (64 - cap) as nat;
    let n = (used + 7) / 8;
    out + le_bytes(drop_low_bytes(buf as nat, (8 - n) as nat), n) + seq![used as u8]
}

/// The bit packer of the codec.
pub struct BitWriter {
    pub buffer: u64,
    pub capacity: u8,
}

impl BitWriter {
    pub open spec fn state(&self, out: Seq<u8>) -> BitState {
        (self.buffer, self.capacity as nat, out)
    }

    /// Writes the low `count` bits of `bits`.
    pub fn write(&mut self, bits: u64, count: u8, out: &mut Vec<u8>)
        requires
            old(self).capacity <= 63,
            count <= 64,
        ensures
            final(self).capacity <= 63,
            final(self).state(final(out)@) == bits_write(old(self).state(old(out)@), bits, count as nat),
    {
        if count <= self.capacity {
            self.buffer = self.buffer ^ (bits << ((self.capacity - count) as u64));
            self.capacity = self.capacity - count;
        } else {
            let rem = count - self.capacity;
            let flushed = if rem < 64 {
                self.buffer ^ (bits >> (rem as u64))
            } else {
                self.buffer
            };
            push_le(flushed, 8, out);
            self.capacity = 64 - rem;
            self.buffer = bits << (self.capacity as u64);
        }
    }

    /// Writes the used bytes of the final word and the trailer byte.
    pub fn finish(&self, out: &mut Vec<u8>)
        requires
            self.capacity <= 64,
        ensures
            final(out)@ == bits_finish(self.state(old(out)@)),
    {
        let used: u8 = 64 - self.capacity;
        let n: u8 = (used + 7) / 8;
        let mut hi: u64 = self.buffer;
        let mut k: u8 = 0;
        while k < 8 - n
            invariant
                n <= 8,
                k <= 8 - n,
                drop_low_bytes(hi as nat, (8 - n - k) as nat) == drop_low_bytes(self.buffer as nat, (8 - n) as nat),
            decreases 8 - n - k,
        {
            hi = hi / 256;
            k = k + 1;
        }
        push_le(hi, n as usize, out);
        out.push(used);
    }
}

/// Codec state: previous value, previous xor, and the bit packer's state.
pub type GorillaState = (u64, u64, BitState);

pub open spec fn capped_lz(x: u64) -> nat {
    if u64_leading_zeros(x) < 31 {
        u64_leading_zeros(x) as nat
    } else {
        31
    }
}

/// The previous window: leading and trailing zeros of the previous xor
/// (trailing taken as 0 when it is zero).
pub open spec fn window(prev_xor: u64) -> (nat, nat) {
    let plz = u64_leading_zeros(prev_xor) as nat;
    (plz, if plz == 64 { 0 } else { u64_trailing_zeros(prev_xor) as nat })
}

/// Encodes one further value.
pub open spec fn gorilla_step(st: GorillaState, value: u64) -> GorillaState {
    let (prev, prev_xor, bs) = st;
    let xored = prev ^ value;
    let w = if xored == 0 {
        bits_write(bs, 0, 1)
    } else {
        let lz = capped_lz(xored);
        let tz = u64_trailing_zeros(xored) as nat;
        let (plz, ptz) = window(prev_xor);
        if lz >= plz && tz >= ptz {
            bits_write(bits_write(bs, 2, 2), xored >> (ptz as u64), (64 - ptz - plz) as nat)
        } else {
            let c = (64 - tz - lz) as nat;
            let w2 = bits_write(bits_write(bs, 3, 2), lz as u64, 5);
            bits_write(bits_write(w2, (c - 1) as u64, 6), xored >> (tz as u64), c)
        }
    };
    (value, xored, w)
}

/// The state after encoding the non-empty `s`: the first value fills the
/// initial word whole.
pub open spec fn gorilla_fold(s: Seq<u64>) -> GorillaState
    recommends
        s.len() > 0,
    decreases s.len(),
{
    if s.len() <= 1 {
        (s[0], s[0], (s[0], 0, Seq::empty()))
    } else {
        gorilla_step(gorilla_fold(s.drop_last()), s.last())
    }
}

/// The codec's output for the non-empty `s`.
pub open spec fn gorilla_bytes(s: Seq<u64>) -> Seq<u8> {
    bits_finish(gorilla_fold(s).2)
}

proof fn lemma_zeros_fit(x: u64)
    requires
        x != 0,
    ensures
        u64_trailing_zeros(x) + u64_leading_zeros(x) <= 63,
        u64_trailing_zeros(x) < 64,
{
    axiom_u64_leading_zeros(x);
    axiom_u64_trailing_zeros(x);
    let tz = u64_trailing_zeros(x) as u64;
    if tz + u64_leading_zeros(x) >= 64 {
        assert((x >> tz) & 1u64 == 0u64);
    }
}

/// Compresses 64-bit float bit patterns; declines on an empty input.
pub fn compress(data: &Vec<u64>, bytes: &mut Vec<u8>) -> (r: Result<ArrayTypeId, ()>)
    ensures
        data@.len() == 0 ==> r is Err && final(bytes)@ == old(bytes)@,
        data@.len() > 0 ==> r == Ok::<ArrayTypeId, ()>(ArrayTypeId::DoubleGorilla)
            && final(bytes)@ == old(bytes)@ + gorilla_bytes(data@),
{
    if data.len() == 0 {
        return Err(());
    }
    let first = data[0];
    let mut bw = BitWriter { buffer: first, capacity: 0 };
    let mut previous = first;
    let mut prev_xor = first;
    let mut out: Vec<u8> = Vec::new();
    let mut i: usize = 1;
    assert(data@.take(1).len() == 1);
    while i < data.len()
        invariant
            1 <= i <= data@.len(),
            bw.capacity <= 63,
            (previous, prev_xor, bw.state(out@)) == gorilla_fold(data@.take(i as int)),
        decreases data@.len() - i,
    {
        assert(data@.take(i + 1).drop_last() =~= data@.take(i as int));
        let value = data[i];
        let xored = previous ^ value;
        if xored == 0 {
            bw.write(0, 1, &mut out);
        } else {
            proof {
                lemma_zeros_fit(xored);
                axiom_u64_leading_zeros(prev_xor);
                if prev_xor != 0 {
                    lemma_zeros_fit(prev_xor);
                }
            }
            let lzc = xored.leading_zeros();
            let lz: u64 = if lzc < 31 { lzc as u64 } else { 31 };
            let tz: u64 = xored.trailing_zeros() as u64;
            let prev_lz: u64 = prev_xor.leading_zeros() as u64;
            let prev_tz: u64 = if prev_lz == 64 { 0 } else { prev_xor.trailing_zeros() as u64 };
            if lz >= prev_lz && tz >= prev_tz {
                let count: u64 = 64 - prev_tz - prev_lz;
                bw.write(2, 2, &mut out);
                bw.write(xored >> prev_tz, count as u8, &mut out);
            } else {
                let count: u64 = 64 - tz - lz;
                bw.write(3, 2, &mut out);
                bw.write(lz, 5, &mut out);
                bw.write(count - 1, 6, &mut out);
                bw.write(xored >> tz, count as u8, &mut out);
            }
        }
        previous = value;
        prev_xor = xored;
        i = i + 1;
    }
    assert(data@.take(i as int) =~= data@);
    bw.finish(&mut out);
    let mut j: usize = 0;
    while j < out.len()
        invariant
            j <= out@.len(),
            bytes@ == old(bytes)@ + out@.take(j as int),
        decreases out@.len() - j,
    {
        bytes.push(out[j]);
        j = j + 1;
        assert(bytes@ =~= old(bytes)@ + out@.take(j as int));
    }
    assert(out@.take(j as int) =~= out@);
    Ok(ArrayTypeId::DoubleGorilla)
}

/// Number of bytes the final word keeps for `used` bits.
pub open spec fn tail_bytes(used: nat) -> nat {
    (used + 7) / 8
}

/// The stream is laid out as whole little-endian words, then the high-order
/// bytes of the final word, then the trailer; and it holds the first value.
pub open spec fn layout_ok(b: Seq<u8>) -> bool {
    &&& b.len() >= 1
    &&& 1 <= b.last() <= 64
    &&& b.len() >= 1 + tail_bytes(b.last() as nat)
    &&& (b.len() - 1 - tail_bytes(b.last() as nat)) % 8 == 0
    &&& 8 * (b.len() - 1 - tail_bytes(b.last() as nat)) + b.last() >= 64
}

/// Number of whole words before the final one.
pub open spec fn whole_words(b: Seq<u8>) -> nat {
    ((b.len() - 1 - tail_bytes(b.last() as nat)) / 8) as nat
}

/// Number of bits in the stream.
pub open spec fn total_bits(b: Seq<u8>) -> nat {
    64 * whole_words(b) + b.last() as nat
}

/// The `k`-th word of the stream; the final one has its low bytes zero.
pub open spec fn word(b: Seq<u8>, k: nat) -> u64 {
    if k < whole_words(b) {
        le_value(b.subrange((8 * k) as int, (8 * k + 8) as int)) as u64
    } else {
        let n = tail_bytes(b.last() as nat);
        (le_value(b.subrange((8 * k) as int, (8 * k + n) as int)) as u64) << ((8 * (8 - n)) as u64)
    }
}

/// All words of the stream.
pub open spec fn stream_words(b: Seq<u8>) -> Seq<u64> {
    Seq::new(whole_words(b) + 1, |k: int| word(b, k as nat))
}

/// The `i`-th bit of the stream, most significant first within each word.
pub open spec fn bit(ws: Seq<u64>, i: nat) -> u64 {
    (ws[(i / 64) as int] >> ((63 - i % 64) as u64)) & 1
}

/// The `count` bits from `p` on, as a number.
pub open spec fn bits_at(ws: Seq<u64>, p: nat, count: nat) -> u64
    decreases count,
{
    if count == 0 {
        0
    } else {
        (bits_at(ws, p, (count - 1) as nat) * 2 + bit(ws, (p + count - 1) as nat)) as u64
    }
}

/// Decoder state: previous value, previous xor, bit position, values so far.
pub type DecodeState = (u64, u64, nat, Seq<u64>);

/// Decodes one value at the state's position, in `t` bits; `None` when the
/// code runs past the end or is malformed.
pub open spec fn decode_step(ws: Seq<u64>, t: nat, st: DecodeState) -> Option<DecodeState> {
    let (prev, prev_xor, pos, out) = st;
    if bit(ws, pos) == 0 {
        Some((prev, 0u64, pos + 1, out.push(prev)))
    } else if pos + 2 > t {
        None
    } else if bit(ws, pos + 1) == 0 {
        let (plz, ptz) = window(prev_xor);
        if plz >= 64 || ptz + plz > 64 || pos + 2 + (64 - ptz - plz) > t {
            None
        } else {
            let c = (64 - ptz - plz) as nat;
            let x = bits_at(ws, pos + 2, c) << (ptz as u64);
            Some((prev ^ x, x, pos + 2 + c, out.push(prev ^ x)))
        }
    } else if pos + 13 > t {
        None
    } else {
        let lz = bits_at(ws, pos + 2, 5) as nat;
        let c = bits_at(ws, pos + 7, 6) as nat + 1;
        if lz + c > 64 || pos + 13 + c > t {
            None
        } else {
            let x = bits_at(ws, pos + 13, c) << ((64 - lz - c) as u64);
            Some((prev ^ x, x, pos + 13 + c, out.push(prev ^ x)))
        }
    }
}

/// Decodes from the state until the bits run out.
pub open spec fn decode_from(ws: Seq<u64>, t: nat, st: DecodeState) -> Option<Seq<u64>>
    decreases t - st.2,
{
    if st.2 >= t {
        Some(st.3)
    } else {
        match decode_step(ws, t, st) {
            None => None,
            Some(next) => if next.2 <= st.2 {
                None
            } else {
                decode_from(ws, t, next)
            },
        }
    }
}

/// The bit patterns a codec stream holds, or `None` when it is malformed.
pub open spec fn gorilla_decode(b: Seq<u8>) -> Option<Seq<u64>> {
    if !layout_ok(b) {
        None
    } else {
        let ws = stream_words(b);
        let first = bits_at(ws, 0, 64);
        decode_from(ws, total_bits(b), (first, first, 64, seq![first]))
    }
}

fn read_bit(ws: &Vec<u64>, i: usize) -> (r: u64)
    requires
        i / 64 < ws@.len(),
    ensures
        r == bit(ws@, i as nat),
        r <= 1,
{
    let w = ws[i / 64];
    let r = (w >> ((63 - i % 64) as u64)) & 1;
    assert(r <= 1) by (bit_vector)
        requires r == (w >> ((63 - i % 64) as u64)) & 1;
    r
}

fn read_bits(ws: &Vec<u64>, p: usize, count: usize) -> (r: u64)
    requires
        count <= 64,
        (p + count) <= 64 * ws@.len(),
        p + count <= usize::MAX,
    ensures
        r == bits_at(ws@, p as nat, count as nat),
        r < pow2(count as nat),
{
    let mut v: u64 = 0;
    let mut k: usize = 0;
    proof {
        lemma2_to64();
    }
    while k < count
        invariant
            k <= count <= 64,
            p + count <= usize::MAX,
            p + count <= 64 * ws@.len(),
            v == bits_at(ws@, p as nat, k as nat),
            v < pow2(k as nat),
        decreases count - k,
    {
        let b = read_bit(ws, p + k);
        proof {
            vstd::arithmetic::power2::lemma_pow2_unfold((k + 1) as nat);
            lemma2_to64();
            vstd::arithmetic::power2::lemma2_to64_rest();
            if k + 1 < 64 {
                vstd::arithmetic::power2::lemma_pow2_strictly_increases((k + 1) as nat, 64);
            }
        }
        v = v * 2 + b;
        k = k + 1;
    }
    v
}

/// Decompresses a codec stream back into 64-bit float bit patterns;
/// `InvalidFormat` when the stream is malformed.
pub fn decompress(bytes: &Vec<u8>) -> (r: Result<Vec<u64>, ReadError>)
    requires
        bytes@.len() <= usize::MAX / 8,
    ensures
        match gorilla_decode(bytes@) {
            Some(v) => r matches Ok(o) && o@ == v,
            None => r == Err::<Vec<u64>, ReadError>(ReadError::InvalidFormat),
        },
{
    let len = bytes.len();
    if len == 0 {
        return Err(ReadError::InvalidFormat);
    }
    let used = bytes[len - 1];
    if used < 1 || used > 64 {
        return Err(ReadError::InvalidFormat);
    }
    let n: usize = ((used as usize) + 7) / 8;
    if len < 1 + n || (len - 1 - n) % 8 != 0 {
        return Err(ReadError::InvalidFormat);
    }
    let whole = (len - 1 - n) / 8;
    if 64 * whole + (used as usize) < 64 {
        return Err(ReadError::InvalidFormat);
    }
    let t: usize = 64 * whole + used as usize;
    assert(layout_ok(bytes@));
    let ghost ws_spec = stream_words(bytes@);
    let mut ws: Vec<u64> = Vec::new();
    let mut k: usize = 0;
    while k < whole
        invariant
            k <= whole,
            whole == whole_words(bytes@),
            ws_spec == stream_words(bytes@),
            len == bytes@.len(),
            8 * whole + n + 1 == len,
            ws@ == ws_spec.take(k as int),
        decreases whole - k,
    {
        let w = read_le(bytes, 8 * k, 8);
        assert(ws_spec[k as int] == word(bytes@, k as nat));
        assert(word(bytes@, k as nat) == w);
        ws.push(w);
        k = k + 1;
        assert(ws@ =~= ws_spec.take(k as int));
    }
    let last = read_le(bytes, 8 * whole, n);
    proof {
        lemma_le_value_bound(bytes@.subrange(8 * whole as int, 8 * whole + n));
    }
    ws.push(last << ((8 * (8 - n)) as u64));
    assert(ws@ =~= ws_spec);
    assert(t == total_bits(bytes@));
    let first = read_bits(&ws, 0, 64);
    let mut prev = first;
    let mut prev_xor = first;
    let mut pos: usize = 64;
    let mut out: Vec<u64> = Vec::new();
    out.push(first);
    assert(out@ =~= seq![first]);
    while pos < t
        invariant
            ws@ == ws_spec,
            ws@.len() == whole + 1,
            t == 64 * whole + used as nat,
            used <= 64,
            64 <= pos,
            gorilla_decode(bytes@) == decode_from(ws@, t as nat, (prev, prev_xor, pos as nat, out@)),
        decreases t - pos,
    {
        let b0 = read_bit(&ws, pos);
        if b0 == 0 {
            out.push(prev);
            prev_xor = 0;
            pos = pos + 1;
            continue;
        }
        if t - pos < 2 {
            return Err(ReadError::InvalidFormat);
        }
        let b1 = read_bit(&ws, pos + 1);
        if b1 == 0 {
            let plz: u64 = prev_xor.leading_zeros() as u64;
            let ptz: u64 = if plz == 64 { 0 } else { prev_xor.trailing_zeros() as u64 };
            proof {
                axiom_u64_leading_zeros(prev_xor);
                axiom_u64_trailing_zeros(prev_xor);
            }
            if plz >= 64 || ptz + plz > 64 || ((64 - ptz - plz) as usize) > t - pos - 2 {
                return Err(ReadError::InvalidFormat);
            }
            let c = (64 - ptz - plz) as usize;
            let m = read_bits(&ws, pos + 2, c);
            let x = m << ptz;
            prev = prev ^ x;
            prev_xor = x;
            out.push(prev);
            pos = pos + 2 + c;
        } else {
            if t - pos < 13 {
                return Err(ReadError::InvalidFormat);
            }
            proof {
                lemma2_to64();
            }
            let lz = read_bits(&ws, pos + 2, 5) as usize;
            let c = read_bits(&ws, pos + 7, 6) as usize + 1;
            if lz + c > 64 || c > t - pos - 13 {
                return Err(ReadError::InvalidFormat);
            }
            let m = read_bits(&ws, pos + 13, c);
            let x = m << ((64 - lz - c) as u64);
            prev = prev ^ x;
            prev_xor = x;
            out.push(prev);
            pos = pos + 13 + c;
        }
    }
    Ok(out)
}

} // verus!
