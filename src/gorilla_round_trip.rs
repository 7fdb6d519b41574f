use vstd::prelude::*;
use crate::gorilla::{BitState, bits_write, gorilla_fold, capped_lz, window, bits_finish, drop_low_bytes, layout_ok, whole_words, total_bits, word, bit, tail_bytes, stream_words, bits_at, decode_step, decode_from, gorilla_decode, gorilla_bytes};
use vstd::std_specs::bits::{u64_leading_zeros, u64_trailing_zeros, axiom_u64_leading_zeros, axiom_u64_trailing_zeros};
use crate::varint::{le_bytes, le_value, lemma_le_round_trip, lemma_le_bytes_len};
use vstd::arithmetic::power2::{pow2, lemma2_to64, lemma2_to64_rest};

verus! {

/// The low `count` bits of `bits`, most significant first, one per element.
pub open spec fn code_bits(bits: u64, count: nat) -> Seq<u64> {
    Seq::new(count, |j: int| (bits >> ((count - 1 - j) as u64)) & 1)
}

/// Bit `j` of `w`, counted from the most significant.
pub open spec fn word_bit(w: u64, j: nat) -> u64 {
    (w >> ((63 - j) as u64)) & 1
}

/// The `k`-th eight-byte little-endian word of `out`.
pub open spec fn chunk_word(out: Seq<u8>, k: nat) -> u64 {
    le_value(out.subrange((8 * k) as int, (8 * k + 8) as int)) as u64
}

/// The packer's state holds exactly the bits `l`: whole words flushed to
/// `out`, the rest at the top of the staging word, whose free bits are zero.
pub open spec fn writer_holds(st: BitState, l: Seq<u64>) -> bool {
    let (buf, cap, out) = st;
    &&& cap <= 63
    &&& out.len() % 8 == 0
    &&& l.len() == 8 * out.len() + 64 - cap
    &&& forall|i: int| 0 <= i < 8 * out.len() ==> #[trigger] l[i] == word_bit(chunk_word(out, (i / 64) as nat), (i % 64) as nat)
    &&& forall|j: int| 0 <= j < 64 - cap ==> #[trigger] l[8 * out.len() + j] == word_bit(buf, j as nat)
    &&& (buf << ((64 - cap) as u64)) == 0 || cap == 0
}

proof fn lemma_chunk_of_le(out: Seq<u8>, x: u64)
    requires
        out.len() % 8 == 0,
    ensures
        chunk_word(out + le_bytes(x as nat, 8), (out.len() / 8) as nat) == x,
        forall|k: nat| k < out.len() / 8 ==> #[trigger] chunk_word(out + le_bytes(x as nat, 8), k) == chunk_word(out, k),
{
    let o2 = out + le_bytes(x as nat, 8);
    lemma_le_bytes_len(x as nat, 8);
    assert(o2.subrange(out.len() as int, (out.len() + 8) as int) =~= le_bytes(x as nat, 8));
    lemma_le_round_trip(x as nat, 8);
    lemma2_to64();
    lemma2_to64_rest();
    vstd::arithmetic::div_mod::lemma_small_mod(x as nat, pow2(64));
    assert forall|k: nat| k < out.len() / 8 implies #[trigger] chunk_word(o2, k) == chunk_word(out, k) by {
        assert(o2.subrange((8 * k) as int, (8 * k + 8) as int) =~= out.subrange((8 * k) as int, (8 * k + 8) as int));
    }
}

/// Writing a code appends its bits.
pub proof fn lemma_write_appends(st: BitState, l: Seq<u64>, bits: u64, count: nat)
    requires
        writer_holds(st, l),
        1 <= count <= 64,
        count < 64 ==> bits >> (count as u64) == 0,
    ensures
        writer_holds(bits_write(st, bits, count), l + code_bits(bits, count)),
{
    let (buf, cap, out) = st;
    let c = count as u64;
    let cp = cap as u64;
    let l2 = l + code_bits(bits, count);
    let st2 = bits_write(st, bits, count);
    if count <= cap {
        let nb = buf ^ (bits << ((cp - c) as u64));
        assert(st2 == (nb, (cap - count) as nat, out));
        assert forall|j: u64| j < 64 - cp implies #[trigger] ((nb >> ((63 - j) as u64)) & 1) == ((buf >> ((63 - j) as u64)) & 1) by {
            assert(c <= cp <= 63 && 1 <= c && bits >> c == 0 && j < 64 - cp ==> ((buf ^ (bits << ((cp - c) as u64))) >> ((63 - j) as u64)) & 1 == (buf >> ((63 - j) as u64)) & 1) by (bit_vector);
        }
        assert forall|j: u64| 64 - cp <= j < 64 - cp + c implies #[trigger] ((nb >> ((63 - j) as u64)) & 1) == ((bits >> ((c - 1 - (j - (64 - cp))) as u64)) & 1) by {
            assert(c <= cp <= 63 && 1 <= c && bits >> c == 0 && (buf << ((64 - cp) as u64) == 0 || cp == 0) && 64 - cp <= j < 64 - cp + c
                ==> ((buf ^ (bits << ((cp - c) as u64))) >> ((63 - j) as u64)) & 1 == (bits >> ((c - 1 - (j - (64 - cp))) as u64)) & 1) by (bit_vector);
        }
        assert(c <= cp <= 63 && 1 <= c && bits >> c == 0 && (buf << ((64 - cp) as u64) == 0 || cp == 0)
            ==> ((buf ^ (bits << ((cp - c) as u64))) << ((64 - (cp - c)) as u64) == 0 || cp - c == 0)) by (bit_vector);
        assert forall|j: int| 0 <= j < 64 - (cap - count) implies #[trigger] l2[8 * out.len() + j] == word_bit(nb, j as nat) by {
            if j < 64 - cap {
                assert((nb >> ((63 - j) as u64)) & 1 == (buf >> ((63 - j) as u64)) & 1);
            } else {
                assert((nb >> ((63 - j) as u64)) & 1 == (bits >> ((c - 1 - (j as u64 - (64 - cp))) as u64)) & 1);
            }
        }
    } else {
        let rem = (count - cap) as nat;
        let r = rem as u64;
        let flushed = if rem < 64 { buf ^ (bits >> r) } else { buf };
        let nb = bits << (64 - r);
        let out2 = out + le_bytes(flushed as nat, 8);
        assert(st2 == (nb, (64 - rem) as nat, out2));
        lemma_chunk_of_le(out, flushed);
        lemma_le_bytes_len(flushed as nat, 8);
        assert forall|j: u64| j < 64 - cp implies #[trigger] ((flushed >> ((63 - j) as u64)) & 1) == ((buf >> ((63 - j) as u64)) & 1) by {
            assert(cp < c <= 64 && r == c - cp && (c < 64 ==> bits >> c == 0) && j < 64 - cp
                ==> ((if r < 64 { buf ^ (bits >> r) } else { buf }) >> ((63 - j) as u64)) & 1 == (buf >> ((63 - j) as u64)) & 1) by (bit_vector);
        }
        assert forall|j: u64| 64 - cp <= j < 64 implies #[trigger] ((flushed >> ((63 - j) as u64)) & 1) == ((bits >> ((c - 1 - (j - (64 - cp))) as u64)) & 1) by {
            assert(cp < c <= 64 && r == c - cp && (c < 64 ==> bits >> c == 0) && (buf << ((64 - cp) as u64) == 0 || cp == 0) && 64 - cp <= j < 64
                ==> ((if r < 64 { buf ^ (bits >> r) } else { buf }) >> ((63 - j) as u64)) & 1 == (bits >> ((c - 1 - (j - (64 - cp))) as u64)) & 1) by (bit_vector);
        }
        assert forall|j: u64| j < r implies #[trigger] ((nb >> ((63 - j) as u64)) & 1) == ((bits >> ((r - 1 - j) as u64)) & 1) by {
            assert(1 <= r <= 64 && j < r ==> ((bits << ((64 - r) as u64)) >> ((63 - j) as u64)) & 1 == (bits >> ((r - 1 - j) as u64)) & 1) by (bit_vector);
        }
        assert(1 <= r <= 64 ==> ((bits << ((64 - r) as u64)) << ((64 - (64 - r)) as u64) == 0 || 64 - r == 0)) by (bit_vector);
        assert forall|i: int| 0 <= i < 8 * out2.len() implies #[trigger] l2[i] == word_bit(chunk_word(out2, (i / 64) as nat), (i % 64) as nat) by {
            if i < 8 * out.len() {
                assert(l2[i] == l[i]);
                assert(chunk_word(out2, (i / 64) as nat) == chunk_word(out, (i / 64) as nat));
            } else {
                assert((i / 64) as nat == out.len() / 8);
                let j = (i % 64) as u64;
                assert(i == 8 * out.len() + j);
                if i < 8 * out.len() + 64 - cap {
                    assert(l2[i] == l[i]);
                    assert(l[8 * out.len() + j] == word_bit(buf, j as nat));
                    assert((flushed >> ((63 - j) as u64)) & 1 == (buf >> ((63 - j) as u64)) & 1);
                } else {
                    assert(l2[i] == code_bits(bits, count)[i - l.len()]);
                    assert((flushed >> ((63 - j) as u64)) & 1 == (bits >> ((c - 1 - (j - (64 - cp))) as u64)) & 1);
                }
            }
        }
        assert forall|j: int| 0 <= j < 64 - (64 - rem) implies #[trigger] l2[8 * out2.len() + j] == word_bit(nb, j as nat) by {
            assert((nb >> ((63 - j) as u64)) & 1 == (bits >> ((r - 1 - j as u64) as u64)) & 1);
        }
    }
}

/// The bits one further value adds, code by code.
pub open spec fn step_bits(prev: u64, prev_xor: u64, value: u64) -> Seq<u64> {
    let xored = prev ^ value;
    if xored == 0 {
        code_bits(0, 1)
    } else {
        let lz = capped_lz(xored);
        let tz = u64_trailing_zeros(xored) as nat;
        let (plz, ptz) = window(prev_xor);
        if lz >= plz && tz >= ptz {
            code_bits(2, 2) + code_bits(xored >> (ptz as u64), (64 - ptz - plz) as nat)
        } else {
            let c = (64 - tz - lz) as nat;
            code_bits(3, 2) + code_bits(lz as u64, 5) + code_bits((c - 1) as u64, 6)
                + code_bits(xored >> (tz as u64), c)
        }
    }
}

/// All bits the codec writes for the non-empty `s`.
pub open spec fn gorilla_bits(s: Seq<u64>) -> Seq<u64>
    decreases s.len(),
{
    if s.len() <= 1 {
        code_bits(s[0], 64)
    } else {
        let st = gorilla_fold(s.drop_last());
        gorilla_bits(s.drop_last()) + step_bits(st.0, st.1, s.last())
    }
}

proof fn lemma_xor_fits(xored: u64, prev_xor: u64)
    requires
        xored != 0,
    ensures
        ({
            let lz = capped_lz(xored);
            let tz = u64_trailing_zeros(xored) as nat;
            let (plz, ptz) = window(prev_xor);
            &&& lz <= 31
            &&& tz + lz <= 63
            &&& (lz >= plz && tz >= ptz) ==> ptz + plz <= 63 && ptz < 64
                && ((64 - ptz - plz) < 64 ==> (xored >> (ptz as u64)) >> ((64 - ptz - plz) as u64) == 0)
            &&& ((64 - tz - lz) < 64 ==> (xored >> (tz as u64)) >> ((64 - tz - lz) as u64) == 0)
        }),
{
    axiom_u64_leading_zeros(xored);
    axiom_u64_trailing_zeros(xored);
    axiom_u64_leading_zeros(prev_xor);
    axiom_u64_trailing_zeros(prev_xor);
    let lza = u64_leading_zeros(xored) as u64;
    let lz = capped_lz(xored) as u64;
    let tz = u64_trailing_zeros(xored) as u64;
    let tzb = tz;
    if tz + lza >= 64 {
        assert((xored >> tz) & 1u64 == 0u64);
    }
    assert(lz <= lza && lza <= 64 && xored >> ((64 - lza) as u64) == 0 && tz < 64 && tz + lz <= 63
        ==> (xored >> tz) >> ((64 - tz - lz) as u64) == 0) by (bit_vector);
    let (plz, ptz) = window(prev_xor);
    if lz >= plz && tz >= ptz {
        let p = plz as u64;
        let q = ptz as u64;
        assert(p <= lz && lz <= lza && lza <= 64 && xored >> ((64 - lza) as u64) == 0 && q <= tz && tz < 64 && q + p <= 63
            ==> (xored >> q) >> ((64 - q - p) as u64) == 0) by (bit_vector);
    }
}

/// The packer holds exactly the codec's bits after each value.
pub proof fn lemma_fold_holds(s: Seq<u64>)
    requires
        s.len() >= 1,
    ensures
        writer_holds(gorilla_fold(s).2, gorilla_bits(s)),
    decreases s.len(),
{
    if s.len() == 1 {
        let f = s[0];
        assert forall|j: int| 0 <= j < 64 implies #[trigger] gorilla_bits(s)[8 * 0 + j] == word_bit(f, j as nat) by {}
    } else {
        let p = s.drop_last();
        lemma_fold_holds(p);
        let (prev, prev_xor, bs) = gorilla_fold(p);
        let value = s.last();
        let xored = prev ^ value;
        let l = gorilla_bits(p);
        assert(0u64 >> 1u64 == 0 && 2u64 >> 2u64 == 0 && 3u64 >> 2u64 == 0) by (bit_vector);
        if xored == 0 {
            lemma_write_appends(bs, l, 0, 1);
        } else {
            lemma_xor_fits(xored, prev_xor);
            let lz = capped_lz(xored);
            let tz = u64_trailing_zeros(xored) as nat;
            let (plz, ptz) = window(prev_xor);
            if lz >= plz && tz >= ptz {
                let w1 = bits_write(bs, 2, 2);
                lemma_write_appends(bs, l, 2, 2);
                lemma_write_appends(w1, l + code_bits(2, 2), xored >> (ptz as u64), (64 - ptz - plz) as nat);
                assert(l + code_bits(2, 2) + code_bits(xored >> (ptz as u64), (64 - ptz - plz) as nat)
                    =~= l + step_bits(prev, prev_xor, value));
            } else {
                let c = (64 - tz - lz) as nat;
                let lzu = lz as u64;
                let cu = (c - 1) as u64;
                assert(lzu <= 31 ==> lzu >> 5u64 == 0) by (bit_vector);
                assert(cu <= 63 ==> cu >> 6u64 == 0) by (bit_vector);
                let w1 = bits_write(bs, 3, 2);
                let w2 = bits_write(w1, lz as u64, 5);
                let w3 = bits_write(w2, (c - 1) as u64, 6);
                let l1 = l + code_bits(3, 2);
                let l2 = l1 + code_bits(lz as u64, 5);
                let l3 = l2 + code_bits((c - 1) as u64, 6);
                lemma_write_appends(bs, l, 3, 2);
                lemma_write_appends(w1, l1, lz as u64, 5);
                lemma_write_appends(w2, l2, (c - 1) as u64, 6);
                lemma_write_appends(w3, l3, xored >> (tz as u64), c);
                assert(l3 + code_bits(xored >> (tz as u64), c) =~= l + step_bits(prev, prev_xor, value));
            }
        }
    }
}

proof fn lemma_drop_low_bytes(x: u64, m: nat)
    requires
        m <= 8,
    ensures
        drop_low_bytes(x as nat, m) == (x >> ((8 * m) as u64)) as nat,
    decreases m,
{
    if m > 0 {
        assert(x / 256 == x >> 8u64) by (bit_vector);
        let y = (x / 256) as u64;
        lemma_drop_low_bytes(y, (m - 1) as nat);
        let k = (8 * (m - 1)) as u64;
        assert(k <= 56 ==> (x >> 8u64) >> k == x >> ((k + 8) as u64)) by (bit_vector);
        assert((8 * m) as u64 == k + 8);
    } else {
        assert(x >> 0u64 == x) by (bit_vector);
    }
}

/// The finished stream is well laid out, and its words hold the packer's bits.
proof fn lemma_finish_words(st: BitState, l: Seq<u64>)
    requires
        writer_holds(st, l),
        l.len() >= 64,
    ensures
        layout_ok(bits_finish(st)),
        total_bits(bits_finish(st)) == l.len(),
        forall|i: int| 0 <= i < l.len() ==> #[trigger] bit(stream_words(bits_finish(st)), i as nat) == l[i],
{
    let (buf, cap, out) = st;
    let used = (64 - cap) as nat;
    let n = (used + 7) / 8;
    let m = (8 - n) as nat;
    let y = drop_low_bytes(buf as nat, m);
    let tail = le_bytes(y, n);
    let b = bits_finish(st);
    lemma_le_bytes_len(y, n);
    assert(b == out + tail + seq![used as u8]);
    assert(b.last() == used);
    assert(tail_bytes(b.last() as nat) == n);
    assert(whole_words(b) == out.len() / 8);
    let ws = stream_words(b);
    lemma_drop_low_bytes(buf, m);
    let sh = (8 * m) as u64;
    let yu = buf >> sh;
    lemma2_to64();
    lemma2_to64_rest();
    if n == 1 {
        assert(buf >> 56u64 < 0x100) by (bit_vector);
    } else if n == 2 {
        assert(buf >> 48u64 < 0x1_0000) by (bit_vector);
    } else if n == 3 {
        assert(buf >> 40u64 < 0x100_0000) by (bit_vector);
    } else if n == 4 {
        assert(buf >> 32u64 < 0x1_0000_0000) by (bit_vector);
    } else if n == 5 {
        assert(buf >> 24u64 < 0x100_0000_0000) by (bit_vector);
    } else if n == 6 {
        assert(buf >> 16u64 < 0x1_0000_0000_0000) by (bit_vector);
    } else if n == 7 {
        assert(buf >> 8u64 < 0x100_0000_0000_0000) by (bit_vector);
    } else {
        assert(buf >> 0u64 == buf) by (bit_vector);
    }
    assert(y < pow2(8 * n));
    lemma_le_round_trip(y, n);
    vstd::arithmetic::div_mod::lemma_small_mod(y, pow2(8 * n));
    let k = out.len() / 8;
    assert(b.subrange((8 * k) as int, (8 * k + n) as int) =~= tail);
    assert(word(b, k) == yu << sh);
    assert forall|kk: nat| kk < k implies #[trigger] word(b, kk) == chunk_word(out, kk) by {
        assert(b.subrange((8 * kk) as int, (8 * kk + 8) as int) =~= out.subrange((8 * kk) as int, (8 * kk + 8) as int));
    }
    assert forall|i: int| 0 <= i < l.len() implies #[trigger] bit(ws, i as nat) == l[i] by {
        if i < 8 * out.len() {
            assert(word(b, (i / 64) as nat) == chunk_word(out, (i / 64) as nat));
        } else {
            let j = (i - 8 * out.len()) as u64;
            assert(i / 64 == k);
            assert(i % 64 == j);
            assert(l[8 * out.len() + j] == word_bit(buf, j as nat));
            assert(sh <= 56 && j < 64 - sh ==> ((buf >> sh) << sh) >> ((63 - j) as u64) & 1 == (buf >> ((63 - j) as u64)) & 1) by (bit_vector);
        }
    }
}

/// Reading `c` bits that hold a code gives the code back.
proof fn lemma_bits_at_code(ws: Seq<u64>, p: nat, c: nat, code: u64)
    requires
        c <= 64,
        c < 64 ==> code >> (c as u64) == 0,
        forall|j: int| 0 <= j < c ==> #[trigger] bit(ws, p + j as nat) == code_bits(code, c)[j],
    ensures
        bits_at(ws, p, c) == code,
    decreases c,
{
    let cu = c as u64;
    if c == 0 {
        assert(code >> 0u64 == code) by (bit_vector);
    } else {
        let half = code >> 1u64;
        assert(1 <= cu <= 64 && (cu < 64 ==> code >> cu == 0) ==> (code >> 1u64) >> ((cu - 1) as u64) == 0 || cu - 1 == 64) by (bit_vector);
        assert forall|j: int| 0 <= j < c - 1 implies #[trigger] bit(ws, p + j as nat) == code_bits(half, (c - 1) as nat)[j] by {
            let ju = j as u64;
            assert(ju < cu - 1 && cu <= 64 ==> ((code >> 1u64) >> ((cu - 1 - 1 - ju) as u64)) & 1 == (code >> ((cu - 1 - ju) as u64)) & 1) by (bit_vector);
        }
        lemma_bits_at_code(ws, p, (c - 1) as nat, half);
        let jj: int = c - 1;
        assert(bit(ws, p + jj as nat) == code_bits(code, c)[jj]);
        assert(p + jj as nat == (p + c - 1) as nat);
        assert((code >> 0u64) & 1 == code & 1) by (bit_vector);
        assert(code >> 1u64 <= 0x7fff_ffff_ffff_ffff) by (bit_vector);
        assert((code >> 1u64) * 2 + (code & 1) == code) by (bit_vector);
    }
}

proof fn lemma_bits_prefix(s: Seq<u64>, m: int)
    requires
        1 <= m <= s.len(),
    ensures
        gorilla_bits(s.take(m)).len() <= gorilla_bits(s).len(),
        gorilla_bits(s) .subrange(0, gorilla_bits(s.take(m)).len() as int) == gorilla_bits(s.take(m)),
        gorilla_bits(s.take(m)).len() >= 64,
    decreases s.len(),
{
    if m == s.len() {
        assert(s.take(m) =~= s);
        assert(gorilla_bits(s).subrange(0, gorilla_bits(s).len() as int) =~= gorilla_bits(s));
    } else {
        let p = s.drop_last();
        assert(s.take(m) =~= p.take(m));
        lemma_bits_prefix(p, m);
        let a = gorilla_bits(p);
        let st = gorilla_fold(p);
        assert(gorilla_bits(s) == a + step_bits(st.0, st.1, s.last()));
        assert(gorilla_bits(s).subrange(0, gorilla_bits(s.take(m)).len() as int)
            =~= a.subrange(0, gorilla_bits(s.take(m)).len() as int));
    }
    if s.take(m).len() == 1 {
        assert(gorilla_bits(s.take(m)).len() == 64);
    } else {
        lemma_bits_len(s.take(m));
    }
}

proof fn lemma_bits_len(s: Seq<u64>)
    requires
        s.len() >= 1,
    ensures
        gorilla_bits(s).len() >= 64,
    decreases s.len(),
{
    if s.len() > 1 {
        lemma_bits_len(s.drop_last());
    }
}

/// Decoding the bits of one more value gives that value and the encoder's state.
proof fn lemma_decode_one(ws: Seq<u64>, t: nat, s: Seq<u64>, m: int, out: Seq<u64>)
    requires
        2 <= m <= s.len(),
        gorilla_bits(s.take(m)).len() <= t,
        forall|i: int| 0 <= i < gorilla_bits(s.take(m)).len() ==> #[trigger] bit(ws, i as nat) == gorilla_bits(s.take(m))[i],
    ensures
        ({
            let p = s.take(m - 1);
            let st = gorilla_fold(p);
            let q = s.take(m);
            decode_step(ws, t, (st.0, st.1, gorilla_bits(p).len(), out))
                == Some((gorilla_fold(q).0, gorilla_fold(q).1, gorilla_bits(q).len(), out.push(s[m - 1])))
        }),
{
    let p = s.take(m - 1);
    let q = s.take(m);
    assert(q.drop_last() =~= p);
    let (prev, prev_xor, bs) = gorilla_fold(p);
    let value = s[m - 1];
    assert(q.last() == value);
    let xored = prev ^ value;
    let base = gorilla_bits(p).len();
    let sb = step_bits(prev, prev_xor, value);
    assert(gorilla_bits(q) == gorilla_bits(p) + sb);
    assert forall|j: int| 0 <= j < sb.len() implies #[trigger] bit(ws, base + j as nat) == sb[j] by {
        assert(gorilla_bits(q)[base + j] == sb[j]);
    }
    assert(gorilla_fold(q) == crate::gorilla::gorilla_step(gorilla_fold(p), value));
    if xored == 0 {
        assert(bit(ws, base + 0) == sb[0]);
        assert((0u64 >> 0u64) & 1 == 0) by (bit_vector);
        assert(prev ^ value == 0 ==> prev == value) by (bit_vector);
    } else {
        lemma_xor_fits(xored, prev_xor);
        axiom_u64_trailing_zeros(xored);
        axiom_u64_leading_zeros(prev_xor);
        let lz = capped_lz(xored);
        let tz = u64_trailing_zeros(xored) as nat;
        let (plz, ptz) = window(prev_xor);
        let tzu = tz as u64;
        assert(tzu < 64 && xored << ((64 - tzu) as u64) == 0 ==> (xored >> tzu) << tzu == xored) by (bit_vector);
        assert(prev ^ (prev ^ value) == value) by (bit_vector);
        if lz >= plz && tz >= ptz {
            let c = (64 - ptz - plz) as nat;
            let code = xored >> (ptz as u64);
            assert(sb == code_bits(2, 2) + code_bits(code, c));
            assert(bit(ws, base + 0) == sb[0]);
            assert(bit(ws, base + 1) == sb[1]);
            assert((2u64 >> 1u64) & 1 == 1 && (2u64 >> 0u64) & 1 == 0) by (bit_vector);
            assert forall|j: int| 0 <= j < c implies #[trigger] bit(ws, (base + 2) as nat + j as nat) == code_bits(code, c)[j] by {
                assert(bit(ws, base + (2 + j) as nat) == sb[2 + j]);
            }
            lemma_bits_at_code(ws, (base + 2) as nat, c, code);
            let q2 = ptz as u64;
            assert(q2 <= tzu && tzu < 64 && xored << ((64 - tzu) as u64) == 0 ==> (xored >> q2) << q2 == xored) by (bit_vector);
        } else {
            let c = (64 - tz - lz) as nat;
            let code = xored >> (tz as u64);
            assert(sb == code_bits(3, 2) + code_bits(lz as u64, 5) + code_bits((c - 1) as u64, 6) + code_bits(code, c));
            assert(bit(ws, base + 0) == sb[0]);
            assert(bit(ws, base + 1) == sb[1]);
            assert((3u64 >> 1u64) & 1 == 1 && (3u64 >> 0u64) & 1 == 1) by (bit_vector);
            let lzu = lz as u64;
            let cu = (c - 1) as u64;
            assert(lzu <= 31 ==> lzu >> 5u64 == 0) by (bit_vector);
            assert(cu <= 63 ==> cu >> 6u64 == 0) by (bit_vector);
            assert forall|j: int| 0 <= j < 5 implies #[trigger] bit(ws, (base + 2) as nat + j as nat) == code_bits(lzu, 5)[j] by {
                assert(bit(ws, base + (2 + j) as nat) == sb[2 + j]);
            }
            assert forall|j: int| 0 <= j < 6 implies #[trigger] bit(ws, (base + 7) as nat + j as nat) == code_bits(cu, 6)[j] by {
                assert(bit(ws, base + (7 + j) as nat) == sb[7 + j]);
            }
            assert forall|j: int| 0 <= j < c implies #[trigger] bit(ws, (base + 13) as nat + j as nat) == code_bits(code, c)[j] by {
                assert(bit(ws, base + (13 + j) as nat) == sb[13 + j]);
            }
            lemma_bits_at_code(ws, (base + 2) as nat, 5, lzu);
            lemma_bits_at_code(ws, (base + 7) as nat, 6, cu);
            lemma_bits_at_code(ws, (base + 13) as nat, c, code);
        }
    }
}

proof fn lemma_decode_rest(ws: Seq<u64>, t: nat, s: Seq<u64>, m: int)
    requires
        1 <= m <= s.len(),
        t == gorilla_bits(s).len(),
        forall|i: int| 0 <= i < t ==> #[trigger] bit(ws, i as nat) == gorilla_bits(s)[i],
    ensures
        decode_from(ws, t, (gorilla_fold(s.take(m)).0, gorilla_fold(s.take(m)).1, gorilla_bits(s.take(m)).len(), s.take(m)))
            == Some(s),
    decreases s.len() - m,
{
    if m == s.len() {
        assert(s.take(m) =~= s);
    } else {
        let q = s.take(m + 1);
        let p = s.take(m);
        assert(q.drop_last() =~= p);
        lemma_bits_prefix(s, m + 1);
        let st = gorilla_fold(p);
        assert(gorilla_bits(q) == gorilla_bits(p) + step_bits(st.0, st.1, q.last()));
        assert(step_bits(st.0, st.1, q.last()).len() >= 1);
        assert forall|i: int| 0 <= i < gorilla_bits(q).len() implies #[trigger] bit(ws, i as nat) == gorilla_bits(q)[i] by {
            assert(gorilla_bits(s).subrange(0, gorilla_bits(q).len() as int)[i] == gorilla_bits(q)[i]);
        }
        assert(s.take(m + 1 - 1) =~= p);
        lemma_decode_one(ws, t, s, m + 1, p);
        assert(p.push(s[m]) =~= q);
        lemma_decode_rest(ws, t, s, m + 1);
    }
}

/// The codec for doubles round-trips: decoding what `compress` wrote for a
/// non-empty sequence of bit patterns gives exactly those bit patterns back.
pub proof fn lemma_gorilla_round_trip(s: Seq<u64>)
    requires
        s.len() >= 1,
    ensures
        gorilla_decode(gorilla_bytes(s)) == Some(s),
{
    let l = gorilla_bits(s);
    let st = gorilla_fold(s).2;
    lemma_fold_holds(s);
    lemma_bits_len(s);
    lemma_finish_words(st, l);
    let b = gorilla_bytes(s);
    let ws = stream_words(b);
    let t = total_bits(b);
    lemma_bits_prefix(s, 1);
    let one = s.take(1);
    assert(gorilla_bits(one) == code_bits(s[0], 64));
    assert forall|j: int| 0 <= j < 64 implies #[trigger] bit(ws, 0 + j as nat) == code_bits(s[0], 64)[j] by {
        assert(l.subrange(0, 64)[j] == gorilla_bits(one)[j]);
    }
    lemma_bits_at_code(ws, 0, 64, s[0]);
    assert(one =~= seq![s[0]]);
    lemma_decode_rest(ws, t, s, 1);
}

} // verus!
