use vstd::prelude::*;
use vstd::arithmetic::power2::{pow2, lemma2_to64};
use crate::types::ReadError;

verus! {

/// The `n` low-order bytes of `x`, least significant first.
pub open spec fn le_bytes(x: nat, n: nat) -> Seq<u8>
    decreases n,
{
    if n == 0 {
        Seq::empty()
    } else {
        seq![(x % 256) as u8] + le_bytes(x / 256, (n - 1) as nat)
    }
}

/// The number of bytes the prefix varint of `v` takes.
pub open spec fn varint_size(v: nat) -> nat {
    if v < 0x80 {
        1
    } else if v < 0x4000 {
        2
    } else if v < 0x20_0000 {
        3
    } else if v < 0x1000_0000 {
        4
    } else if v < 0x8_0000_0000 {
        5
    } else if v < 0x400_0000_0000 {
        6
    } else if v < 0x2_0000_0000_0000 {
        7
    } else if v < 0x100_0000_0000_0000 {
        8
    } else {
        9
    }
}

/// `v` can be written as a varint of `n` bytes.
pub open spec fn varint_fits(v: nat, n: nat) -> bool {
    1 <= n <= 9 && (n == 9 || v < pow2(7 * n))
}

/// The varint of `v` written in exactly `n` bytes: for `n <= 8`, the value shifted
/// left by `n` bits under a unary prefix of `n - 1` zero bits and a one bit,
/// little-endian; for `n == 9`, a zero byte and then the eight bytes of `v`.
pub open spec fn varint_bytes_sized(v: nat, n: nat) -> Seq<u8> {
    if 1 <= n <= 8 {
        le_bytes(v * pow2(n) + pow2((n - 1) as nat), n)
    } else {
        seq![0u8] + le_bytes(v, 8)
    }
}

/// The shortest prefix varint of `v`.
pub open spec fn varint_bytes(v: nat) -> Seq<u8> {
    varint_bytes_sized(v, varint_size(v))
}

pub proof fn lemma_le_bytes_len(x: nat, n: nat)
    ensures
        le_bytes(x, n).len() == n,
    decreases n,
{
    if n > 0 {
        lemma_le_bytes_len(x / 256, (n - 1) as nat);
    }
}

/// The shortest size admits the value, and any size above it does too.
pub proof fn lemma_varint_size_fits(v: nat, n: nat)
    requires
        v < 0x1_0000_0000_0000_0000,
        varint_size(v) <= n <= 9,
    ensures
        varint_fits(v, varint_size(v)),
        varint_fits(v, n),
        varint_bytes_sized(v, n).len() == n,
{
    lemma2_to64();
    vstd::arithmetic::power2::lemma2_to64_rest();
    lemma_le_bytes_len(v, 8);
    if 1 <= n <= 8 {
        lemma_le_bytes_len(v * pow2(n) + pow2((n - 1) as nat), n);
    }
}

/// Appends the `n` low-order bytes of `x`, least significant first.
pub(crate) fn push_le(x: u64, n: usize, out: &mut Vec<u8>)
    ensures
        final(out)@ == old(out)@ + le_bytes(x as nat, n as nat),
    decreases n,
{
    if n == 0 {
        assert(old(out)@ + le_bytes(x as nat, 0) =~= old(out)@);
        return;
    }
    out.push((x % 256) as u8);
    push_le(x / 256, n - 1, out);
    assert(final(out)@ =~= old(out)@ + le_bytes(x as nat, n as nat));
}

/// Number of bytes of the shortest prefix varint of `v`.
pub fn size_for_varint(v: u64) -> (r: usize)
    ensures
        r as nat == varint_size(v as nat),
        1 <= r <= 9,
{
    if v < 0x80 {
        1
    } else if v < 0x4000 {
        2
    } else if v < 0x20_0000 {
        3
    } else if v < 0x1000_0000 {
        4
    } else if v < 0x8_0000_0000 {
        5
    } else if v < 0x400_0000_0000 {
        6
    } else if v < 0x2_0000_0000_0000 {
        7
    } else if v < 0x100_0000_0000_0000 {
        8
    } else {
        9
    }
}

/// Appends the varint of `v` in exactly `n` bytes.
pub fn write_varint_sized(v: u64, n: usize, out: &mut Vec<u8>)
    requires
        varint_fits(v as nat, n as nat),
    ensures
        final(out)@ == old(out)@ + varint_bytes_sized(v as nat, n as nat),
{
    proof {
        lemma2_to64();
        vstd::arithmetic::power2::lemma2_to64_rest();
    }
    if n == 9 {
        out.push(0u8);
        push_le(v, 8, out);
        assert(final(out)@ =~= old(out)@ + varint_bytes_sized(v as nat, n as nat));
        return;
    }
    let (mult, half): (u64, u64) = if n == 1 {
        (2, 1)
    } else if n == 2 {
        (4, 2)
    } else if n == 3 {
        (8, 4)
    } else if n == 4 {
        (16, 8)
    } else if n == 5 {
        (32, 16)
    } else if n == 6 {
        (64, 32)
    } else if n == 7 {
        (128, 64)
    } else {
        (256, 128)
    };
    assert(mult as nat == pow2(n as nat) && half as nat == pow2((n - 1) as nat));
    proof {
        vstd::arithmetic::power2::lemma_pow2_adds(7 * n as nat, n as nat);
        assert(7 * n as nat + n as nat == 8 * n as nat);
    }
    assert(v * mult + half < 0x1_0000_0000_0000_0000) by (nonlinear_arith)
        requires
            v < pow2(7 * n as nat),
            mult as nat == pow2(n as nat),
            half < mult,
            pow2(7 * n as nat) * pow2(n as nat) <= 0x1_0000_0000_0000_0000,
    ;
    let x: u64 = v * mult + half;
    push_le(x, n, out);
}

/// Appends the shortest prefix varint of `v`.
pub fn encode_prefix_varint(v: u64, out: &mut Vec<u8>)
    ensures
        final(out)@ == old(out)@ + varint_bytes(v as nat),
{
    let n = size_for_varint(v);
    proof {
        lemma_varint_size_fits(v as nat, n as nat);
    }
    write_varint_sized(v, n, out);
}

/// The number a little-endian byte string denotes.
pub open spec fn le_value(s: Seq<u8>) -> nat
    decreases s.len(),
{
    if s.len() == 0 {
        0
    } else {
        s[0] as nat + 256 * le_value(s.drop_first())
    }
}

/// The varint length announced by a first byte: one more than its trailing
/// zero bits, or 9 for a zero byte.
pub open spec fn prefix_len(b: u8) -> nat {
    if b == 0 {
        9
    } else if b % 2 == 1 {
        1
    } else if b % 4 == 2 {
        2
    } else if b % 8 == 4 {
        3
    } else if b % 16 == 8 {
        4
    } else if b % 32 == 16 {
        5
    } else if b % 64 == 32 {
        6
    } else if b % 128 == 64 {
        7
    } else {
        8
    }
}

pub proof fn lemma_le_value_bound(s: Seq<u8>)
    ensures
        le_value(s) < pow2(8 * s.len()),
    decreases s.len(),
{
    lemma2_to64();
    if s.len() > 0 {
        lemma_le_value_bound(s.drop_first());
        vstd::arithmetic::power2::lemma_pow2_adds(8, 8 * (s.len() - 1) as nat);
        assert(8 + 8 * (s.len() - 1) == 8 * s.len());
        let p = pow2(8 * (s.len() - 1) as nat);
        let v = le_value(s.drop_first());
        assert(s[0] as nat + 256 * v < 256 * p) by (nonlinear_arith)
            requires
                v < p,
                s[0] < 256,
        ;
    }
}

pub proof fn lemma_le_round_trip(x: nat, n: nat)
    ensures
        le_value(le_bytes(x, n)) == x % pow2(8 * n),
    decreases n,
{
    lemma2_to64();
    if n > 0 {
        lemma_le_round_trip(x / 256, (n - 1) as nat);
        assert(le_bytes(x, n).drop_first() =~= le_bytes(x / 256, (n - 1) as nat));
        vstd::arithmetic::power2::lemma_pow2_adds(8, 8 * (n - 1) as nat);
        assert(8 + 8 * (n - 1) == 8 * n);
        vstd::arithmetic::power2::lemma_pow2_pos(8 * (n - 1) as nat);
        vstd::arithmetic::div_mod::lemma_mod_breakdown(x as int, 256, pow2(8 * (n - 1) as nat) as int);
    } else {
        assert(x % 1 == 0);
    }
}

/// Reading what `varint_bytes_sized` wrote gives its length and value back.
pub proof fn lemma_varint_decodes(v: nat, n: nat)
    requires
        varint_fits(v, n),
        v < 0x1_0000_0000_0000_0000,
    ensures
        varint_bytes_sized(v, n).len() == n,
        prefix_len(varint_bytes_sized(v, n)[0]) == n,
        n <= 8 ==> le_value(varint_bytes_sized(v, n)) / pow2(n) == v,
        n == 9 ==> le_value(varint_bytes_sized(v, n).drop_first()) == v,
{
    lemma2_to64();
    vstd::arithmetic::power2::lemma2_to64_rest();
    let b = varint_bytes_sized(v, n);
    if n == 9 {
        lemma_le_bytes_len(v, 8);
        assert(b.drop_first() =~= le_bytes(v, 8));
        lemma_le_round_trip(v, 8);
        vstd::arithmetic::div_mod::lemma_small_mod(v, pow2(64));
    } else {
        let x = v * pow2(n) + pow2((n - 1) as nat);
        lemma_le_bytes_len(x, n);
        vstd::arithmetic::power2::lemma_pow2_adds(7 * n, n);
        assert(7 * n + n == 8 * n);
        assert(x < pow2(8 * n)) by (nonlinear_arith)
            requires
                x == v * pow2(n) + pow2((n - 1) as nat),
                v < pow2(7 * n),
                pow2((n - 1) as nat) < pow2(n),
                pow2(7 * n) * pow2(n) == pow2(8 * n),
        ;
        lemma_le_round_trip(x, n);
        vstd::arithmetic::div_mod::lemma_fundamental_div_mod_converse(
            x as int, pow2(n) as int, v as int, pow2((n - 1) as nat) as int);
        let b0 = x % 256;
        assert(b[0] == b0 as u8);
        if n == 1 {
            assert(b0 % 2 == 1) by (nonlinear_arith) requires x == v * 2 + 1, b0 == x % 256;
        } else if n == 2 {
            assert(b0 % 2 == 0 && b0 % 4 == 2) by (nonlinear_arith) requires x == v * 4 + 2, b0 == x % 256;
        } else if n == 3 {
            assert(b0 % 2 == 0 && b0 % 4 == 0 && b0 % 8 == 4) by (nonlinear_arith)
                requires x == v * 8 + 4, b0 == x % 256;
        } else if n == 4 {
            assert(b0 % 2 == 0 && b0 % 4 == 0 && b0 % 8 == 0 && b0 % 16 == 8) by (nonlinear_arith)
                requires x == v * 16 + 8, b0 == x % 256;
        } else if n == 5 {
            assert(b0 % 2 == 0 && b0 % 4 == 0 && b0 % 8 == 0 && b0 % 16 == 0 && b0 % 32 == 16)
                by (nonlinear_arith) requires x == v * 32 + 16, b0 == x % 256;
        } else if n == 6 {
            assert(b0 % 2 == 0 && b0 % 4 == 0 && b0 % 8 == 0 && b0 % 16 == 0 && b0 % 32 == 0
                && b0 % 64 == 32) by (nonlinear_arith) requires x == v * 64 + 32, b0 == x % 256;
        } else if n == 7 {
            assert(b0 % 2 == 0 && b0 % 4 == 0 && b0 % 8 == 0 && b0 % 16 == 0 && b0 % 32 == 0
                && b0 % 64 == 0 && b0 % 128 == 64) by (nonlinear_arith)
                requires x == v * 128 + 64, b0 == x % 256;
        } else {
            assert(b0 == 128) by (nonlinear_arith) requires x == v * 256 + 128, b0 == x % 256;
        }
    }
}

/// The value of a whole varint `seg`.
pub open spec fn varint_value(seg: Seq<u8>) -> u64 {
    if prefix_len(seg[0]) == 9 {
        le_value(seg.drop_first()) as u64
    } else {
        (le_value(seg) / pow2(prefix_len(seg[0]))) as u64
    }
}

/// Reads `n` little-endian bytes starting at `start`.
pub(crate) fn read_le(bytes: &Vec<u8>, start: usize, n: usize) -> (r: u64)
    requires
        n <= 8,
        start + n <= bytes@.len(),
    ensures
        r == le_value(bytes@.subrange(start as int, start + n)),
    decreases n,
{
    if n == 0 {
        return 0;
    }
    let _total = bytes.len();
    let rest = read_le(bytes, start + 1, n - 1);
    proof {
        lemma2_to64();
        lemma_le_value_bound(bytes@.subrange(start + 1, start + n));
        vstd::arithmetic::power2::lemma2_to64_rest();
        if n < 8 {
            vstd::arithmetic::power2::lemma_pow2_strictly_increases(8 * (n - 1) as nat, 56);
        }
        assert(bytes@.subrange(start as int, start + n).drop_first() =~= bytes@.subrange(start + 1, start + n));
        assert(256 * rest + 255 < 0x1_0000_0000_0000_0000) by (nonlinear_arith)
            requires
                rest < pow2(8 * (n - 1) as nat),
                pow2(8 * (n - 1) as nat) <= 0x100_0000_0000_0000,
        ;
    }
    bytes[start] as u64 + 256 * rest
}

/// Decodes one prefix varint from `bytes[offset..end]`, returning its value and
/// where it ends; `InvalidFormat` when it runs past `end`.
pub fn decode_prefix_varint(bytes: &Vec<u8>, offset: usize, end: usize) -> (r: Result<(u64, usize), ReadError>)
    requires
        offset <= end <= bytes@.len(),
    ensures
        r is Ok <==> offset < end && offset + prefix_len(bytes@[offset as int]) <= end,
        r matches Ok((v, next)) ==> next == offset + prefix_len(bytes@[offset as int])
            && v == varint_value(bytes@.subrange(offset as int, next as int)),
        r matches Ok((_, next)) ==> offset < next <= end,
        r matches Err(e) ==> e == ReadError::InvalidFormat,
        forall|v: u64, n: nat|
            #![trigger varint_bytes_sized(v as nat, n), bytes@.subrange(offset as int, offset + n)]
            varint_fits(v as nat, n) && offset + n <= end
                && bytes@.subrange(offset as int, offset + n) == varint_bytes_sized(v as nat, n)
                ==> r == Ok::<(u64, usize), ReadError>((v, (offset + n) as usize)),
{
    if offset >= end {
        proof {
            assert forall|v: u64, n: nat| varint_fits(v as nat, n) implies offset + n > end by {}
        }
        return Err(ReadError::InvalidFormat);
    }
    let b0 = bytes[offset];
    let n: usize = if b0 == 0 {
        9
    } else if b0 % 2 == 1 {
        1
    } else if b0 % 4 == 2 {
        2
    } else if b0 % 8 == 4 {
        3
    } else if b0 % 16 == 8 {
        4
    } else if b0 % 32 == 16 {
        5
    } else if b0 % 64 == 32 {
        6
    } else if b0 % 128 == 64 {
        7
    } else {
        8
    };
    assert(n == prefix_len(b0));
    proof {
        assert forall|v: u64, n2: nat|
            #![trigger varint_bytes_sized(v as nat, n2), bytes@.subrange(offset as int, offset + n2)]
            varint_fits(v as nat, n2) && offset + n2 <= end
                && bytes@.subrange(offset as int, offset + n2) == varint_bytes_sized(v as nat, n2)
            implies n2 == n by {
            lemma_varint_decodes(v as nat, n2);
            assert(bytes@.subrange(offset as int, offset + n2)[0] == b0);
        }
    }
    if end - offset < n {
        return Err(ReadError::InvalidFormat);
    }
    let v: u64 = if n == 9 {
        assert(bytes@.subrange(offset as int, offset + 9).drop_first() =~= bytes@.subrange(offset + 1, offset + 9));
        read_le(bytes, offset + 1, 8)
    } else {
        let x = read_le(bytes, offset, n);
        let d: u64 = if n == 1 {
            2
        } else if n == 2 {
            4
        } else if n == 3 {
            8
        } else if n == 4 {
            16
        } else if n == 5 {
            32
        } else if n == 6 {
            64
        } else if n == 7 {
            128
        } else {
            256
        };
        proof {
            lemma2_to64();
            assert(d as nat == pow2(n as nat));
        }
        x / d
    };
    proof {
        assert forall|v2: u64, n2: nat|
            #![trigger varint_bytes_sized(v2 as nat, n2), bytes@.subrange(offset as int, offset + n2)]
            varint_fits(v2 as nat, n2) && offset + n2 <= end
                && bytes@.subrange(offset as int, offset + n2) == varint_bytes_sized(v2 as nat, n2)
            implies v2 == v by {
            lemma_varint_decodes(v2 as nat, n2);
            lemma2_to64();
            if n == 9 {
                assert(bytes@.subrange(offset as int, offset + n2).drop_first()
                    =~= bytes@.subrange(offset + 1, offset + 9));
            }
        }
    }
    Ok((v, offset + n))
}

} // verus!
