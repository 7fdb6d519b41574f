use vstd::prelude::*;
use crate::types::{RootTypeId, ReadError};
use crate::varint::{le_bytes, push_le, le_value, read_le, lemma_le_round_trip, lemma_le_bytes_len};
use vstd::arithmetic::power2::{pow2, lemma2_to64, lemma2_to64_rest};

verus! {

/// Number of little-endian payload bytes a root integer takes.
pub open spec fn root_len(v: nat) -> nat {
    if v <= 1 {
        0
    } else if v < 0x100 {
        1
    } else if v < 0x1_0000 {
        2
    } else if v < 0x100_0000 {
        3
    } else if v < 0x1_0000_0000 {
        4
    } else if v < 0x100_0000_0000 {
        5
    } else if v < 0x1_0000_0000_0000 {
        6
    } else if v < 0x100_0000_0000_0000 {
        7
    } else {
        8
    }
}

/// The smallest root form whose payload holds `v`.
pub open spec fn root_id(v: nat) -> RootTypeId {
    if v == 0 {
        RootTypeId::Zero
    } else if v == 1 {
        RootTypeId::One
    } else {
        let n = root_len(v);
        if n == 1 {
            RootTypeId::IntU8
        } else if n == 2 {
            RootTypeId::IntU16
        } else if n == 3 {
            RootTypeId::IntU24
        } else if n == 4 {
            RootTypeId::IntU32
        } else if n == 5 {
            RootTypeId::IntU40
        } else if n == 6 {
            RootTypeId::IntU48
        } else if n == 7 {
            RootTypeId::IntU56
        } else {
            RootTypeId::IntU64
        }
    }
}

/// Writes a singleton unsigned integer at the root: the smallest form that holds
/// it, followed by that many little-endian bytes.
pub fn write_root_uint(value: u64, bytes: &mut Vec<u8>) -> (r: RootTypeId)
    ensures
        r == root_id(value as nat),
        final(bytes)@ == old(bytes)@ + le_bytes(value as nat, root_len(value as nat)),
{
    let (id, n): (RootTypeId, usize) = if value == 0 {
        (RootTypeId::Zero, 0)
    } else if value == 1 {
        (RootTypeId::One, 0)
    } else if value < 0x100 {
        (RootTypeId::IntU8, 1)
    } else if value < 0x1_0000 {
        (RootTypeId::IntU16, 2)
    } else if value < 0x100_0000 {
        (RootTypeId::IntU24, 3)
    } else if value < 0x1_0000_0000 {
        (RootTypeId::IntU32, 4)
    } else if value < 0x100_0000_0000 {
        (RootTypeId::IntU40, 5)
    } else if value < 0x1_0000_0000_0000 {
        (RootTypeId::IntU48, 6)
    } else if value < 0x100_0000_0000_0000 {
        (RootTypeId::IntU56, 7)
    } else {
        (RootTypeId::IntU64, 8)
    };
    push_le(value, n, bytes);
    id
}

/// Number of payload bytes that follow a root form.
pub open spec fn root_width(id: RootTypeId) -> nat {
    match id {
        RootTypeId::Zero => 0,
        RootTypeId::One => 0,
        RootTypeId::IntU8 => 1,
        RootTypeId::IntU16 => 2,
        RootTypeId::IntU24 => 3,
        RootTypeId::IntU32 => 4,
        RootTypeId::IntU40 => 5,
        RootTypeId::IntU48 => 6,
        RootTypeId::IntU56 => 7,
        RootTypeId::IntU64 => 8,
    }
}

/// The root integer of form `id` at the front of `b`.
pub open spec fn root_read(id: RootTypeId, b: Seq<u8>) -> Result<u64, ReadError> {
    if b.len() < root_width(id) {
        Err(ReadError::InvalidFormat)
    } else {
        Ok(
            match id {
                RootTypeId::Zero => 0u64,
                RootTypeId::One => 1u64,
                _ => le_value(b.take(root_width(id) as int)) as u64,
            },
        )
    }
}

/// Reads a root integer of form `id` from the front of `bytes`;
/// `InvalidFormat` when its payload is cut short.
pub fn read_root_uint(id: RootTypeId, bytes: &Vec<u8>) -> (r: Result<u64, ReadError>)
    ensures
        r == root_read(id, bytes@),
{
    let n: usize = match id {
        RootTypeId::Zero => {
            return Ok(0);
        },
        RootTypeId::One => {
            return Ok(1);
        },
        RootTypeId::IntU8 => 1,
        RootTypeId::IntU16 => 2,
        RootTypeId::IntU24 => 3,
        RootTypeId::IntU32 => 4,
        RootTypeId::IntU40 => 5,
        RootTypeId::IntU48 => 6,
        RootTypeId::IntU56 => 7,
        RootTypeId::IntU64 => 8,
    };
    if bytes.len() < n {
        return Err(ReadError::InvalidFormat);
    }
    assert(bytes@.subrange(0, n as int) =~= bytes@.take(n as int));
    Ok(read_le(bytes, 0, n))
}

/// A root integer reads back as written: the form `write_root_uint` picks
/// announces exactly the bytes it wrote, and they hold the value.
pub proof fn lemma_root_round_trip(v: u64)
    ensures
        root_width(root_id(v as nat)) == root_len(v as nat),
        le_bytes(v as nat, root_len(v as nat)).len() == root_len(v as nat),
        v > 1 ==> le_value(le_bytes(v as nat, root_len(v as nat))) == v,
{
    let n = root_len(v as nat);
    lemma_le_bytes_len(v as nat, n);
    lemma_le_round_trip(v as nat, n);
    lemma2_to64();
    lemma2_to64_rest();
    if v > 1 {
        assert(v < pow2(8 * n));
        vstd::arithmetic::div_mod::lemma_small_mod(v as nat, pow2(8 * n));
    }
}

} // verus!
