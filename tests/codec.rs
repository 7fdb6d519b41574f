use tree_buf::compressors::{BytesCompressor, PrefixVarIntCompressor, Simple16Compressor, SIMPLE16_MAX};
use tree_buf::gorilla::{compress as gorilla_compress, decompress as gorilla_decompress};
use tree_buf::integer::{flush, write_array};
use tree_buf::reader::{expand_runs, read_branch, UintReader};
use tree_buf::root::{read_root_uint, write_root_uint};
use tree_buf::traits::{InfallibleReaderArray, Readable, ReaderArray, Writable, WriterArray};
use tree_buf::select::{rle_split, select, Width};
use tree_buf::stream::WriterStream;
use tree_buf::types::{ArrayTypeId, ReadError, RootTypeId};
use tree_buf::varint::{decode_prefix_varint, encode_prefix_varint, size_for_varint};

fn encode(values: &[u64], w: Width) -> (ArrayTypeId, WriterStream) {
    let mut s = WriterStream::new();
    let id = write_array(&values.to_vec(), w, &mut s);
    (id, s)
}

fn decode(s: &WriterStream, w: Width) -> Vec<u64> {
    let mut r = UintReader::new(&s.bytes, &s.lens, w).unwrap();
    let n = r.values.len();
    (0..n).map(|_| r.read_next()).collect()
}

fn framed(s: &WriterStream, tags: usize) -> bool {
    s.lens.iter().sum::<usize>() + tags == s.bytes.len()
}

#[test]
fn empty_array_is_void() {
    let (id, s) = encode(&[], Width::U32);
    assert_eq!(id, ArrayTypeId::Void);
    assert_eq!(s.bytes, vec![0u8]);
    assert!(s.lens.is_empty());
    assert!(decode(&s, Width::U32).is_empty());
}

#[test]
fn zeros_and_ones_lower_to_bool() {
    let xs = [0u64, 1, 0, 1, 1];
    let (id, s) = encode(&xs, Width::U32);
    assert_eq!(id, ArrayTypeId::Boolean);
    assert_eq!(s.bytes, vec![1u8, 0, 1, 0, 1, 1]);
    assert_eq!(s.lens, vec![5usize]);
    assert_eq!(decode(&s, Width::U32), xs.to_vec());
}

#[test]
fn repeated_value_uses_rle() {
    let xs = [7u64; 10];
    let (runs, values) = rle_split(&xs.to_vec());
    assert_eq!(runs, vec![10u64]);
    assert_eq!(values, vec![7u64]);
    let (id, s) = encode(&xs, Width::U32);
    assert_eq!(id, ArrayTypeId::RLE);
    assert_eq!(s.bytes, vec![6u8, 2, 10, 2, 7]);
    assert_eq!(s.lens, vec![1usize, 1]);
    assert!(framed(&s, 3));
    assert_eq!(decode(&s, Width::U32), xs.to_vec());
}

#[test]
fn small_u64_values_lower_to_u8_palette() {
    let xs: Vec<u64> = (1..=100).collect();
    let (id, s) = encode(&xs, Width::U64);
    assert!(id == ArrayTypeId::IntSimple16 || id == ArrayTypeId::U8);
    assert!(s.bytes.len() <= 101);
    let mut r = UintReader::new(&s.bytes, &s.lens, Width::U8).unwrap();
    let back: Vec<u64> = (0..100).map(|_| r.read_next()).collect();
    assert_eq!(back, xs);
    assert!(r.values[100..].iter().all(|v| *v == 0));
}

#[test]
fn large_u32_is_not_lowered() {
    let xs = [u32::MAX as u64, 0];
    let (id, s) = encode(&xs, Width::U32);
    assert_eq!(id, ArrayTypeId::IntPrefixVar);
    assert_eq!(s.bytes.len(), 1 + 5 + 1);
    assert_eq!(s.bytes[6], 1u8);
    assert_eq!(decode(&s, Width::U32), xs.to_vec());
}

#[test]
fn singleton_round_trips() {
    let (_, s) = encode(&[300], Width::U16);
    assert_eq!(decode(&s, Width::U16), vec![300u64]);
}

#[test]
fn mixed_values_round_trip() {
    let xs = [5u64, 5, 5, 1_000_000, 3, 3, 70_000, 0, 0, 0, 0, 12];
    let (_, s) = encode(&xs, Width::U64);
    let mut r = UintReader::new(&s.bytes, &s.lens, Width::U64).unwrap();
    let back: Vec<u64> = (0..xs.len()).map(|_| r.read_next()).collect();
    assert_eq!(back, xs.to_vec());
}

#[test]
fn gorilla_scenario() {
    let xs = [1.0f64, 1.0, 1.000001];
    let bits: Vec<u64> = xs.iter().map(|x| x.to_bits()).collect();
    let mut out = Vec::new();
    assert_eq!(gorilla_compress(&bits, &mut out), Ok(ArrayTypeId::DoubleGorilla));
    assert_eq!(&out[..8], &1.0f64.to_le_bytes()[..]);
    let xored = bits[1] ^ bits[2];
    let lz = xored.leading_zeros().min(31) as u64;
    let count = 64 - xored.trailing_zeros() as u64 - lz;
    let used = 1 + 2 + 5 + 6 + count;
    assert_eq!(*out.last().unwrap() as u64, used);
    assert_eq!(out.len() as u64, 8 + (used + 7) / 8 + 1);
    // a zero bit, the `11` prefix and five bits of leading zeros
    assert_eq!(out[out.len() - 2] >> 0, 0b0111_1111);
    assert_eq!(xored, 0x10C6F7A0B);
    assert_eq!(lz, 31);
    assert_eq!(count, 33);
    assert_eq!(*out.last().unwrap(), 47u8);
    assert_eq!(out.len(), 8 + 6 + 1);
    // the final word holds 0 | 11 | 11111 | 100000 | the 33 bits of the xor
    let mut word = [0u8; 8];
    word[2..8].copy_from_slice(&out[8..14]);
    let w = u64::from_le_bytes(word);
    let expected: u64 = (0b0_11_11111_100000u64 << 50) | (0x10C6F7A0Bu64 << 17);
    assert_eq!(w, expected);
}

#[test]
fn gorilla_declines_empty() {
    let mut out = vec![9u8];
    assert_eq!(gorilla_compress(&Vec::new(), &mut out), Err(()));
    assert_eq!(out, vec![9u8]);
}

#[test]
fn gorilla_repeated_value_writes_zero_bits() {
    let bits = vec![0x4000_0000_0000_0000u64; 3];
    let mut out = Vec::new();
    gorilla_compress(&bits, &mut out).unwrap();
    assert_eq!(&out[..8], &bits[0].to_le_bytes()[..]);
    assert_eq!(out[8..].to_vec(), vec![0u8, 2]);
}

#[test]
fn varint_bytes() {
    let cases: [(u64, Vec<u8>); 4] = [
        (0, vec![1]),
        (127, vec![0xff]),
        (128, vec![0x02, 0x02]),
        (u64::MAX, vec![0, 0xff, 0xff, 0xff, 0xff, 0xff, 0xff, 0xff, 0xff]),
    ];
    for (v, expected) in cases.iter() {
        let mut out = Vec::new();
        encode_prefix_varint(*v, &mut out);
        assert_eq!(&out, expected);
        assert_eq!(size_for_varint(*v), expected.len());
        assert_eq!(decode_prefix_varint(&out, 0, out.len()), Ok((*v, out.len())));
    }
}

#[test]
fn varint_runs_off_the_end() {
    let bytes = vec![0x02u8];
    assert_eq!(decode_prefix_varint(&bytes, 0, 1), Err(ReadError::InvalidFormat));
}

#[test]
fn prefix_varint_fast_size_is_exact() {
    let data = vec![0u64, 128, u64::MAX];
    let c = PrefixVarIntCompressor::new();
    assert_eq!(c.fast_size_for(&data), Some(12));
    let mut s = WriterStream::new();
    assert_eq!(c.compress(&data, &mut s), Ok(ArrayTypeId::IntPrefixVar));
    assert_eq!(s.bytes.len(), 12);
    assert_eq!(s.lens, vec![12usize]);
}

#[test]
fn simple16_compressor() {
    let c = Simple16Compressor::new();
    let mut s = WriterStream::new();
    assert_eq!(c.compress(&vec![1, 2, 3], &mut s), Ok(ArrayTypeId::IntSimple16));
    assert_eq!(s.bytes.len(), 4);
    assert_eq!(s.lens, vec![4usize]);
    let mut t = WriterStream::new();
    assert_eq!(c.compress(&vec![SIMPLE16_MAX + 1], &mut t), Err(()));
    assert!(t.bytes.is_empty() && t.lens.is_empty());
}

#[test]
fn bytes_compressor() {
    let c = BytesCompressor::new();
    let data = vec![1u64, 255, 0];
    assert_eq!(c.fast_size_for(&data), Some(3));
    let mut s = WriterStream::new();
    assert_eq!(c.compress(&data, &mut s), Ok(ArrayTypeId::U8));
    assert_eq!(s.bytes, vec![1u8, 255, 0]);
    assert_eq!(c.compress(&vec![256], &mut s), Err(()));
}

#[test]
fn root_uint_forms() {
    let cases: [(u64, RootTypeId, Vec<u8>); 6] = [
        (0, RootTypeId::Zero, vec![]),
        (1, RootTypeId::One, vec![]),
        (2, RootTypeId::IntU8, vec![2]),
        (300, RootTypeId::IntU16, vec![0x2c, 0x01]),
        (1 << 56, RootTypeId::IntU64, vec![0, 0, 0, 0, 0, 0, 0, 1]),
        ((1 << 56) - 1, RootTypeId::IntU56, vec![0xff; 7]),
    ];
    for (v, id, bytes) in cases.iter() {
        let mut out = Vec::new();
        assert_eq!(write_root_uint(*v, &mut out), *id);
        assert_eq!(&out, bytes);
    }
}

#[test]
fn stream_scopes() {
    let mut s = WriterStream::new();
    let hole = s.reserve_id();
    let start = s.position();
    s.bytes.push(42);
    s.write_with_len(start);
    s.write_with_id(hole, ArrayTypeId::U8);
    assert_eq!(s.bytes, vec![2u8, 42]);
    assert_eq!(s.lens, vec![1usize]);

    let at = s.reserve_and_write_with_varint(300);
    assert_eq!(s.bytes.len(), 4);
    s.write_reserved_varint(at, 300, 5);
    assert_eq!(&s.bytes[2..], &[22u8, 0][..]);
    assert_eq!(decode_prefix_varint(&s.bytes, 2, 4), Ok((5, 4)));

    let restore = s.position();
    s.bytes.push(7);
    assert_eq!(s.restore_if_void(restore, ArrayTypeId::Void), ArrayTypeId::Void);
    assert_eq!(s.bytes.len(), 4);
    s.bytes.push(7);
    assert_eq!(s.restore_if_void(restore, ArrayTypeId::U8), ArrayTypeId::U8);
    assert_eq!(s.bytes.len(), 5);
}

#[test]
fn flush_without_tag() {
    let mut s = WriterStream::new();
    assert_eq!(flush(&vec![1, 0], Width::U8, &mut s), ArrayTypeId::Boolean);
    assert_eq!(s.bytes, vec![1u8, 0]);
}

#[test]
fn over_pull_returns_defaults() {
    let (_, s) = encode(&[3, 4], Width::U8);
    let mut r = UintReader::new(&s.bytes, &s.lens, Width::U8).unwrap();
    assert_eq!(r.read_next(), 3);
    assert_eq!(r.read_next(), 4);
    for _ in 0..5 {
        assert_eq!(r.read_next(), 0);
    }
}

#[test]
fn read_errors() {
    assert!(matches!(UintReader::new(&vec![9u8], &vec![], Width::U8), Err(ReadError::InvalidFormat)));
    assert!(matches!(UintReader::new(&vec![5u8], &vec![], Width::U8), Err(ReadError::SchemaMismatch)));
    assert!(matches!(UintReader::new(&vec![3u8, 0x02], &vec![1], Width::U8), Err(ReadError::InvalidFormat)));
    let (_, s) = encode(&[300, 2], Width::U16);
    assert!(matches!(UintReader::new(&s.bytes, &s.lens, Width::U8), Err(ReadError::SchemaMismatch)));
    assert!(matches!(read_branch(&vec![2u8], &vec![], 0, 0), Err(ReadError::InvalidFormat)));
}

#[test]
fn expand_needs_a_value_per_run() {
    assert_eq!(expand_runs(&vec![2, 0, 1], &vec![4, 9, 6]), Ok(vec![4u64, 4, 6]));
    assert_eq!(expand_runs(&vec![1, 1], &vec![4]), Err(ReadError::InvalidFormat));
}

fn gorilla_round_trip(xs: &[f64]) {
    let bits: Vec<u64> = xs.iter().map(|x| x.to_bits()).collect();
    let mut out = Vec::new();
    gorilla_compress(&bits, &mut out).unwrap();
    let back = gorilla_decompress(&out).unwrap();
    assert_eq!(back, bits);
}

#[test]
fn gorilla_scenario_round_trips() {
    gorilla_round_trip(&[1.0, 1.0, 1.000001]);
}

#[test]
fn gorilla_round_trips() {
    gorilla_round_trip(&[3.25]);
    gorilla_round_trip(&[0.0, 0.0, -0.0, 1.5, 1.5, 2.5, 1e300, -7.125, 0.1, 0.2, 0.3]);
    let xs: Vec<f64> = (0..200).map(|i| (i as f64 * 0.37).sin() * 1000.0).collect();
    gorilla_round_trip(&xs);
    let ys: Vec<f64> = (0..64).map(|i| f64::from_bits(1u64 << (i % 64))).collect();
    gorilla_round_trip(&ys);
}

#[test]
fn gorilla_rejects_bad_trailer() {
    assert_eq!(gorilla_decompress(&vec![]), Err(ReadError::InvalidFormat));
    assert_eq!(gorilla_decompress(&vec![0, 0, 0, 0, 0, 0, 0, 0, 65]), Err(ReadError::InvalidFormat));
    assert_eq!(gorilla_decompress(&vec![1, 2, 3]), Err(ReadError::InvalidFormat));
}

#[test]
fn root_values_through_traits() {
    let mut s = WriterStream::new();
    let id = 300u16.write_root(&mut s);
    assert_eq!(id, RootTypeId::IntU16);
    assert_eq!(<u16 as Readable>::read(id, &s.bytes), Ok(300u16));
    assert_eq!(<u8 as Readable>::read(id, &s.bytes), Err(ReadError::SchemaMismatch));
    assert_eq!(read_root_uint(RootTypeId::One, &vec![]), Ok(1));
    assert_eq!(read_root_uint(RootTypeId::IntU32, &vec![1, 2]), Err(ReadError::InvalidFormat));
    let mut t = WriterStream::new();
    let id = u64::MAX.write_root(&mut t);
    assert_eq!(<u64 as Readable>::read(id, &t.bytes), Ok(u64::MAX));
}

#[test]
fn writer_and_reader_arrays() {
    let mut col: Vec<u32> = Vec::new();
    for v in [9u32, 9, 9, 1000] {
        col.buffer(v);
    }
    let mut s = WriterStream::new();
    let hole = s.reserve_id();
    let id = WriterArray::flush(col, &mut s);
    s.write_with_id(hole, id);
    let mut r = <UintReader as InfallibleReaderArray>::new_infallible(&s.bytes, &s.lens).unwrap();
    let back: Vec<u64> = (0..4).map(|_| r.read_next_infallible()).collect();
    assert_eq!(back, vec![9u64, 9, 9, 1000]);
    let mut r2 = <UintReader as ReaderArray>::new(&s.bytes, &s.lens).unwrap();
    assert_eq!(ReaderArray::read_next(&mut r2), Ok(9));
}

#[test]
fn selection_is_no_larger_than_any_candidate() {
    let data: Vec<u64> = vec![70_000, 3, 3, 3, 9, 1 << 20, 5, 5];
    let (_, chosen) = select(&data, Width::U32, true).unwrap();
    let mut pv = WriterStream::new();
    PrefixVarIntCompressor::new().compress(&data, &mut pv).unwrap();
    let mut s16 = WriterStream::new();
    Simple16Compressor::new().compress(&data, &mut s16).unwrap();
    assert!(chosen.bytes.len() <= pv.bytes.len());
    assert!(chosen.bytes.len() <= s16.bytes.len());
    let (id, s) = encode(&data, Width::U32);
    assert_eq!(s.bytes.len(), 1 + chosen.bytes.len());
    assert_eq!(tree_buf::types::ArrayTypeId::from_byte(s.bytes[0]), Some(id));
}

#[test]
fn singletons_round_trip() {
    let cases: [(u64, Width); 9] = [
        (0, Width::U8),
        (1, Width::U8),
        (255, Width::U8),
        (0, Width::U32),
        (1, Width::U32),
        (1 << 22, Width::U32),
        (u32::MAX as u64, Width::U32),
        (u16::MAX as u64, Width::U16),
        (u64::MAX, Width::U64),
    ];
    for (x, w) in cases.iter() {
        let (_, s) = encode(&[*x], *w);
        let mut r = UintReader::new(&s.bytes, &s.lens, *w).unwrap();
        assert_eq!(r.read_next(), *x);
        assert!(r.values[1..].iter().all(|v| *v == 0));
    }
}
