use vstd::prelude::*;
use crate::types::{ArrayTypeId, ReadError, RootTypeId};
use crate::stream::WriterStream;
use crate::root::{write_root_uint, read_root_uint, root_read, root_id, root_len};
use crate::varint::le_bytes;
use crate::select::{Width, width_max};
use crate::compressors::all_at_most;
use crate::integer::{flush, flush_out};
use crate::reader::{UintReader, decode_branch};

verus! {

/// A value that can be written alone at the root.
pub trait Writable: Sized {
    /// The value as an unsigned integer.
    spec fn root_value(&self) -> u64;

    /// Writes the smallest root form that holds the value, and its payload.
    fn write_root(&self, stream: &mut WriterStream) -> (r: RootTypeId)
        ensures
            r == root_id(self.root_value() as nat),
            final(stream).bytes@ == old(stream).bytes@ + le_bytes(
                self.root_value() as nat,
                root_len(self.root_value() as nat),
            ),
            final(stream).lens@ == old(stream).lens@,
            final(stream).tags@ == old(stream).tags@;
}

/// A value that can be read back from a root form and its payload.
pub trait Readable: Sized {
    /// Largest value of the type.
    spec fn type_max() -> nat;

    /// The value as an unsigned integer.
    spec fn read_value(&self) -> nat;

    /// The root integer, when it fits the type; `SchemaMismatch` when not.
    fn read(id: RootTypeId, bytes: &Vec<u8>) -> (r: Result<Self, ReadError>)
        ensures
            match root_read(id, bytes@) {
                Err(e) => r == Err::<Self, ReadError>(e),
                Ok(v) => if v <= Self::type_max() {
                    r matches Ok(x) && x.read_value() == v
                } else {
                    r == Err::<Self, ReadError>(ReadError::SchemaMismatch)
                },
            };
}

/// Buffers values of one column, then flushes them as one branch payload.
pub trait WriterArray<T>: Sized {
    /// The buffered values, as unsigned integers.
    spec fn column(&self) -> Seq<u64>;

    /// The width of the column's type.
    spec fn width(&self) -> Width;

    spec fn value_of(value: T) -> u64;

    fn buffer(&mut self, value: T)
        ensures
            final(self).column() == old(self).column().push(Self::value_of(value)),
            final(self).width() == old(self).width();

    /// Writes the column's payload and lengths as `flush_out` describes and
    /// returns its tag; the caller writes the tag.
    fn flush(self, stream: &mut WriterStream) -> (r: ArrayTypeId)
        requires
            all_at_most(self.column(), width_max(self.width())),
        ensures
            r == flush_out(self.column(), self.width()).0,
            final(stream).bytes@ == old(stream).bytes@ + flush_out(self.column(), self.width()).1,
            final(stream).lens@ == old(stream).lens@ + flush_out(self.column(), self.width()).2,
            final(stream).tags@ == old(stream).tags@ + flush_out(self.column(), self.width()).3,
            old(stream).framed() ==> final(stream).framed();
}

/// A column reader whose reads may fail.
pub trait ReaderArray: Sized {
    type Read;

    /// The decoded column.
    spec fn column(&self) -> Seq<Self::Read>;

    /// Index of the next value to read.
    spec fn position(&self) -> nat;

    /// What a read past the end returns.
    spec fn default_read() -> Self::Read;

    /// What opening a reader on `bytes` and `lens` gives.
    spec fn opened(bytes: Seq<u8>, lens: Seq<usize>, r: Result<Self, ReadError>) -> bool;

    fn new(bytes: &Vec<u8>, lens: &Vec<usize>) -> (r: Result<Self, ReadError>)
        ensures
            Self::opened(bytes@, lens@, r),
            r matches Ok(rd) ==> rd.position() == 0;

    /// The next value, or the default once the column is exhausted.
    fn read_next(&mut self) -> (r: Result<Self::Read, ReadError>)
        ensures
            final(self).column() == old(self).column(),
            old(self).position() < old(self).column().len() ==> r == Ok::<Self::Read, ReadError>(
                old(self).column()[old(self).position() as int])
                && final(self).position() == old(self).position() + 1,
            old(self).position() >= old(self).column().len() ==> r == Ok::<Self::Read, ReadError>(
                Self::default_read()) && final(self).position() == old(self).position();
}

/// A column reader whose reads cannot fail once it is built.
pub trait InfallibleReaderArray: Sized {
    type Read;

    spec fn column(&self) -> Seq<Self::Read>;

    spec fn position(&self) -> nat;

    spec fn default_read() -> Self::Read;

    spec fn opened(bytes: Seq<u8>, lens: Seq<usize>, r: Result<Self, ReadError>) -> bool;

    fn new_infallible(bytes: &Vec<u8>, lens: &Vec<usize>) -> (r: Result<Self, ReadError>)
        ensures
            Self::opened(bytes@, lens@, r),
            r matches Ok(rd) ==> rd.position() == 0;

    /// The next value, or the default once the column is exhausted.
    fn read_next_infallible(&mut self) -> (r: Self::Read)
        ensures
            final(self).column() == old(self).column(),
            old(self).position() < old(self).column().len() ==> r == old(self).column()[old(self).position() as int]
                && final(self).position() == old(self).position() + 1,
            old(self).position() >= old(self).column().len() ==> r == Self::default_read()
                && final(self).position() == old(self).position();
}

impl Writable for u64 {
    open spec fn root_value(&self) -> u64 {
        *self
    }

    fn write_root(&self, stream: &mut WriterStream) -> RootTypeId {
        write_root_uint(*self, &mut stream.bytes)
    }
}

impl Writable for u32 {
    open spec fn root_value(&self) -> u64 {
        *self as u64
    }

    fn write_root(&self, stream: &mut WriterStream) -> RootTypeId {
        write_root_uint(*self as u64, &mut stream.bytes)
    }
}

impl Writable for u16 {
    open spec fn root_value(&self) -> u64 {
        *self as u64
    }

    fn write_root(&self, stream: &mut WriterStream) -> RootTypeId {
        write_root_uint(*self as u64, &mut stream.bytes)
    }
}

impl Writable for u8 {
    open spec fn root_value(&self) -> u64 {
        *self as u64
    }

    fn write_root(&self, stream: &mut WriterStream) -> RootTypeId {
        write_root_uint(*self as u64, &mut stream.bytes)
    }
}

impl Readable for u64 {
    open spec fn type_max() -> nat {
        0xffff_ffff_ffff_ffff
    }

    open spec fn read_value(&self) -> nat {
        *self as nat
    }

    fn read(id: RootTypeId, bytes: &Vec<u8>) -> Result<u64, ReadError> {
        read_root_uint(id, bytes)
    }
}

impl Readable for u32 {
    open spec fn type_max() -> nat {
        0xffff_ffff
    }

    open spec fn read_value(&self) -> nat {
        *self as nat
    }

    fn read(id: RootTypeId, bytes: &Vec<u8>) -> Result<u32, ReadError> {
        let v = match read_root_uint(id, bytes) {
            Ok(v) => v,
            Err(e) => {
                return Err(e);
            },
        };
        if v > 0xffff_ffff {
            Err(ReadError::SchemaMismatch)
        } else {
            Ok(v as u32)
        }
    }
}

impl Readable for u16 {
    open spec fn type_max() -> nat {
        0xffff
    }

    open spec fn read_value(&self) -> nat {
        *self as nat
    }

    fn read(id: RootTypeId, bytes: &Vec<u8>) -> Result<u16, ReadError> {
        let v = match read_root_uint(id, bytes) {
            Ok(v) => v,
            Err(e) => {
                return Err(e);
            },
        };
        if v > 0xffff {
            Err(ReadError::SchemaMismatch)
        } else {
            Ok(v as u16)
        }
    }
}

impl Readable for u8 {
    open spec fn type_max() -> nat {
        0xff
    }

    open spec fn read_value(&self) -> nat {
        *self as nat
    }

    fn read(id: RootTypeId, bytes: &Vec<u8>) -> Result<u8, ReadError> {
        let v = match read_root_uint(id, bytes) {
            Ok(v) => v,
            Err(e) => {
                return Err(e);
            },
        };
        if v > 0xff {
            Err(ReadError::SchemaMismatch)
        } else {
            Ok(v as u8)
        }
    }
}

impl WriterArray<u64> for Vec<u64> {
    open spec fn column(&self) -> Seq<u64> {
        self@
    }

    open spec fn width(&self) -> Width {
        Width::U64
    }

    open spec fn value_of(value: u64) -> u64 {
        value
    }

    fn buffer(&mut self, value: u64) {
        self.push(value);
    }

    fn flush(self, stream: &mut WriterStream) -> ArrayTypeId {
        flush(&self, Width::U64, stream)
    }
}

impl WriterArray<u32> for Vec<u32> {
    open spec fn column(&self) -> Seq<u64> {
        self@.map_values(|v: u32| v as u64)
    }

    open spec fn width(&self) -> Width {
        Width::U32
    }

    open spec fn value_of(value: u32) -> u64 {
        value as u64
    }

    fn buffer(&mut self, value: u32) {
        self.push(value);
        assert(self@.map_values(|v: u32| v as u64) =~= old(self)@.map_values(|v: u32| v as u64).push(value as u64));
    }

    fn flush(self, stream: &mut WriterStream) -> ArrayTypeId {
        let mut wide: Vec<u64> = Vec::new();
        let mut i: usize = 0;
        while i < self.len()
            invariant
                i <= self@.len(),
                wide@ =~= self@.subrange(0, i as int).map_values(|v: u32| v as u64),
            decreases self@.len() - i,
        {
            wide.push(self[i] as u64);
            i = i + 1;
        }
        assert(self@.subrange(0, i as int) =~= self@);
        flush(&wide, Width::U32, stream)
    }
}

impl WriterArray<u16> for Vec<u16> {
    open spec fn column(&self) -> Seq<u64> {
        self@.map_values(|v: u16| v as u64)
    }

    open spec fn width(&self) -> Width {
        Width::U16
    }

    open spec fn value_of(value: u16) -> u64 {
        value as u64
    }

    fn buffer(&mut self, value: u16) {
        self.push(value);
        assert(self@.map_values(|v: u16| v as u64) =~= old(self)@.map_values(|v: u16| v as u64).push(value as u64));
    }

    fn flush(self, stream: &mut WriterStream) -> ArrayTypeId {
        let mut wide: Vec<u64> = Vec::new();
        let mut i: usize = 0;
        while i < self.len()
            invariant
                i <= self@.len(),
                wide@ =~= self@.subrange(0, i as int).map_values(|v: u16| v as u64),
            decreases self@.len() - i,
        {
            wide.push(self[i] as u64);
            i = i + 1;
        }
        assert(self@.subrange(0, i as int) =~= self@);
        flush(&wide, Width::U16, stream)
    }
}

impl WriterArray<u8> for Vec<u8> {
    open spec fn column(&self) -> Seq<u64> {
        self@.map_values(|v: u8| v as u64)
    }

    open spec fn width(&self) -> Width {
        Width::U8
    }

    open spec fn value_of(value: u8) -> u64 {
        value as u64
    }

    fn buffer(&mut self, value: u8) {
        self.push(value);
        assert(self@.map_values(|v: u8| v as u64) =~= old(self)@.map_values(|v: u8| v as u64).push(value as u64));
    }

    fn flush(self, stream: &mut WriterStream) -> ArrayTypeId {
        let mut wide: Vec<u64> = Vec::new();
        let mut i: usize = 0;
        while i < self.len()
            invariant
                i <= self@.len(),
                wide@ =~= self@.subrange(0, i as int).map_values(|v: u8| v as u64),
            decreases self@.len() - i,
        {
            wide.push(self[i] as u64);
            i = i + 1;
        }
        assert(self@.subrange(0, i as int) =~= self@);
        flush(&wide, Width::U8, stream)
    }
}

/// What opening a `u64` column reader gives: the decoded root branch, from
/// its start, or the decoding error.
pub open spec fn uint_opened(bytes: Seq<u8>, lens: Seq<usize>, r: Result<UintReader, ReadError>) -> bool {
    match decode_branch(bytes, lens, 0, 0) {
        Ok((v, _, _)) => r matches Ok(rd) && rd.values@ == v && rd.pos == 0,
        Err(e) => r == Err::<UintReader, ReadError>(e),
    }
}

impl InfallibleReaderArray for UintReader {
    type Read = u64;

    open spec fn column(&self) -> Seq<u64> {
        self.values@
    }

    open spec fn position(&self) -> nat {
        self.pos as nat
    }

    open spec fn default_read() -> u64 {
        0
    }

    open spec fn opened(bytes: Seq<u8>, lens: Seq<usize>, r: Result<UintReader, ReadError>) -> bool {
        uint_opened(bytes, lens, r)
    }

    fn new_infallible(bytes: &Vec<u8>, lens: &Vec<usize>) -> Result<UintReader, ReadError> {
        UintReader::new(bytes, lens, Width::U64)
    }

    fn read_next_infallible(&mut self) -> u64 {
        UintReader::read_next(self)
    }
}

impl ReaderArray for UintReader {
    type Read = u64;

    open spec fn column(&self) -> Seq<u64> {
        self.values@
    }

    open spec fn position(&self) -> nat {
        self.pos as nat
    }

    open spec fn default_read() -> u64 {
        0
    }

    open spec fn opened(bytes: Seq<u8>, lens: Seq<usize>, r: Result<UintReader, ReadError>) -> bool {
        uint_opened(bytes, lens, r)
    }

    fn new(bytes: &Vec<u8>, lens: &Vec<usize>) -> Result<UintReader, ReadError> {
        UintReader::new(bytes, lens, Width::U64)
    }

    fn read_next(&mut self) -> Result<u64, ReadError> {
        Ok(UintReader::read_next(self))
    }
}

} // verus!
