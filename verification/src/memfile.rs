//! An in-memory file: a byte buffer with a cursor, read, written and sought the way a
//! file on disk is.
use vstd::prelude::*;
use crate::codec::{be_bytes_u32, be_bytes_u64, be_bytes_i64, be_value_u32, be_value_u64, be_value_i64};
use crate::codec::{encode_u32, encode_u64, encode_i64, decode_u32, decode_u64, decode_i64};


verus! {

/// How an operation on a [`MemFile`] can fail.
#[derive(Debug, Clone, Copy, PartialEq, Eq, Structural)]
pub enum IoError {
    /// A read needed more bytes than the file holds after the cursor.
    UnexpectedEof,
    /// A seek to a position before the start, or past `i64::MAX`.
    InvalidInput,
}

/// Where a seek is measured from.
#[derive(Debug, Clone, Copy, PartialEq, Eq, Structural)]
pub enum SeekFrom {
    Start(u64),
    End(i64),
    Current(i64),
}

/// The bytes after position `pos` (none where `pos` is at or past the end).
pub open spec fn rest_of(data: Seq<u8>, pos: int) -> Seq<u8> {
    if 0 <= pos < data.len() {
        data.skip(pos)
    } else {
        Seq::empty()
    }
}

/// `data` padded with zero bytes up to length `len`.
pub open spec fn padded(data: Seq<u8>, len: int) -> Seq<u8> {
    if len <= data.len() {
        data
    } else {
        data + Seq::new((len - data.len()) as nat, |i: int| 0u8)
    }
}

/// The contents after writing `bytes` at position `pos`: a gap between the old end and `pos`
/// reads as zeros, the bytes from `pos` on are replaced, and the file grows where the
/// write goes past its end.
pub open spec fn write_at(data: Seq<u8>, pos: int, bytes: Seq<u8>) -> Seq<u8> {
    let p = padded(data, pos);
    let end = pos + bytes.len();
    p.take(pos) + bytes + (if end < p.len() {
        p.skip(end)
    } else {
        Seq::empty()
    })
}

/// The position that a seek asks for, if it lies in `0..=i64::MAX`.
pub open spec fn seek_target(len: int, pos: int, target: SeekFrom) -> Option<int> {
    let t = match target {
        SeekFrom::Start(n) => n as int,
        SeekFrom::End(d) => len + d,
        SeekFrom::Current(d) => pos + d,
    };
    if 0 <= t <= i64::MAX {
        Some(t)
    } else {
        None
    }
}

/// A file held in memory: its contents and the position of its cursor, which may lie past
/// the end.
pub struct MemFile {
    data: Vec<u8>,
    pos: u64,
}

impl MemFile {
    /// The contents of the file.
    pub closed spec fn bytes(&self) -> Seq<u8> {
        self.data@
    }

    /// The position of the cursor.
    pub closed spec fn cursor(&self) -> nat {
        self.pos as nat
    }

    /// The bytes after the cursor.
    pub open spec fn rest(&self) -> Seq<u8> {
        rest_of(self.bytes(), self.cursor() as int)
    }

    pub proof fn lemma_bounds(&self)
        ensures
            self.bytes().len() <= usize::MAX,
            0 <= self.cursor() <= u64::MAX,
    {
        assert(self.data.len() == self.data@.len());
    }

    /// An empty file with its cursor at the start.
    pub fn new() -> (f: MemFile)
        ensures
            f.bytes() == Seq::<u8>::empty(),
            f.cursor() == 0,
    {
        MemFile { data: Vec::new(), pos: 0 }
    }

    /// A file holding `data`, with its cursor at the start.
    pub fn from_bytes(data: Vec<u8>) -> (f: MemFile)
        ensures
            f.bytes() == data@,
            f.cursor() == 0,
    {
        MemFile { data, pos: 0 }
    }

    /// The contents of the file.
    pub fn as_bytes(&self) -> (r: &Vec<u8>)
        ensures
            r@ == self.bytes(),
    {
        &self.data
    }

    /// The contents of the file, taking it apart.
    pub fn into_bytes(self) -> (r: Vec<u8>)
        ensures
            r@ == self.bytes(),
    {
        self.data
    }

    /// A new handle on the same contents, with its cursor at the start.
    pub fn reopen(&self) -> (f: MemFile)
        ensures
            f.bytes() == self.bytes(),
            f.cursor() == 0,
    {
        let mut data: Vec<u8> = Vec::with_capacity(self.data.len());
        let mut i: usize = 0;
        while i < self.data.len()
            invariant
                i <= self.data@.len(),
                data@ == self.data@.take(i as int),
            decreases self.data@.len() - i,
        {
            data.push(self.data[i]);
            i += 1;
            assert(data@ =~= self.data@.take(i as int));
        }
        assert(data@ =~= self.data@);
        MemFile { data, pos: 0 }
    }

    /// The length of the file in bytes.
    pub fn len(&self) -> (r: usize)
        ensures
            r == self.bytes().len(),
    {
        self.data.len()
    }

    /// The position of the cursor.
    pub fn position(&self) -> (r: u64)
        ensures
            r == self.cursor(),
    {
        self.pos
    }

    /// Moves the cursor and returns its new position; a target before the start or past
    /// `i64::MAX` is refused and leaves the cursor where it was.
    pub fn seek(&mut self, target: SeekFrom) -> (r: Result<u64, IoError>)
        ensures
            final(self).bytes() == old(self).bytes(),
            match seek_target(old(self).bytes().len() as int, old(self).cursor() as int, target) {
                Some(t) => r == Ok::<u64, IoError>(t as u64) && final(self).cursor() == t,
                None => r == Err::<u64, IoError>(IoError::InvalidInput) && final(self).cursor()
                    == old(self).cursor(),
            },
    {
        let base: i128 = match target {
            SeekFrom::Start(n) => n as i128,
            SeekFrom::End(d) => self.data.len() as i128 + d as i128,
            SeekFrom::Current(d) => self.pos as i128 + d as i128,
        };
        if 0 <= base && base <= i64::MAX as i128 {
            self.pos = base as u64;
            Ok(base as u64)
        } else {
            Err(IoError::InvalidInput)
        }
    }

    /// Reads exactly `n` bytes at the cursor and moves past them. Where fewer are left, it
    /// fails with `UnexpectedEof` and the cursor ends up at the end of the file (or stays
    /// where it was, past the end).
    pub fn read_exact(&mut self, n: usize) -> (r: Result<Vec<u8>, IoError>)
        ensures
            final(self).bytes() == old(self).bytes(),
            n <= old(self).rest().len() ==> (r matches Ok(v) && v@ == old(self).rest().take(n as int)
                && final(self).cursor() == old(self).cursor() + n),
            n > old(self).rest().len() ==> r == Err::<Vec<u8>, IoError>(IoError::UnexpectedEof)
                && final(self).cursor() == old(self).cursor() + old(self).rest().len(),
    {
        let len = self.data.len();
        if self.pos < len as u64 && n <= len - self.pos as usize {
            let start = self.pos as usize;
            let mut out: Vec<u8> = Vec::with_capacity(n);
            let mut i: usize = 0;
            while i < n
                invariant
                    start + n <= len,
                    len == self.data@.len(),
                    i <= n,
                    out@ == self.data@.subrange(start as int, start + i),
                decreases n - i,
            {
                out.push(self.data[start + i]);
                i += 1;
                assert(out@ =~= self.data@.subrange(start as int, start + i));
            }
            self.pos = self.pos + n as u64;
            assert(out@ =~= rest_of(self.data@, start as int).take(n as int));
            Ok(out)
        } else if n == 0 {
            assert(old(self).rest().take(0) =~= Seq::<u8>::empty());
            Ok(Vec::new())
        } else {
            if self.pos < len as u64 {
                self.pos = len as u64;
            }
            Err(IoError::UnexpectedEof)
        }
    }

    /// Writes `bytes` at the cursor and moves past them; a gap between the end and the
    /// cursor is filled with zeros.
    pub fn write_all(&mut self, bytes: &[u8])
        requires
            old(self).cursor() + bytes@.len() <= usize::MAX,
        ensures
            final(self).bytes() == write_at(old(self).bytes(), old(self).cursor() as int, bytes@),
            final(self).cursor() == old(self).cursor() + bytes@.len(),
    {
        let start = self.pos as usize;
        let ghost d0 = self.data@;
        while self.data.len() < start
            invariant
                self.data@ == padded(d0, self.data@.len() as int),
                self.data@.len() <= start || self.data@ == d0,
                start == old(self).cursor(),
            decreases start - self.data@.len(),
        {
            self.data.push(0u8);
            assert(self.data@ =~= padded(d0, self.data@.len() as int));
        }
        let ghost p = self.data@;
        assert(p == padded(d0, start as int)) by {
            if d0.len() >= start {
                assert(self.data@ == d0);
            }
        }
        let n = bytes.len();
        let mut i: usize = 0;
        while i < n
            invariant
                i <= n,
                n == bytes@.len(),
                start + n <= usize::MAX,
                p.len() >= start,
                self.data@ =~= write_at(p, start as int, bytes@.take(i as int)),
            decreases n - i,
        {
            let ghost before = self.data@;
            if start + i < self.data.len() {
                self.data.set(start + i, bytes[i]);
            } else {
                self.data.push(bytes[i]);
            }
            i += 1;
            assert(self.data@ =~= write_at(p, start as int, bytes@.take(i as int)));
        }
        assert(bytes@.take(n as int) =~= bytes@);
        assert(write_at(p, start as int, bytes@) =~= write_at(d0, start as int, bytes@));
        self.pos = (start + n) as u64;
    }

    /// Reads a big-endian `u32` at the cursor (as `byteorder`'s `read_u32::<BigEndian>`).
    pub fn read_u32(&mut self) -> (r: Result<u32, IoError>)
        ensures
            final(self).bytes() == old(self).bytes(),
            old(self).rest().len() >= 4 ==> r == Ok::<u32, IoError>(be_value_u32(old(self).rest()))
                && final(self).cursor() == old(self).cursor() + 4,
            old(self).rest().len() < 4 ==> r == Err::<u32, IoError>(IoError::UnexpectedEof)
                && final(self).cursor() == old(self).cursor() + old(self).rest().len(),
    {
        match self.read_exact(4) {
            Ok(b) => {
                let v = decode_u32(b.as_slice());
                Ok(v)
            },
            Err(e) => Err(e),
        }
    }

    /// Reads a big-endian `u64` at the cursor (as `byteorder`'s `read_u64::<BigEndian>`).
    pub fn read_u64(&mut self) -> (r: Result<u64, IoError>)
        ensures
            final(self).bytes() == old(self).bytes(),
            old(self).rest().len() >= 8 ==> r == Ok::<u64, IoError>(be_value_u64(old(self).rest()))
                && final(self).cursor() == old(self).cursor() + 8,
            old(self).rest().len() < 8 ==> r == Err::<u64, IoError>(IoError::UnexpectedEof)
                && final(self).cursor() == old(self).cursor() + old(self).rest().len(),
    {
        match self.read_exact(8) {
            Ok(b) => {
                let v = decode_u64(b.as_slice());
                Ok(v)
            },
            Err(e) => Err(e),
        }
    }

    /// Reads a big-endian two's complement `i64` at the cursor (as `byteorder`'s
    /// `read_i64::<BigEndian>`).
    pub fn read_i64(&mut self) -> (r: Result<i64, IoError>)
        ensures
            final(self).bytes() == old(self).bytes(),
            old(self).rest().len() >= 8 ==> r == Ok::<i64, IoError>(be_value_i64(old(self).rest()))
                && final(self).cursor() == old(self).cursor() + 8,
            old(self).rest().len() < 8 ==> r == Err::<i64, IoError>(IoError::UnexpectedEof)
                && final(self).cursor() == old(self).cursor() + old(self).rest().len(),
    {
        match self.read_exact(8) {
            Ok(b) => {
                let v = decode_i64(b.as_slice());
                Ok(v)
            },
            Err(e) => Err(e),
        }
    }

    /// Writes `n` as four big-endian bytes at the cursor.
    pub fn write_u32(&mut self, n: u32)
        requires
            old(self).cursor() + 4 <= usize::MAX,
        ensures
            final(self).bytes() == write_at(old(self).bytes(), old(self).cursor() as int, be_bytes_u32(n)),
            final(self).cursor() == old(self).cursor() + 4,
    {
        let b = encode_u32(n);
        self.write_all(b.as_slice());
    }

    /// Writes `n` as eight big-endian bytes at the cursor.
    pub fn write_u64(&mut self, n: u64)
        requires
            old(self).cursor() + 8 <= usize::MAX,
        ensures
            final(self).bytes() == write_at(old(self).bytes(), old(self).cursor() as int, be_bytes_u64(n)),
            final(self).cursor() == old(self).cursor() + 8,
    {
        let b = encode_u64(n);
        self.write_all(b.as_slice());
    }

    /// Writes `n` as eight big-endian two's complement bytes at the cursor.
    pub fn write_i64(&mut self, n: i64)
        requires
            old(self).cursor() + 8 <= usize::MAX,
        ensures
            final(self).bytes() == write_at(old(self).bytes(), old(self).cursor() as int, be_bytes_i64(n)),
            final(self).cursor() == old(self).cursor() + 8,
    {
        let b = encode_i64(n);
        self.write_all(b.as_slice());
    }
}

/// Reading back where a write went gives the bytes written.
pub proof fn lemma_read_after_write(data: Seq<u8>, pos: int, bytes: Seq<u8>)
    requires
        0 <= pos,
        bytes.len() > 0,
    ensures
        rest_of(write_at(data, pos, bytes), pos).take(bytes.len() as int) == bytes,
        write_at(data, pos, bytes).len() == if pos + bytes.len() > data.len() {
            pos + bytes.len()
        } else {
            data.len() as int
        },
{
    let w = write_at(data, pos, bytes);
    assert(rest_of(w, pos).take(bytes.len() as int) =~= bytes);
}

/// A write leaves the bytes before it, and those after it within the old contents, as
/// they were.
pub proof fn lemma_write_keeps_others(data: Seq<u8>, pos: int, bytes: Seq<u8>, i: int)
    requires
        0 <= pos,
        0 <= i < data.len(),
        i < pos || pos + bytes.len() <= i,
    ensures
        write_at(data, pos, bytes)[i] == data[i],
        write_at(data, pos, bytes).len() >= data.len(),
{
}


/// Moving the cursor past `n` of the bytes after it leaves the rest of them.
pub proof fn lemma_rest_advance(data: Seq<u8>, pos: int, n: int)
    requires
        0 <= pos,
        0 <= n <= rest_of(data, pos).len(),
    ensures
        rest_of(data, pos + n) == rest_of(data, pos).skip(n),
{
    assert(rest_of(data, pos + n) =~= rest_of(data, pos).skip(n));
}

/// Two writes, the second where the first ended, are one write of both.
pub proof fn lemma_write_concat(data: Seq<u8>, pos: int, a: Seq<u8>, b: Seq<u8>)
    requires
        0 <= pos,
    ensures
        write_at(write_at(data, pos, a), pos + a.len(), b) == write_at(data, pos, a + b),
{
    let w1 = write_at(data, pos, a);
    let lhs = write_at(w1, pos + a.len(), b);
    let rhs = write_at(data, pos, a + b);
    assert(lhs.len() == rhs.len());
    assert forall|i: int| 0 <= i < lhs.len() implies lhs[i] == rhs[i] by {
    }
    assert(lhs =~= rhs);
}

/// A write at the end of the contents appends to them.
pub proof fn lemma_write_at_end(data: Seq<u8>, bytes: Seq<u8>)
    ensures
        write_at(data, data.len() as int, bytes) == data + bytes,
{
    assert(write_at(data, data.len() as int, bytes) =~= data + bytes);
}

/// The length of the contents after a write.
pub proof fn lemma_write_len(data: Seq<u8>, pos: int, bytes: Seq<u8>)
    requires
        0 <= pos,
    ensures
        write_at(data, pos, bytes).len() == if pos + bytes.len() > data.len() {
            pos + bytes.len()
        } else {
            data.len() as int
        },
{
}

} // verus!
