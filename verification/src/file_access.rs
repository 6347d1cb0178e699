//! The two kinds of files that a box keeps, each held as the bytes of its mapping.
//!
//! A growing file ends in an eight-byte big-endian footer that records how many bytes
//! of it are in use; when a write reaches the footer the file grows and the footer moves
//! to the new end. A fixed-size file is read and written in place.
use crate::byte_ops::{bytes_to_i32, bytes_to_u64, i32_to_bytes, spec_bytes_to_i32, spec_bytes_to_u64, spec_i32_to_bytes, spec_u64_to_bytes, u64_to_bytes};
use crate::error::{GuiXuError, Result};
use vstd::prelude::*;

verus! {

/// The largest number of bytes by which a growing file grows at once beyond what a write needs.
pub const MAX_INCREASE_SIZE: u64 = 16777216;

/// `s` with `src` written over it from `pos` on.
pub open spec fn splice(s: Seq<u8>, pos: int, src: Seq<u8>) -> Seq<u8> {
    s.subrange(0, pos) + src + s.subrange(pos + src.len(), s.len() as int)
}

/// `n` zero bytes.
pub open spec fn zeros(n: nat) -> Seq<u8> {
    Seq::new(n, |i: int| 0u8)
}

/// `s` with its bytes from `from` up to `to` set to zero.
pub open spec fn cleared(s: Seq<u8>, from: int, to: int) -> Seq<u8> {
    Seq::new(s.len(), |i: int| if from <= i < to { 0u8 } else { s[i] })
}

/// The size that a growing file takes when a write must reach `new_length`.
pub open spec fn spec_grown_size(new_length: int) -> int {
    let grown = if new_length * 8 > u64::MAX { u64::MAX as int } else { new_length * 8 };
    let capped = if new_length + MAX_INCREASE_SIZE > u64::MAX {
        u64::MAX as int
    } else {
        new_length + MAX_INCREASE_SIZE
    };
    let smaller = if grown < capped { grown } else { capped };
    if smaller > new_length + 8 { smaller } else { new_length + 8 }
}

/// Turns a file position into a memory index.
pub fn to_usize(value: u64) -> (r: Result<usize>)
    ensures
        value <= usize::MAX ==> r == Ok::<usize, GuiXuError>(value as usize),
        value > usize::MAX ==> r == Err::<usize, GuiXuError>(GuiXuError::FileTooLarge(value)),
{
    match usize::try_from(value) {
        Ok(v) => Ok(v),
        Err(_) => Err(GuiXuError::FileTooLarge(value)),
    }
}

/// `bytes` with zero bytes appended up to `size`.
fn extend_with_zeros(bytes: &mut Vec<u8>, size: usize)
    requires
        old(bytes)@.len() <= size,
    ensures
        final(bytes)@ == old(bytes)@ + zeros((size - old(bytes)@.len()) as nat),
{
    let ghost start = bytes@;
    while bytes.len() < size
        invariant
            start.len() <= bytes@.len() <= size,
            bytes@ =~= start + zeros((bytes@.len() - start.len()) as nat),
        decreases size - bytes@.len(),
    {
        bytes.push(0u8);
    }
}

/// Writes `src` over `bytes` from `pos` on.
fn copy_into(bytes: &mut Vec<u8>, pos: usize, src: &[u8])
    requires
        pos + src@.len() <= old(bytes)@.len(),
    ensures
        final(bytes)@ == splice(old(bytes)@, pos as int, src@),
{
    let n = src.len();
    let total = bytes.len();
    let mut k: usize = 0;
    while k < n
        invariant
            total == bytes@.len(),
            n == src@.len(),
            k <= n,
            pos + n <= bytes@.len(),
            bytes@.len() == old(bytes)@.len(),
            bytes@ =~= splice(old(bytes)@, pos as int, src@.subrange(0, k as int)),
        decreases n - k,
    {
        bytes.set(pos + k, src[k]);
        k = k + 1;
        assert(bytes@ =~= splice(old(bytes)@, pos as int, src@.subrange(0, k as int)));
    }
    assert(src@.subrange(0, n as int) =~= src@);
}

/// Copies `len` bytes of `bytes` from `start` on.
fn copy_out(bytes: &Vec<u8>, start: usize, len: usize) -> (r: Vec<u8>)
    requires
        start + len <= bytes@.len(),
    ensures
        r@ == bytes@.subrange(start as int, start + len),
{
    let total = bytes.len();
    let mut out: Vec<u8> = Vec::new();
    let mut k: usize = 0;
    while k < len
        invariant
            total == bytes@.len(),
            k <= len,
            start + len <= bytes@.len(),
            out@ =~= bytes@.subrange(start as int, start + k),
        decreases len - k,
    {
        out.push(bytes[start + k]);
        k = k + 1;
        assert(out@ =~= bytes@.subrange(start as int, start + k));
    }
    out
}

/// A growing file: `data` is its whole content, whose last eight bytes are the footer,
/// and `actual_length` is the number of bytes in use.
pub struct AutoIncreaseFileAccess {
    pub data: Vec<u8>,
    pub file_size: u64,
    pub actual_length: u64,
}

impl AutoIncreaseFileAccess {
    /// The image has its recorded size, and the bytes in use end before the footer.
    pub open spec fn wf_shape(&self) -> bool {
        &&& self.data@.len() == self.file_size
        &&& self.file_size <= usize::MAX
        &&& self.actual_length + 8 <= self.file_size
    }

    /// The length that the footer records.
    pub open spec fn footer(&self) -> u64 {
        spec_bytes_to_u64(self.data@.subrange(self.file_size - 8, self.file_size as int))
    }

    /// The image is consistent: it has its shape, its footer records the bytes in use, and
    /// nothing but zeros lies between them.
    pub open spec fn wf(&self) -> bool {
        &&& self.wf_shape()
        &&& self.footer() == self.actual_length
        &&& self.tail_zero()
    }

    /// The bytes after those in use, up to the footer, are zero.
    pub open spec fn tail_zero(&self) -> bool {
        forall|i: int| self.actual_length <= i < self.file_size - 8 ==> #[trigger] self.data@[i] == 0
    }

    /// The bytes of the file.
    pub open spec fn bytes(&self) -> Seq<u8> {
        self.data@
    }

    /// The image that `write_all_at(position, src)` leaves, when it succeeds.
    pub open spec fn written(&self, position: int, src: Seq<u8>) -> Seq<u8> {
        let new_length = position + src.len();
        if new_length <= self.actual_length {
            splice(self.data@, position, src)
        } else {
            let size = if new_length >= self.file_size - 8 {
                spec_grown_size(new_length)
            } else {
                self.file_size as int
            };
            let grown = splice(self.data@, self.file_size - 8, zeros(8)) + zeros((size - self.file_size) as nat);
            splice(splice(grown, size - 8, spec_u64_to_bytes(new_length as u64)), position, src)
        }
    }

    /// Whether `write_all_at(position, src)` finds room in the address space.
    pub open spec fn write_fits(&self, position: int, src_len: int) -> bool {
        let new_length = position + src_len;
        new_length <= self.actual_length || new_length < self.file_size - 8 || spec_grown_size(
            new_length,
        ) <= usize::MAX
    }

    /// The file opened over `existing`, its bytes on disk: a file shorter than a footer is
    /// set up to hold `initial_size` bytes in use; otherwise its footer tells how many are used.
    /// A footer that counts more bytes in use than the file holds before it is refused here
    /// as corrupt: every read or write of those missing bytes would reach past the file.
    pub fn open(existing: Vec<u8>, initial_size: u64) -> (r: Result<Self>)
        requires
            initial_size <= u64::MAX - 8,
        ensures
            existing@.len() < 8 ==> match r {
                Ok(f) => {
                    &&& initial_size + 8 <= usize::MAX
                    &&& f.wf()
                    &&& f.actual_length == initial_size
                    &&& f.bytes() == splice(
                        existing@ + zeros((initial_size + 8 - existing@.len()) as nat),
                        initial_size as int,
                        spec_u64_to_bytes(initial_size),
                    )
                },
                Err(e) => initial_size + 8 > usize::MAX && e == GuiXuError::FileTooLarge(
                    (initial_size + 8) as u64,
                ),
            },
            existing@.len() >= 8 ==> {
                let footer = spec_bytes_to_u64(existing@.subrange(existing@.len() - 8, existing@.len() as int));
                match r {
                    Ok(f) => {
                        &&& footer + 8 <= existing@.len()
                        &&& f.wf()
                        &&& f.bytes() == cleared(existing@, footer as int, existing@.len() - 8)
                        &&& f.actual_length == footer
                    },
                    Err(e) => footer + 8 > existing@.len() && e is Corrupt,
                }
            },
    {
        let mut data = existing;
        let len = data.len();
        if len < 8 {
            let file_size = initial_size + 8;
            let size = to_usize(file_size)?;
            extend_with_zeros(&mut data, size);
            let footer = u64_to_bytes(initial_size);
            copy_into(&mut data, size - 8, &footer);
            proof {
                crate::byte_ops::lemma_u64_bytes_roundtrip(initial_size);
                assert(data@.subrange(size - 8, size as int) =~= footer@);
            }
            Ok(AutoIncreaseFileAccess { data, file_size, actual_length: initial_size })
        } else {
            let tail = copy_out(&data, len - 8, 8);
            let actual_length = bytes_to_u64(tail.as_slice());
            if actual_length > (len - 8) as u64 {
                return Err(GuiXuError::Corrupt("logical length is beyond the end of the file".to_string()));
            }
            let ghost start = data@;
            let mut i: usize = actual_length as usize;
            while i < len - 8
                invariant
                    len == data@.len(),
                    len == start.len(),
                    len >= 8,
                    actual_length <= i <= len - 8,
                    data@ =~= cleared(start, actual_length as int, i as int),
                decreases len - 8 - i,
            {
                data.set(i, 0u8);
                i = i + 1;
            }
            proof {
                assert(data@.subrange(len - 8, len as int) =~= tail@);
            }
            Ok(AutoIncreaseFileAccess { data, file_size: len as u64, actual_length })
        }
    }

    /// The number of bytes in use.
    pub fn length(&self) -> (r: u64)
        ensures
            r == self.actual_length,
    {
        self.actual_length
    }

    /// The size of the file, footer included.
    pub fn file_size(&self) -> (r: u64)
        ensures
            r == self.file_size,
    {
        self.file_size
    }

    /// The bytes of the file, for writing them back to disk.
    pub fn image(&self) -> (r: &Vec<u8>)
        ensures
            r@ == self.bytes(),
    {
        &self.data
    }

    /// The `len` bytes in use from `position` on.
    pub fn read_exact_at(&self, position: u64, len: usize) -> (r: Result<Vec<u8>>)
        requires
            self.wf(),
        ensures
            position > usize::MAX ==> r == Err::<Vec<u8>, GuiXuError>(GuiXuError::FileTooLarge(position)),
            position <= usize::MAX ==> match r {
                Ok(v) => position + len <= self.actual_length && v@ == self.bytes().subrange(
                    position as int,
                    position + len,
                ),
                Err(e) => position + len > self.actual_length && e is Corrupt,
            },
    {
        let start = to_usize(position)?;
        let actual = self.actual_length as usize;
        if start > actual || len > actual - start {
            return Err(GuiXuError::Corrupt("read beyond logical file length".to_string()));
        }
        Ok(copy_out(&self.data, start, len))
    }

    /// Makes room for `new_length` bytes in use, growing the file when the footer is reached.
    fn update_length(&mut self, new_length: u64) -> (r: Result<()>)
        requires
            old(self).wf(),
            new_length <= u64::MAX - 8,
        ensures
            final(self).wf(),
            new_length <= old(self).actual_length ==> r is Ok && *final(self) == *old(self),
            new_length > old(self).actual_length ==> match r {
                Ok(()) => {
                    &&& old(self).write_fits(new_length as int, 0)
                    &&& final(self).actual_length == new_length
                    &&& {
                        let size = if new_length >= old(self).file_size - 8 {
                            spec_grown_size(new_length as int)
                        } else {
                            old(self).file_size as int
                        };
                        &&& final(self).file_size == size
                        &&& final(self).bytes() == splice(
                            splice(old(self).bytes(), old(self).file_size - 8, zeros(8)) + zeros(
                                (size - old(self).file_size) as nat,
                            ),
                            size - 8,
                            spec_u64_to_bytes(new_length),
                        )
                    }
                },
                Err(e) => !old(self).write_fits(new_length as int, 0) && *final(self) == *old(self)
                    && e is FileTooLarge,
            },
    {
        if new_length <= self.actual_length {
            return Ok(());
        }
        if new_length >= self.file_size.saturating_sub(8) {
            let fits = if new_length > u64::MAX / 8 { u64::MAX } else { new_length * 8 };
            let room = new_length.saturating_add(MAX_INCREASE_SIZE);
            let least = if fits < room { fits } else { room };
            let wanted = if least > new_length + 8 { least } else { new_length + 8 };
            assert(wanted == spec_grown_size(new_length as int));
            if wanted > usize::MAX as u64 {
                return Err(GuiXuError::FileTooLarge(wanted));
            }
        }
        let ghost start = self.data@;
        let old_footer = (self.file_size - 8) as usize;
        let blank: [u8; 8] = [0u8; 8];
        assert(blank@ =~= zeros(8));
        copy_into(&mut self.data, old_footer, &blank);
        proof {
            assert(self.data@ == splice(start, self.file_size - 8, zeros(8)));
        }
        if new_length >= self.file_size.saturating_sub(8) {
            let grown = if new_length > u64::MAX / 8 { u64::MAX } else { new_length * 8 };
            let capped = new_length.saturating_add(MAX_INCREASE_SIZE);
            let smaller = if grown < capped { grown } else { capped };
            let new_size = if smaller > new_length + 8 { smaller } else { new_length + 8 };
            assert(new_size == spec_grown_size(new_length as int));
            self.resize(new_size)?;
        }
        self.actual_length = new_length;
        let footer = (self.file_size - 8) as usize;
        let bytes = u64_to_bytes(self.actual_length);
        copy_into(&mut self.data, footer, &bytes);
        proof {
            crate::byte_ops::lemma_u64_bytes_roundtrip(new_length);
            assert(self.data@.subrange(self.file_size - 8, self.file_size as int) =~= bytes@);
            assert forall|i: int| self.actual_length <= i < self.file_size - 8 implies #[trigger] self.data@[i] == 0 by {
                if i < old(self).file_size - 8 {
                    assert(start[i] == 0);
                }
            }
        }
        Ok(())
    }

    /// Grows the file to `new_size` bytes, the new ones zero.
    fn resize(&mut self, new_size: u64) -> (r: Result<()>)
        requires
            old(self).wf_shape(),
            new_size >= old(self).file_size,
        ensures
            match r {
                Ok(()) => {
                    &&& new_size <= usize::MAX
                    &&& final(self).file_size == new_size
                    &&& final(self).actual_length == old(self).actual_length
                    &&& final(self).bytes() == old(self).bytes() + zeros((new_size - old(self).file_size) as nat)
                    &&& final(self).wf_shape()
                },
                Err(e) => new_size > usize::MAX && e == GuiXuError::FileTooLarge(new_size) && *final(self) == *old(self),
            },
    {
        let size = to_usize(new_size)?;
        extend_with_zeros(&mut self.data, size);
        self.file_size = new_size;
        Ok(())
    }

    /// Writes `source` from `position` on, growing the bytes in use to cover it.
    pub fn write_all_at(&mut self, position: u64, source: &[u8]) -> (r: Result<()>)
        requires
            old(self).wf(),
            position + source@.len() <= u64::MAX - 8,
        ensures
            final(self).wf(),
            match r {
                Ok(()) => {
                    &&& old(self).write_fits(position as int, source@.len() as int)
                    &&& final(self).bytes() == old(self).written(position as int, source@)
                    &&& final(self).actual_length == if position + source@.len() > old(self).actual_length {
                        (position + source@.len()) as u64
                    } else {
                        old(self).actual_length
                    }
                },
                Err(e) => !old(self).write_fits(position as int, source@.len() as int)
                    && *final(self) == *old(self) && e is FileTooLarge,
            },
    {
        let new_length = position + source.len() as u64;
        self.update_length(new_length)?;
        let start = position as usize;
        let ghost before = self.data@;
        copy_into(&mut self.data, start, source);
        proof {
            assert(self.data@.subrange(self.file_size - 8, self.file_size as int)
                =~= before.subrange(self.file_size - 8, self.file_size as int));
            assert forall|i: int| self.actual_length <= i < self.file_size - 8 implies #[trigger] self.data@[i] == 0 by {
                assert(self.data@[i] == before[i]);
            }
        }
        Ok(())
    }

    /// The `i32` stored big-endian at `position`.
    pub fn read_i32(&self, position: u64) -> (r: Result<i32>)
        requires
            self.wf(),
        ensures
            match r {
                Ok(v) => position + 4 <= self.actual_length && v == spec_bytes_to_i32(
                    self.bytes().subrange(position as int, position + 4),
                ),
                Err(e) => position + 4 > self.actual_length && (e is Corrupt || e is FileTooLarge),
            },
    {
        let buffer = self.read_exact_at(position, 4)?;
        Ok(bytes_to_i32(buffer.as_slice()))
    }

    /// The `u64` stored big-endian at `position`.
    pub fn read_u64(&self, position: u64) -> (r: Result<u64>)
        requires
            self.wf(),
        ensures
            match r {
                Ok(v) => position + 8 <= self.actual_length && v == spec_bytes_to_u64(
                    self.bytes().subrange(position as int, position + 8),
                ),
                Err(e) => position + 8 > self.actual_length && (e is Corrupt || e is FileTooLarge),
            },
    {
        let buffer = self.read_exact_at(position, 8)?;
        Ok(bytes_to_u64(buffer.as_slice()))
    }

    /// The byte at `position`.
    pub fn read_u8(&self, position: u64) -> (r: Result<u8>)
        requires
            self.wf(),
        ensures
            match r {
                Ok(v) => position + 1 <= self.actual_length && v == self.bytes()[position as int],
                Err(e) => position + 1 > self.actual_length && (e is Corrupt || e is FileTooLarge),
            },
    {
        let buffer = self.read_exact_at(position, 1)?;
        Ok(buffer[0])
    }

    /// Stores `value` big-endian at `position`.
    pub fn write_i32(&mut self, position: u64, value: i32) -> (r: Result<()>)
        requires
            old(self).wf(),
            position + 4 <= u64::MAX - 8,
        ensures
            final(self).wf(),
            match r {
                Ok(()) => {
                    &&& old(self).write_fits(position as int, 4)
                    &&& final(self).bytes() == old(self).written(position as int, spec_i32_to_bytes(value))
                    &&& final(self).actual_length == if position + 4 > old(self).actual_length {
                        (position + 4) as u64
                    } else {
                        old(self).actual_length
                    }
                },
                Err(e) => !old(self).write_fits(position as int, 4) && *final(self) == *old(self)
                    && e is FileTooLarge,
            },
    {
        let bytes = i32_to_bytes(value);
        self.write_all_at(position, &bytes)
    }

    /// Stores `value` big-endian at `position`.
    pub fn write_u64(&mut self, position: u64, value: u64) -> (r: Result<()>)
        requires
            old(self).wf(),
            position + 8 <= u64::MAX - 8,
        ensures
            final(self).wf(),
            match r {
                Ok(()) => {
                    &&& old(self).write_fits(position as int, 8)
                    &&& final(self).bytes() == old(self).written(position as int, spec_u64_to_bytes(value))
                    &&& final(self).actual_length == if position + 8 > old(self).actual_length {
                        (position + 8) as u64
                    } else {
                        old(self).actual_length
                    }
                },
                Err(e) => !old(self).write_fits(position as int, 8) && *final(self) == *old(self)
                    && e is FileTooLarge,
            },
    {
        let bytes = u64_to_bytes(value);
        self.write_all_at(position, &bytes)
    }

    /// Stores `value` at `position`.
    pub fn write_u8(&mut self, position: u64, value: u8) -> (r: Result<()>)
        requires
            old(self).wf(),
            position + 1 <= u64::MAX - 8,
        ensures
            final(self).wf(),
            match r {
                Ok(()) => {
                    &&& old(self).write_fits(position as int, 1)
                    &&& final(self).bytes() == old(self).written(position as int, seq![value])
                    &&& final(self).actual_length == if position + 1 > old(self).actual_length {
                        (position + 1) as u64
                    } else {
                        old(self).actual_length
                    }
                },
                Err(e) => !old(self).write_fits(position as int, 1) && *final(self) == *old(self)
                    && e is FileTooLarge,
            },
    {
        let bytes: [u8; 1] = [value];
        assert(bytes@ =~= seq![value]);
        self.write_all_at(position, &bytes)
    }
}

/// What a write leaves in a growing file: the written bytes read back where they were
/// written, the bytes in use before the write and outside its range stay, and the file
/// keeps room for its footer after them.
pub proof fn lemma_written_read(f: AutoIncreaseFileAccess, position: int, src: Seq<u8>)
    requires
        f.wf(),
        0 <= position,
        position + src.len() <= u64::MAX - 8,
    ensures
        ({
            let w = f.written(position, src);
            &&& position + src.len() + 8 <= w.len()
            &&& f.bytes().len() <= w.len()
            &&& w.subrange(position, position + src.len()) == src
            &&& forall|a: int, b: int|
                0 <= a <= b <= f.actual_length && (b <= position || position + src.len() <= a)
                    ==> #[trigger] w.subrange(a, b) == f.bytes().subrange(a, b)
        }),
{
    let w = f.written(position, src);
    let new_length = position + src.len();
    if new_length <= f.actual_length {
        assert(w.subrange(position, position + src.len()) =~= src);
        assert forall|a: int, b: int|
            0 <= a <= b <= f.actual_length && (b <= position || position + src.len() <= a)
                implies #[trigger] w.subrange(a, b) == f.bytes().subrange(a, b) by {
            assert(w.subrange(a, b) =~= f.bytes().subrange(a, b));
        }
    } else {
        let size = if new_length >= f.file_size - 8 {
            spec_grown_size(new_length)
        } else {
            f.file_size as int
        };
        let grown = splice(f.data@, f.file_size - 8, zeros(8)) + zeros((size - f.file_size) as nat);
        let footed = splice(grown, size - 8, spec_u64_to_bytes(new_length as u64));
        assert(w == splice(footed, position, src));
        assert(w.subrange(position, position + src.len()) =~= src);
        assert forall|a: int, b: int|
            0 <= a <= b <= f.actual_length && (b <= position || position + src.len() <= a)
                implies #[trigger] w.subrange(a, b) == f.bytes().subrange(a, b) by {
            assert(w.subrange(a, b) =~= f.bytes().subrange(a, b));
        }
    }
}

/// The bytes that a growing file is left with open as that file again: they are long
/// enough to hold a footer, and the footer records the bytes in use, which end before it.
pub proof fn lemma_image_reopens(f: AutoIncreaseFileAccess)
    requires
        f.wf(),
    ensures
        f.bytes().len() >= 8,
        f.bytes().len() == f.file_size,
        spec_bytes_to_u64(f.bytes().subrange(f.bytes().len() - 8, f.bytes().len() as int)) == f.actual_length,
        f.actual_length + 8 <= f.bytes().len(),
        cleared(f.bytes(), f.actual_length as int, f.bytes().len() - 8) == f.bytes(),
{
    assert(cleared(f.bytes(), f.actual_length as int, f.bytes().len() - 8) =~= f.bytes());
}

/// A write that ends by `n` finds room once `n` bytes, the largest step of growth and a
/// footer fit the address space.
pub proof fn lemma_grown_fits(f: AutoIncreaseFileAccess, position: int, src_len: int, n: int)
    requires
        0 <= position,
        0 <= src_len,
        position + src_len <= n,
        n + MAX_INCREASE_SIZE + 8 <= usize::MAX,
    ensures
        f.write_fits(position, src_len),
{
}

/// A write that passes the bytes in use leaves zeros between them and where it writes.
pub proof fn lemma_written_gap(f: AutoIncreaseFileAccess, position: int, src: Seq<u8>)
    requires
        f.wf(),
        0 <= position,
        position + src.len() <= u64::MAX - 8,
    ensures
        forall|j: int| f.actual_length <= j < position ==> #[trigger] f.written(position, src)[j] == 0,
{
    let new_length = position + src.len();
    if new_length > f.actual_length {
        let size = if new_length >= f.file_size - 8 {
            spec_grown_size(new_length)
        } else {
            f.file_size as int
        };
        let cleared_footer = splice(f.data@, f.file_size - 8, zeros(8));
        let grown = cleared_footer + zeros((size - f.file_size) as nat);
        let footed = splice(grown, size - 8, spec_u64_to_bytes(new_length as u64));
        assert forall|j: int| f.actual_length <= j < position implies #[trigger] f.written(position, src)[j] == 0 by {
            assert(f.written(position, src) == splice(footed, position, src));
            assert(footed[j] == grown[j]);
            if j < f.file_size {
                if j < f.file_size - 8 {
                    assert(f.data@[j] == 0);
                }
                assert(cleared_footer[j] == 0);
            }
        }
    }
}

/// A one-byte write within the bytes in use changes that byte alone.
pub proof fn lemma_written_byte(f: AutoIncreaseFileAccess, position: int, value: u8)
    requires
        f.wf(),
        0 <= position,
        position + 1 <= f.actual_length,
    ensures
        f.written(position, seq![value]) == f.bytes().update(position, value),
{
    assert(f.written(position, seq![value]) =~= f.bytes().update(position, value));
}

/// A file of fixed size, read and written in place.
pub struct FixSizeFileAccess {
    pub data: Vec<u8>,
    pub size: u64,
}

impl FixSizeFileAccess {
    /// The bytes of the file.
    pub open spec fn bytes(&self) -> Seq<u8> {
        self.data@
    }

    /// The file opened over `existing`, its bytes on disk, and cut or padded with zeros to `size`.
    pub fn open(existing: Vec<u8>, size: u64) -> (r: Result<Self>)
        ensures
            match r {
                Ok(f) => {
                    &&& size <= usize::MAX
                    &&& f.size == size
                    &&& f.bytes() == if existing@.len() >= size {
                        existing@.subrange(0, size as int)
                    } else {
                        existing@ + zeros((size - existing@.len()) as nat)
                    }
                },
                Err(e) => size > usize::MAX && e == GuiXuError::FileTooLarge(size),
            },
    {
        let n = to_usize(size)?;
        let mut data = existing;
        if data.len() >= n {
            data.truncate(n);
        } else {
            extend_with_zeros(&mut data, n);
        }
        Ok(FixSizeFileAccess { data, size })
    }

    /// The `len` bytes from `position` on; reading past the end fails as a short read does.
    pub fn read_exact_at(&self, position: u64, len: usize) -> (r: Result<Vec<u8>>)
        ensures
            match r {
                Ok(v) => position + len <= self.bytes().len() && v@ == self.bytes().subrange(
                    position as int,
                    position + len,
                ),
                Err(e) => position + len > self.bytes().len() && e is Io,
            },
    {
        let total = self.data.len();
        if position > total as u64 || len > total - position as usize {
            return Err(GuiXuError::Io("failed to fill whole buffer".to_string()));
        }
        Ok(copy_out(&self.data, position as usize, len))
    }

    /// Writes `source` from `position` on, the file growing with zeros when the write passes its end.
    pub fn write_all_at(&mut self, position: u64, source: &[u8]) -> (r: Result<()>)
        requires
            position + source@.len() <= usize::MAX,
        ensures
            r is Ok,
            final(self).size == old(self).size,
            final(self).bytes() == splice(
                if position + source@.len() > old(self).bytes().len() {
                    old(self).bytes() + zeros((position + source@.len() - old(self).bytes().len()) as nat)
                } else {
                    old(self).bytes()
                },
                position as int,
                source@,
            ),
    {
        let end = position as usize + source.len();
        if end > self.data.len() {
            extend_with_zeros(&mut self.data, end);
        }
        copy_into(&mut self.data, position as usize, source);
        Ok(())
    }

    /// The size that the file was opened with.
    pub fn length(&self) -> (r: u64)
        ensures
            r == self.size,
    {
        self.size
    }
}

} // verus!
