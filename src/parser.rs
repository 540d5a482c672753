//! A fixed 512-byte frame with a cursor: bounds-checked reads and writes of
//! bytes and big-endian integers, and the encoding and decoding of names.
use vstd::prelude::*;

use crate::names::{
    label_text, labels_fit, labels_nonempty, labels_of, labels_to_text, labels_within_limit,
    labels_wire, lemma_scan_wire, lemma_wire_cons, lemma_wire_len, name_text, name_wire,
    lemma_pointer_chain_fails, lemma_self_pointer_chain, pointer_chain, pointer_target, resume, scan_name, split_from, DOT, MAX_JUMPS,
};
use crate::{DnsError, Result};
use vstd::string::StringSliceAdditionalSpecFns;

verus! {

/// The size of a DNS message carried over UDP without extensions.
pub const CAPACITY: usize = 512;

/// A buffer seen as mathematical values: its bytes, the cursor, and how many
/// of the bytes hold data that can be read.
pub struct BufferView {
    pub bytes: Seq<u8>,
    pub pos: nat,
    pub valid_len: nat,
}

/// The value of two bytes in network byte order.
pub open spec fn be16(hi: u8, lo: u8) -> u16 {
    (hi as int * 0x100 + lo as int) as u16
}

/// The value of four bytes in network byte order.
pub open spec fn be32(b0: u8, b1: u8, b2: u8, b3: u8) -> u32 {
    (b0 as int * 0x100_0000 + b1 as int * 0x1_0000 + b2 as int * 0x100 + b3 as int) as u32
}

/// The two bytes of `v` in network byte order.
pub open spec fn u16_bytes(v: u16) -> Seq<u8> {
    seq![(v / 0x100) as u8, (v % 0x100) as u8]
}

/// The four bytes of `v` in network byte order.
pub open spec fn u32_bytes(v: u32) -> Seq<u8> {
    seq![
        (v / 0x100_0000) as u8,
        (v / 0x1_0000 % 0x100) as u8,
        (v / 0x100 % 0x100) as u8,
        (v % 0x100) as u8,
    ]
}

impl BufferView {
    /// The bytes that hold data.
    pub open spec fn data(self) -> Seq<u8> {
        self.bytes.subrange(0, self.valid_len as int)
    }

    /// The frame has its full size and the cursor and the data lie within it.
    pub open spec fn wf(self) -> bool {
        &&& self.bytes.len() == CAPACITY
        &&& self.pos <= CAPACITY
        &&& self.valid_len <= CAPACITY
    }

    /// The same buffer with the cursor at `pos`.
    pub open spec fn with_pos(self, pos: nat) -> BufferView {
        BufferView { pos, ..self }
    }

    /// `data` written at the cursor, and the cursor moved past it.
    pub open spec fn put(self, data: Seq<u8>) -> BufferView {
        BufferView {
            bytes: self.bytes.subrange(0, self.pos as int) + data + self.bytes.subrange(
                (self.pos + data.len()) as int,
                self.bytes.len() as int,
            ),
            pos: self.pos + data.len(),
            ..self
        }
    }

    /// Writing `data` at the cursor: it fails when the bytes do not fit.
    pub open spec fn write_step(self, data: Seq<u8>) -> Result<BufferView> {
        if self.pos + data.len() <= CAPACITY {
            Ok(self.put(data))
        } else {
            Err(DnsError::BufferFull)
        }
    }

    /// Writing the wire form of a name given as bytes: a label that is too
    /// long fails first, then a name that does not fit.
    pub open spec fn write_label_step(self, name: Seq<u8>) -> Result<BufferView> {
        if !labels_fit(labels_of(name)) {
            Err(DnsError::LabelTooLong)
        } else {
            self.write_step(name_wire(name))
        }
    }

    /// Reading the labels of a name at the cursor; on success the cursor
    /// moves to where `scan_name` resumes.
    pub open spec fn read_name_step(self) -> Result<(Seq<Seq<u8>>, BufferView)> {
        match scan_name(self.data(), self.pos as int, 0) {
            Ok((ls, end)) => Ok((ls, self.with_pos(end as nat))),
            Err(e) => Err(e),
        }
    }

    /// Reading one byte at the cursor.
    pub open spec fn read_u8_step(self) -> Result<(u8, BufferView)> {
        if self.pos < self.valid_len {
            Ok((self.bytes[self.pos as int], self.with_pos(self.pos + 1)))
        } else {
            Err(DnsError::BufferExhausted)
        }
    }

    /// Reading a big-endian 16-bit integer at the cursor.
    pub open spec fn read_u16_step(self) -> Result<(u16, BufferView)> {
        if self.pos + 2 <= self.valid_len {
            let p = self.pos as int;
            Ok((be16(self.bytes[p], self.bytes[p + 1]), self.with_pos(self.pos + 2)))
        } else {
            Err(DnsError::BufferExhausted)
        }
    }

    /// Reading a big-endian 32-bit integer at the cursor.
    pub open spec fn read_u32_step(self) -> Result<(u32, BufferView)> {
        if self.pos + 4 <= self.valid_len {
            let p = self.pos as int;
            Ok(
                (
                    be32(self.bytes[p], self.bytes[p + 1], self.bytes[p + 2], self.bytes[p + 3]),
                    self.with_pos(self.pos + 4),
                ),
            )
        } else {
            Err(DnsError::BufferExhausted)
        }
    }
}

/// What an operation on the buffer gives back and leaves behind: on success
/// the value and the new state, on failure the error and the old state.
pub open spec fn outcome<T>(
    r: Result<T>,
    before: BufferView,
    after: BufferView,
    step: Result<(T, BufferView)>,
) -> bool {
    match step {
        Ok((v, next)) => r == Ok::<T, DnsError>(v) && after == next,
        Err(e) => r == Err::<T, DnsError>(e) && after == before,
    }
}

/// What a write gives back and leaves behind.
pub open spec fn write_outcome(
    r: Result<()>,
    before: BufferView,
    after: BufferView,
    step: Result<BufferView>,
) -> bool {
    match step {
        Ok(next) => r == Ok::<(), DnsError>(()) && after == next,
        Err(e) => r == Err::<(), DnsError>(e) && after == before,
    }
}

/// Two writes in a row write both pieces in a row.
pub proof fn lemma_put_put(v: BufferView, a: Seq<u8>, b: Seq<u8>)
    requires
        v.pos + a.len() + b.len() <= v.bytes.len(),
    ensures
        v.put(a).put(b) == v.put(a + b),
{
    assert(v.put(a).put(b).bytes =~= v.put(a + b).bytes);
}

/// A fixed-capacity frame of bytes with a read/write cursor and the count of
/// bytes that hold data.
#[derive(Debug)]
pub struct DnsBytePacketBuffer {
    buf: [u8; 512],
    pos: usize,
    bytes_read: usize,
}

impl View for DnsBytePacketBuffer {
    type V = BufferView;

    closed spec fn view(&self) -> BufferView {
        BufferView { bytes: self.buf@, pos: self.pos as nat, valid_len: self.bytes_read as nat }
    }
}

impl DnsBytePacketBuffer {
    /// The buffer is well formed.
    pub open spec fn inv(&self) -> bool {
        self@.wf()
    }

    /// A zeroed buffer with the cursor at the start and no data.
    pub fn new() -> (r: Self)
        ensures
            r.inv(),
            r@.bytes == Seq::new(CAPACITY as nat, |i: int| 0u8),
            r@.pos == 0,
            r@.valid_len == 0,
    {
        let r = DnsBytePacketBuffer { buf: [0u8; 512], pos: 0, bytes_read: 0 };
        assert(r@.bytes =~= Seq::new(CAPACITY as nat, |i: int| 0u8));
        r
    }

    /// Declares how many bytes at the start of the buffer hold data.
    pub fn set_bytes_read(&mut self, bytes_read: usize)
        requires
            old(self).inv(),
            bytes_read <= CAPACITY,
        ensures
            final(self).inv(),
            final(self)@ == (BufferView { valid_len: bytes_read as nat, ..old(self)@ }),
    {
        self.bytes_read = bytes_read;
    }

    /// The whole frame, to be filled by a transport before `set_bytes_read`.
    pub fn get_buf(&mut self) -> (r: &mut [u8])
        requires
            old(self).inv(),
        ensures
            r@ == old(self)@.bytes,
            final(self)@ == (BufferView { bytes: final(r)@, ..old(self)@ }),
            final(self).inv(),
    {
        &mut self.buf
    }

    /// The cursor.
    pub fn get_pos(&self) -> (r: usize)
        ensures
            r == self@.pos,
    {
        self.pos
    }

    /// How many bytes at the start of the buffer hold data.
    pub fn valid_len(&self) -> (r: usize)
        ensures
            r == self@.valid_len,
    {
        self.bytes_read
    }

    /// The cursor.
    pub fn pos(&self) -> (r: usize)
        ensures
            r == self@.pos,
    {
        self.pos
    }

    /// The byte at the cursor, which must hold data; the cursor moves past it.
    fn take(&mut self) -> (r: u8)
        requires
            old(self).inv(),
            old(self)@.pos < old(self)@.valid_len,
        ensures
            final(self).inv(),
            r == old(self)@.bytes[old(self)@.pos as int],
            final(self)@ == old(self)@.with_pos(old(self)@.pos + 1),
    {
        let data = self.buf[self.pos];
        self.pos = self.pos + 1;
        data
    }

    /// Reads the byte at the cursor and moves past it.
    pub fn read(&mut self) -> (r: Result<u8>)
        requires
            old(self).inv(),
        ensures
            final(self).inv(),
            outcome(r, old(self)@, final(self)@, old(self)@.read_u8_step()),
    {
        if self.pos < self.bytes_read {
            Ok(self.take())
        } else {
            Err(DnsError::BufferExhausted)
        }
    }

    /// Moves the cursor to an absolute position within the data.
    pub fn seek(&mut self, pos: usize) -> (r: Result<()>)
        requires
            old(self).inv(),
        ensures
            final(self).inv(),
            pos <= old(self)@.valid_len ==> r == Ok::<(), DnsError>(()) && final(self)@
                == old(self)@.with_pos(pos as nat),
            pos > old(self)@.valid_len ==> r == Err::<(), DnsError>(DnsError::OutOfRange)
                && final(self)@ == old(self)@,
    {
        if pos > self.bytes_read {
            Err(DnsError::OutOfRange)
        } else {
            self.pos = pos;
            Ok(())
        }
    }

    /// Reads a big-endian 16-bit integer at the cursor and moves past it.
    pub fn read_u16(&mut self) -> (r: Result<u16>)
        requires
            old(self).inv(),
        ensures
            final(self).inv(),
            outcome(r, old(self)@, final(self)@, old(self)@.read_u16_step()),
    {
        if self.pos + 1 < self.bytes_read {
            let a = self.take();
            let b = self.take();
            let data: u16 = ((a as u16) << 8) | (b as u16);
            assert(data == be16(a, b)) by (bit_vector)
                requires
                    data == ((a as u16) << 8) | (b as u16),
            ;
            Ok(data)
        } else {
            Err(DnsError::BufferExhausted)
        }
    }

    /// The byte at an absolute index within the data; the cursor stays.
    pub fn get(&self, index: usize) -> (r: Result<u8>)
        requires
            self.inv(),
        ensures
            index < self@.valid_len ==> r == Ok::<u8, DnsError>(self@.bytes[index as int]),
            index >= self@.valid_len ==> r == Err::<u8, DnsError>(DnsError::OutOfRange),
    {
        if index < self.bytes_read {
            Ok(self.buf[index])
        } else {
            Err(DnsError::OutOfRange)
        }
    }

    /// Moves the cursor forward by `steps` bytes, all within the data.
    pub fn step(&mut self, steps: usize) -> (r: Result<()>)
        requires
            old(self).inv(),
        ensures
            final(self).inv(),
            outcome(
                r,
                old(self)@,
                final(self)@,
                if old(self)@.pos + steps <= old(self)@.valid_len {
                    Ok(((), old(self)@.with_pos((old(self)@.pos + steps) as nat)))
                } else {
                    Err(DnsError::BufferExhausted)
                },
            ),
    {
        if self.pos <= self.bytes_read && steps <= self.bytes_read - self.pos {
            self.pos = self.pos + steps;
            Ok(())
        } else {
            Err(DnsError::BufferExhausted)
        }
    }

    /// Reads a big-endian 32-bit integer at the cursor and moves past it.
    pub fn read_u32(&mut self) -> (r: Result<u32>)
        requires
            old(self).inv(),
        ensures
            final(self).inv(),
            outcome(r, old(self)@, final(self)@, old(self)@.read_u32_step()),
    {
        if self.pos + 3 < self.bytes_read {
            let b0 = self.take();
            let b1 = self.take();
            let b2 = self.take();
            let b3 = self.take();
            let data: u32 = ((b0 as u32) << 24) | ((b1 as u32) << 16) | ((b2 as u32) << 8) | (
            b3 as u32);
            assert(data == be32(b0, b1, b2, b3)) by (bit_vector)
                requires
                    data == ((b0 as u32) << 24) | ((b1 as u32) << 16) | ((b2 as u32) << 8) | (
                    b3 as u32),
            ;
            Ok(data)
        } else {
            Err(DnsError::BufferExhausted)
        }
    }

    /// A view of bytes of the frame, wherever the cursor and the data stand.
    pub fn get_buf_range(&self, range: core::ops::Range<usize>) -> (r: Result<&[u8]>)
        requires
            self.inv(),
            range.start <= range.end <= CAPACITY,
        ensures
            r matches Ok(s) && s@ == self@.bytes.subrange(range.start as int, range.end as int),
    {
        Ok(vstd::slice::slice_subrange(self.buf.as_slice(), range.start, range.end))
    }

    /// A view of `len` bytes of the data from `start`; the cursor stays.
    pub fn get_range(&self, start: usize, len: usize) -> (r: Result<&[u8]>)
        requires
            self.inv(),
        ensures
            start + len <= self@.valid_len ==> (r matches Ok(s) && s@ == self@.bytes.subrange(
                start as int,
                start + len,
            )),
            start + len > self@.valid_len ==> r == Err::<&[u8], DnsError>(DnsError::OutOfRange),
    {
        if start <= self.bytes_read && len <= self.bytes_read - start {
            Ok(vstd::slice::slice_subrange(self.buf.as_slice(), start, start + len))
        } else {
            Err(DnsError::OutOfRange)
        }
    }

    /// Writes one byte at the cursor, which must lie inside the frame.
    fn put_byte(&mut self, val: u8)
        requires
            old(self).inv(),
            old(self)@.pos < CAPACITY,
        ensures
            final(self).inv(),
            final(self)@ == old(self)@.put(seq![val]),
    {
        let ghost before = self@;
        self.buf[self.pos] = val;
        self.pos = self.pos + 1;
        assert(self@.bytes =~= before.put(seq![val]).bytes);
    }

    /// Writes a label given as `bytes[start..end]`, with its length in front.
    fn put_label(&mut self, bytes: &[u8], start: usize, end: usize)
        requires
            old(self).inv(),
            start <= end <= bytes@.len(),
            old(self)@.pos + (end - start) + 1 <= CAPACITY,
        ensures
            final(self).inv(),
            final(self)@ == old(self)@.put(
                seq![(end - start) as u8] + bytes@.subrange(start as int, end as int),
            ),
    {
        let ghost before = self@;
        self.put_byte((end - start) as u8);
        let mut k: usize = start;
        while k < end
            invariant
                self.inv(),
                start <= k <= end <= bytes@.len(),
                before.pos + (end - start) + 1 <= CAPACITY,
                before.wf(),
                self@ == before.put(
                    seq![(end - start) as u8] + bytes@.subrange(start as int, k as int),
                ),
            decreases end - k,
        {
            let ghost done = seq![(end - start) as u8] + bytes@.subrange(start as int, k as int);
            self.put_byte(bytes[k]);
            proof {
                lemma_put_put(before, done, seq![bytes@[k as int]]);
                assert(done + seq![bytes@[k as int]] =~= seq![(end - start) as u8]
                    + bytes@.subrange(start as int, k + 1));
            }
            k = k + 1;
        }
    }

    /// Writes `qname` in wire form: each dot-separated label with its length
    /// in front, then a zero byte. No compression pointer is written.
    pub fn write_label(&mut self, qname: &str) -> (r: Result<()>)
        requires
            old(self).inv(),
        ensures
            final(self).inv(),
            write_outcome(
                r,
                old(self)@,
                final(self)@,
                old(self)@.write_label_step(qname.spec_bytes()),
            ),
    {
        let bytes = qname.as_bytes();
        if !labels_within_limit(bytes) {
            return Err(DnsError::LabelTooLong);
        }
        let n = bytes.len();
        proof {
            lemma_wire_len(bytes@, 0, seq![]);
            assert(bytes@.subrange(0, 0) =~= Seq::<u8>::empty());
        }
        if self.pos > CAPACITY - 2 || n > CAPACITY - 2 - self.pos {
            return Err(DnsError::BufferFull);
        }
        let ghost before = self@;
        let ghost mut prefix: Seq<u8> = seq![];
        let mut start: usize = 0;
        let mut i: usize = 0;
        assert(self@ == before.put(prefix)) by {
            assert(before.put(prefix).bytes =~= before.bytes);
        }
        while i < n
            invariant
                self.inv(),
                before.wf(),
                n == bytes@.len(),
                start <= i <= n,
                self@ == before.put(prefix),
                prefix.len() == start,
                prefix + labels_wire(
                    split_from(bytes@, i as int, bytes@.subrange(start as int, i as int)),
                ) == name_wire(bytes@),
                before.pos + n + 2 <= CAPACITY,
            decreases n - i,
        {
            let ghost cur = bytes@.subrange(start as int, i as int);
            if bytes[i] == DOT {
                self.put_label(bytes, start, i);
                proof {
                    let piece = seq![(i - start) as u8] + cur;
                    let rest = split_from(bytes@, i + 1, seq![]);
                    lemma_wire_cons(cur, rest);
                    lemma_put_put(before, prefix, piece);
                    assert(bytes@.subrange(i + 1, i + 1) =~= Seq::<u8>::empty());
                    assert(prefix + (piece + labels_wire(rest)) =~= (prefix + piece)
                        + labels_wire(rest));
                    prefix = prefix + piece;
                }
                start = i + 1;
            } else {
                assert(cur.push(bytes@[i as int]) =~= bytes@.subrange(start as int, i + 1));
            }
            i = i + 1;
        }
        let ghost cur = bytes@.subrange(start as int, n as int);
        self.put_label(bytes, start, n);
        let ghost piece = seq![(n - start) as u8] + cur;
        proof {
            lemma_put_put(before, prefix, piece);
        }
        self.put_byte(0);
        proof {
            lemma_wire_cons(cur, seq![]);
            lemma_put_put(before, prefix + piece, seq![0u8]);
            assert(prefix + piece + seq![0u8] =~= name_wire(bytes@));
        }
        Ok(())
    }

    /// Reads the labels of the name at the cursor, following compression
    /// pointers. The cursor ends past the first pointer met, or past the
    /// terminating zero when there is none; on failure it stays.
    pub fn read_label_parts(&mut self) -> (r: Result<Vec<Vec<u8>>>)
        requires
            old(self).inv(),
        ensures
            final(self).inv(),
            match old(self)@.read_name_step() {
                Ok((ls, next)) => r matches Ok(parts) && parts.deep_view() == ls && final(self)@
                    == next,
                Err(e) => r == Err::<Vec<Vec<u8>>, DnsError>(e) && final(self)@ == old(self)@,
            },
    {
        let ghost data = self@.data();
        let ghost start = self@.pos as int;
        let mut at: usize = self.pos;
        let mut jumps: usize = 0;
        let mut jumped = false;
        let mut end: usize = 0;
        let mut parts: Vec<Vec<u8>> = Vec::new();
        assert(resume(parts.deep_view(), jumped, end as int, scan_name(data, at as int, 0))
            =~= scan_name(data, start, 0)) by {
            match scan_name(data, start, 0) {
                Ok((ls, e)) => {
                    assert(parts.deep_view() + ls =~= ls);
                },
                Err(_) => {},
            }
        }
        loop
            invariant
                self.inv(),
                self@ == old(self)@,
                data == self@.data(),
                data.len() == self@.valid_len,
                start == self@.pos,
                jumps <= MAX_JUMPS + 1,
                at < 0x4000,
                jumped ==> end <= data.len(),
                resume(parts.deep_view(), jumped, end as int, scan_name(data, at as int, jumps as int))
                    == scan_name(data, start, 0),
            decreases MAX_JUMPS + 1 - jumps, data.len() - at,
        {
            if jumps > MAX_JUMPS {
                return Err(DnsError::CompressionLoop);
            }
            let len = match self.get(at) {
                Ok(b) => b,
                Err(e) => {
                    return Err(e);
                },
            };
            assert(len == data[at as int]);
            if len >= 0xC0 {
                // the top two bits are set: a pointer
                let b2 = match self.get(at + 1) {
                    Ok(b) => b,
                    Err(e) => {
                        return Err(e);
                    },
                };
                assert(b2 == data[at + 1]);
                if !jumped {
                    end = at + 2;
                    jumped = true;
                }
                at = ((len - 0xC0) as usize) * 0x100 + (b2 as usize);
                assert(at == pointer_target(len, b2));
                jumps = jumps + 1;
            } else if len == 0 {
                let stop = if jumped {
                    end
                } else {
                    at + 1
                };
                return match self.seek(stop) {
                    Ok(()) => Ok(parts),
                    Err(e) => Err(e),
                };
            } else {
                let label = match self.get_range(at + 1, len as usize) {
                    Ok(s) => s,
                    Err(e) => {
                        return Err(e);
                    },
                };
                let ghost before = parts.deep_view();
                let piece = vstd::slice::slice_to_vec(label);
                proof {
                    let l = data.subrange(at + 1, at + 1 + len);
                    assert(label@ =~= l);
                    assert(piece.deep_view() =~= l);
                }
                parts.push(piece);
                proof {
                    let l = data.subrange(at + 1, at + 1 + len);
                    assert(parts.deep_view() =~= before.push(l));
                    match scan_name(data, at + 1 + len, jumps as int) {
                        Ok((ls, e)) => {
                            assert(before + (seq![l] + ls) =~= before.push(l) + ls);
                        },
                        Err(_) => {},
                    }
                }
                at = at + 1 + len as usize;
            }
        }
    }

    /// Reads the name at the cursor as text: its labels lower-cased and joined
    /// by dots. The cursor moves as `read_label_parts` says.
    pub fn read_label(&mut self) -> (r: Result<String>)
        requires
            old(self).inv(),
        ensures
            final(self).inv(),
            match old(self)@.read_name_step() {
                Ok((ls, next)) => r matches Ok(s) && s@ == name_text(ls) && final(self)@ == next,
                Err(e) => r == Err::<String, DnsError>(e) && final(self)@ == old(self)@,
            },
    {
        match self.read_label_parts() {
            Ok(parts) => Ok(labels_to_text(&parts)),
            Err(e) => Err(e),
        }
    }

    /// Writes one byte at the cursor.
    fn write(&mut self, val: u8) -> (r: Result<()>)
        requires
            old(self).inv(),
        ensures
            final(self).inv(),
            write_outcome(r, old(self)@, final(self)@, old(self)@.write_step(seq![val])),
    {
        if self.pos >= CAPACITY {
            return Err(DnsError::BufferFull);
        }
        self.put_byte(val);
        Ok(())
    }

    /// Writes one byte at the cursor.
    pub fn write_u8(&mut self, val: u8) -> (r: Result<()>)
        requires
            old(self).inv(),
        ensures
            final(self).inv(),
            write_outcome(r, old(self)@, final(self)@, old(self)@.write_step(seq![val])),
    {
        self.write(val)
    }

    /// Writes a 16-bit integer at the cursor in network byte order.
    pub fn write_u16(&mut self, val: u16) -> (r: Result<()>)
        requires
            old(self).inv(),
        ensures
            final(self).inv(),
            write_outcome(r, old(self)@, final(self)@, old(self)@.write_step(u16_bytes(val))),
    {
        if self.pos + 2 > CAPACITY {
            return Err(DnsError::BufferFull);
        }
        let ghost before = self@;
        let hi = (val >> 8) as u8;
        let lo = (val & 0xFF) as u8;
        assert(hi == (val / 0x100) as u8 && lo == (val % 0x100) as u8) by (bit_vector)
            requires
                hi == (val >> 8) as u8,
                lo == (val & 0xFF) as u8,
        ;
        self.put_byte(hi);
        self.put_byte(lo);
        assert(self@.bytes =~= before.put(u16_bytes(val)).bytes);
        Ok(())
    }

    /// Writes a 32-bit integer at the cursor in network byte order.
    pub fn write_u32(&mut self, val: u32) -> (r: Result<()>)
        requires
            old(self).inv(),
        ensures
            final(self).inv(),
            write_outcome(r, old(self)@, final(self)@, old(self)@.write_step(u32_bytes(val))),
    {
        if self.pos + 4 > CAPACITY {
            return Err(DnsError::BufferFull);
        }
        let ghost before = self@;
        let b0 = ((val >> 24) & 0xFF) as u8;
        let b1 = ((val >> 16) & 0xFF) as u8;
        let b2 = ((val >> 8) & 0xFF) as u8;
        let b3 = (val & 0xFF) as u8;
        assert(b0 == (val / 0x100_0000) as u8 && b1 == (val / 0x1_0000 % 0x100) as u8 && b2 == (
        val / 0x100 % 0x100) as u8 && b3 == (val % 0x100) as u8) by (bit_vector)
            requires
                b0 == ((val >> 24) & 0xFF) as u8,
                b1 == ((val >> 16) & 0xFF) as u8,
                b2 == ((val >> 8) & 0xFF) as u8,
                b3 == (val & 0xFF) as u8,
        ;
        self.put_byte(b0);
        self.put_byte(b1);
        self.put_byte(b2);
        self.put_byte(b3);
        assert(self@.bytes =~= before.put(u32_bytes(val)).bytes);
        Ok(())
    }
}

/// Reading a 16-bit integer is reading two bytes in a row and combining them
/// in network byte order; either fails the same way, and on success the
/// cursor has moved by exactly two.
pub proof fn lemma_read_u16_is_two_reads(v: BufferView)
    requires
        v.wf(),
    ensures
        v.read_u16_step() == match v.read_u8_step() {
            Ok((a, v1)) => match v1.read_u8_step() {
                Ok((b, v2)) => Ok((be16(a, b), v2)),
                Err(e) => Err(e),
            },
            Err(e) => Err(e),
        },
        v.read_u16_step() matches Ok((_, next)) ==> next.pos == v.pos + 2,
{
}

/// A name written by `write_label` reads back, from the same place, as its
/// labels: so `read_label` gives each label lower-cased with dots between
/// them. A name without empty labels moves the reader just past the bytes
/// that were written; the empty name, written as an empty label and the
/// terminating zero, is read from its first byte alone.
pub proof fn lemma_label_round_trip(v: BufferView, name: Seq<u8>, w: BufferView, r: BufferView)
    requires
        v.wf(),
        v.write_label_step(name) == Ok::<BufferView, DnsError>(w),
        labels_nonempty(labels_of(name)) || name.len() == 0,
        r.wf(),
        r.bytes == w.bytes,
        r.pos == v.pos,
        w.pos <= r.valid_len,
    ensures
        r.read_name_step() is Ok,
        name_text(r.read_name_step()->Ok_0.0) == name_text(labels_of(name)),
        labels_nonempty(labels_of(name)) ==> r.read_name_step() == Ok::<
            (Seq<Seq<u8>>, BufferView),
            DnsError,
        >((labels_of(name), r.with_pos(w.pos))),
        w.pos == v.pos + name_wire(name).len(),
{
    let wire = name_wire(name);
    let data = r.data();
    assert(data.subrange(v.pos as int, (v.pos + wire.len()) as int) =~= wire) by {
        assert forall|j: int| 0 <= j < wire.len() implies data.subrange(
            v.pos as int,
            (v.pos + wire.len()) as int,
        )[j] == wire[j] by {
            assert(w.bytes[v.pos + j] == wire[j]);
        }
    }
    if name.len() == 0 {
        let ls = labels_of(name);
        assert(ls == seq![Seq::<u8>::empty()]);
        assert(ls.drop_first() =~= Seq::<Seq<u8>>::empty());
        assert(labels_wire(ls.drop_first()) == seq![0u8]);
        assert(wire =~= seq![0u8] + Seq::<u8>::empty() + seq![0u8]);
        assert(data[v.pos as int] == wire[0]);
        let texts = ls.map_values(|l: Seq<u8>| label_text(l));
        assert(texts[0] == label_text(ls[0]));
        assert(name_text(Seq::<Seq<u8>>::empty()) =~= name_text(ls));
    } else {
        lemma_scan_wire(labels_of(name), data, v.pos as int, 0);
    }
}

/// A name that starts with a compression pointer moves the reader by exactly
/// the two bytes of that pointer, however many pointers are followed after it.
pub proof fn lemma_pointer_name_takes_two(v: BufferView)
    requires
        v.wf(),
        v.pos < v.valid_len,
        v.bytes[v.pos as int] >= 0xC0,
        v.read_name_step() is Ok,
    ensures
        v.read_name_step()->Ok_0.1.pos == v.pos + 2,
{
    assert(v.data()[v.pos as int] == v.bytes[v.pos as int]);
}

/// A name that starts with a chain of six compression pointers, one more
/// than the bound, fails with `CompressionLoop`; so does a pointer that leads
/// to itself. Reading a name always ends: at most five pointers are followed.
pub proof fn lemma_pointer_chain_is_loop(v: BufferView)
    requires
        v.wf(),
        pointer_chain(v.data(), v.pos as int, (MAX_JUMPS + 1) as nat) || (v.pos + 1 < v.valid_len
            && v.bytes[v.pos as int] >= 0xC0 && pointer_target(
            v.bytes[v.pos as int],
            v.bytes[v.pos + 1int],
        ) == v.pos),
    ensures
        v.read_name_step() == Err::<(Seq<Seq<u8>>, BufferView), DnsError>(
            DnsError::CompressionLoop,
        ),
{
    let data = v.data();
    if !pointer_chain(data, v.pos as int, (MAX_JUMPS + 1) as nat) {
        assert(data[v.pos as int] == v.bytes[v.pos as int]);
        assert(data[v.pos + 1int] == v.bytes[v.pos + 1int]);
        lemma_self_pointer_chain(data, v.pos as int, (MAX_JUMPS + 1) as nat);
    }
    lemma_pointer_chain_fails(data, v.pos as int, 0);
}

} // verus!
