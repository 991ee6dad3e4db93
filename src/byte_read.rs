use vstd::prelude::*;
use vstd::slice::slice_subrange;

verus! {

/// `is_ascii_whitespace` of std: space, tab, line feed, form feed, carriage return.
pub open spec fn spec_ws(c: u8) -> bool {
    c == 0x20u8 || c == 0x09u8 || c == 0x0Au8 || c == 0x0Cu8 || c == 0x0Du8
}

/// Every byte of `s` is ASCII whitespace.
pub open spec fn all_ws(s: Seq<u8>) -> bool {
    forall|i: int| 0 <= i < s.len() ==> #[trigger] spec_ws(s[i])
}

pub fn is_ws(c: u8) -> (r: bool)
    ensures
        r == spec_ws(c),
{
    c == 0x20u8 || c == 0x09u8 || c == 0x0Au8 || c == 0x0Cu8 || c == 0x0Du8
}

/// One pull from a byte source: a byte, or the end of the stream.
#[derive(Debug, Clone, Copy)]
pub struct IoByte {
    pub byte: u8,
    pub eof: bool,
}

impl IoByte {
    /// The end-of-stream marker.
    pub fn eof_marker() -> (r: Self)
        ensures
            r.eof,
            r.byte == 0,
    {
        IoByte { byte: 0, eof: true }
    }

    pub fn from_u8(byte: u8) -> (r: Self)
        ensures
            r.byte == byte,
            !r.eof,
    {
        IoByte { byte, eof: false }
    }

    pub fn as_u8(self) -> (r: u8)
        ensures
            r == self.byte,
    {
        self.byte
    }

    pub fn is_eof(self) -> (r: bool)
        ensures
            r == self.eof,
    {
        self.eof
    }

    /// The stream seen from this pull on: the byte itself followed by `rest`,
    /// or nothing at the end of the stream.
    pub open spec fn with_rest(self, rest: Seq<u8>) -> Seq<u8> {
        if self.eof {
            Seq::empty()
        } else {
            seq![self.byte] + rest
        }
    }
}

/// A source of bytes, read front to back, with a buffer that can be read in
/// place.
///
/// `rest` is every byte that the source will still yield, the buffered ones
/// first; `buffered` is the part of it that is held in the buffer now.
pub trait ByteRead {
    spec fn rest(&self) -> Seq<u8>;

    spec fn buffered(&self) -> Seq<u8>;

    spec fn inv(&self) -> bool;

    /// What is left of a source can be counted in a `usize`.
    proof fn lemma_rest_fits(&self)
        requires
            self.inv(),
        ensures
            self.rest().len() <= usize::MAX,
    ;

    /// Takes the next byte, refilling the buffer when it is empty.
    fn next_byte(&mut self) -> (r: IoByte)
        requires
            old(self).inv(),
        ensures
            final(self).inv(),
            old(self).rest().len() == 0 ==> r.eof && r.byte == 0 && final(self).rest() == old(
                self,
            ).rest(),
            old(self).rest().len() > 0 ==> !r.eof && r.byte == old(self).rest()[0]
                && final(self).rest() == old(self).rest().drop_first(),
    ;

    /// Refills the buffer if it is empty; the stream itself does not move.
    fn fill_buf(&mut self)
        requires
            old(self).inv(),
        ensures
            final(self).inv(),
            final(self).rest() == old(self).rest(),
            old(self).buffered().len() > 0 ==> final(self).buffered() == old(self).buffered(),
            final(self).rest().len() > 0 ==> final(self).buffered().len() > 0,
    ;

    /// The buffered bytes, borrowed.
    fn buffer(&self) -> (r: &[u8])
        requires
            self.inv(),
        ensures
            r@ == self.buffered(),
            r@.len() <= self.rest().len(),
            r@ == self.rest().take(r@.len() as int),
    ;

    /// Marks the first `n` buffered bytes as read.
    fn consume(&mut self, n: usize)
        requires
            old(self).inv(),
            n <= old(self).buffered().len(),
        ensures
            final(self).inv(),
            final(self).rest() == old(self).rest().skip(n as int),
            final(self).buffered() == old(self).buffered().skip(n as int),
    ;
}

/// The buffer size that a source gets where none is asked for.
pub const DEFAULT_CAPACITY: usize = 65536;

/// A byte source over bytes held in memory, handed out in blocks of at most
/// `capacity` bytes.
#[derive(Debug)]
pub struct MemReader {
    data: Vec<u8>,
    head: usize,
    tail: usize,
    capacity: usize,
}

impl MemReader {
    pub fn new(data: Vec<u8>, capacity: usize) -> (r: Self)
        requires
            capacity > 0,
        ensures
            r.inv(),
            r.rest() == data@,
            r.buffered().len() == 0,
    {
        let _bounded_by_usize = data.len();
        MemReader { data, head: 0, tail: 0, capacity }
    }

    pub fn from_slice(data: &[u8], capacity: usize) -> (r: Self)
        requires
            capacity > 0,
        ensures
            r.inv(),
            r.rest() == data@,
    {
        MemReader::new(vstd::slice::slice_to_vec(data), capacity)
    }
}

impl ByteRead for MemReader {
    closed spec fn rest(&self) -> Seq<u8> {
        self.data@.subrange(self.head as int, self.data@.len() as int)
    }

    closed spec fn buffered(&self) -> Seq<u8> {
        self.data@.subrange(self.head as int, self.tail as int)
    }

    closed spec fn inv(&self) -> bool {
        self.head <= self.tail <= self.data@.len() && self.data@.len() <= usize::MAX
            && self.capacity > 0
    }

    proof fn lemma_rest_fits(&self) {
    }

    fn next_byte(&mut self) -> (r: IoByte) {
        if self.head == self.tail {
            self.fill_buf();
        }
        if self.head < self.tail {
            let b = self.data[self.head];
            self.head = self.head + 1;
            proof {
                assert(self.rest() =~= old(self).rest().drop_first());
            }
            IoByte::from_u8(b)
        } else {
            IoByte::eof_marker()
        }
    }

    fn fill_buf(&mut self) {
        if self.head == self.tail {
            let left = self.data.len() - self.head;
            let n = if left < self.capacity {
                left
            } else {
                self.capacity
            };
            self.tail = self.head + n;
        }
    }

    fn buffer(&self) -> (r: &[u8]) {
        let r = slice_subrange(self.data.as_slice(), self.head, self.tail);
        proof {
            assert(r@ =~= self.rest().take(r@.len() as int));
        }
        r
    }

    fn consume(&mut self, n: usize) {
        self.head = self.head + n;
        proof {
            assert(self.rest() =~= old(self).rest().skip(n as int));
            assert(self.buffered() =~= old(self).buffered().skip(n as int));
        }
    }
}

/// How many leading bytes `a` and `b` have in common, looking no further than
/// the shorter of the two.
pub fn common_prefix_len(a: &[u8], b: &[u8]) -> (r: usize)
    ensures
        r <= a@.len(),
        r <= b@.len(),
        a@.take(r as int) == b@.take(r as int),
        r < a@.len() && r < b@.len() ==> a@[r as int] != b@[r as int],
{
    let n = if a.len() < b.len() {
        a.len()
    } else {
        b.len()
    };
    let mut i: usize = 0;
    while i < n
        invariant
            i <= n,
            n <= a@.len(),
            n <= b@.len(),
            n == a@.len() || n == b@.len(),
            a@.take(i as int) == b@.take(i as int),
        decreases n - i,
    {
        if a[i] != b[i] {
            return i;
        }
        proof {
            assert(a@.take(i + 1) =~= a@.take(i as int).push(a@[i as int]));
            assert(b@.take(i + 1) =~= b@.take(i as int).push(b@[i as int]));
        }
        i = i + 1;
    }
    i
}

/// Reads a source to its end, discarding what it yields.
pub fn drain<R: ByteRead>(reader: &mut R)
    requires
        old(reader).inv(),
    ensures
        final(reader).inv(),
        final(reader).rest().len() == 0,
{
    loop
        invariant
            reader.inv(),
        decreases reader.rest().len(),
    {
        reader.fill_buf();
        let n = reader.buffer().len();
        if n == 0 {
            return;
        }
        reader.consume(n);
    }
}

} // verus!
