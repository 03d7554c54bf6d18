use vstd::prelude::*;
use vstd::utf8::*;

verus! {

broadcast use {vstd::utf8::encode_utf8_decode_utf8, vstd::utf8::encode_utf8_valid_utf8};

/// The four bytes, most significant first, that store `v`.
pub open spec fn be_bytes(v: i32) -> Seq<u8> {
    let u = v as u32;
    seq![(u >> 24u32) as u8, ((u >> 16u32) & 0xffu32) as u8, ((u >> 8u32) & 0xffu32) as u8, (u & 0xffu32) as u8]
}

/// The integer stored big-endian in the four bytes `b0 b1 b2 b3`.
pub open spec fn be_value(b0: u8, b1: u8, b2: u8, b3: u8) -> i32 {
    (((b0 as u32) << 24u32) | ((b1 as u32) << 16u32) | ((b2 as u32) << 8u32) | (b3 as u32)) as i32
}

/// The integer stored at `offset` of the byte sequence `buf`.
pub open spec fn int_at(buf: Seq<u8>, offset: int) -> i32 {
    be_value(buf[offset], buf[offset + 1], buf[offset + 2], buf[offset + 3])
}

/// `buf` with the bytes starting at `offset` replaced by `val`.
pub open spec fn splice(buf: Seq<u8>, offset: int, val: Seq<u8>) -> Seq<u8> {
    buf.subrange(0, offset) + val + buf.subrange(offset + val.len(), buf.len() as int)
}

/// `buf` after writing the integer `v` at `offset`.
pub open spec fn with_int(buf: Seq<u8>, offset: int, v: i32) -> Seq<u8> {
    splice(buf, offset, be_bytes(v))
}

/// The length-prefixed byte string that starts at `offset` of `buf`.
pub open spec fn bytes_at(buf: Seq<u8>, offset: int) -> Seq<u8> {
    buf.subrange(offset + 4, offset + 4 + int_at(buf, offset))
}

/// Whether a length-prefixed byte string can be read at `offset`.
pub open spec fn bytes_readable(buf: Seq<u8>, offset: int) -> bool {
    &&& 0 <= offset
    &&& offset + 4 <= buf.len()
    &&& 0 <= int_at(buf, offset)
    &&& offset + 4 + int_at(buf, offset) <= buf.len()
}

/// `buf` after writing `val` with its length prefix at `offset`.
pub open spec fn with_bytes(buf: Seq<u8>, offset: int, val: Seq<u8>) -> Seq<u8> {
    splice(buf, offset, be_bytes(val.len() as i32) + val)
}

/// Whether a string can be read at `offset`: its bytes are readable and valid UTF-8.
pub open spec fn string_readable(buf: Seq<u8>, offset: int) -> bool {
    bytes_readable(buf, offset) && valid_utf8(bytes_at(buf, offset))
}

/// The string stored at `offset` of `buf`.
pub open spec fn string_at(buf: Seq<u8>, offset: int) -> Seq<char> {
    decode_utf8(bytes_at(buf, offset))
}

/// Encoding an integer and decoding it gives it back.
pub proof fn lemma_be_roundtrip(v: i32)
    ensures
        be_value(be_bytes(v)[0], be_bytes(v)[1], be_bytes(v)[2], be_bytes(v)[3]) == v,
{
    let u = v as u32;
    let b0 = (u >> 24u32) as u8;
    let b1 = ((u >> 16u32) & 0xffu32) as u8;
    let b2 = ((u >> 8u32) & 0xffu32) as u8;
    let b3 = (u & 0xffu32) as u8;
    assert((((b0 as u32) << 24u32) | ((b1 as u32) << 16u32) | ((b2 as u32) << 8u32) | (b3 as u32))
        == u) by (bit_vector)
        requires
            b0 == (u >> 24u32) as u8,
            b1 == ((u >> 16u32) & 0xffu32) as u8,
            b2 == ((u >> 8u32) & 0xffu32) as u8,
            b3 == (u & 0xffu32) as u8,
    ;
    assert((u as i32) == v) by (bit_vector)
        requires
            u == v as u32,
    ;
}

/// A page reads back, at any offset, the integer last written there.
pub proof fn lemma_int_write_read(buf: Seq<u8>, offset: int, v: i32)
    requires
        0 <= offset,
        offset + 4 <= buf.len(),
    ensures
        with_int(buf, offset, v).len() == buf.len(),
        int_at(with_int(buf, offset, v), offset) == v,
{
    lemma_be_roundtrip(v);
    let nb = with_int(buf, offset, v);
    assert(nb[offset] == be_bytes(v)[0]);
    assert(nb[offset + 1] == be_bytes(v)[1]);
    assert(nb[offset + 2] == be_bytes(v)[2]);
    assert(nb[offset + 3] == be_bytes(v)[3]);
}

/// Writing an integer leaves every byte outside its four bytes unchanged.
pub proof fn lemma_int_write_frame(buf: Seq<u8>, offset: int, v: i32, i: int)
    requires
        0 <= offset,
        offset + 4 <= buf.len(),
        0 <= i < buf.len(),
        i < offset || offset + 4 <= i,
    ensures
        with_int(buf, offset, v)[i] == buf[i],
{
}

/// Writing an integer does not change the integer stored at a disjoint offset.
pub proof fn lemma_int_write_other(buf: Seq<u8>, offset: int, v: i32, other: int)
    requires
        0 <= offset,
        offset + 4 <= buf.len(),
        0 <= other,
        other + 4 <= buf.len(),
        other + 4 <= offset || offset + 4 <= other,
    ensures
        int_at(with_int(buf, offset, v), other) == int_at(buf, other),
{
    let nb = with_int(buf, offset, v);
    assert(nb[other] == buf[other]);
    assert(nb[other + 1] == buf[other + 1]);
    assert(nb[other + 2] == buf[other + 2]);
    assert(nb[other + 3] == buf[other + 3]);
}

/// A page reads back, at any offset, the byte string last written there.
pub proof fn lemma_bytes_write_read(buf: Seq<u8>, offset: int, val: Seq<u8>)
    requires
        0 <= offset,
        offset + 4 + val.len() <= buf.len(),
        val.len() <= i32::MAX,
    ensures
        with_bytes(buf, offset, val).len() == buf.len(),
        bytes_readable(with_bytes(buf, offset, val), offset),
        bytes_at(with_bytes(buf, offset, val), offset) == val,
{
    let nb = with_bytes(buf, offset, val);
    lemma_be_roundtrip(val.len() as i32);
    let bb = be_bytes(val.len() as i32);
    assert(nb[offset] == bb[0]);
    assert(nb[offset + 1] == bb[1]);
    assert(nb[offset + 2] == bb[2]);
    assert(nb[offset + 3] == bb[3]);
    assert(int_at(nb, offset) == val.len());
    assert(bytes_at(nb, offset) =~= val);
}

/// A page reads back, at any offset, the string last written there.
pub proof fn lemma_string_write_read(buf: Seq<u8>, offset: int, s: Seq<char>)
    requires
        0 <= offset,
        offset + 4 + encode_utf8(s).len() <= buf.len(),
        encode_utf8(s).len() <= i32::MAX,
    ensures
        string_readable(with_bytes(buf, offset, encode_utf8(s)), offset),
        string_at(with_bytes(buf, offset, encode_utf8(s)), offset) == s,
{
    lemma_bytes_write_read(buf, offset, encode_utf8(s));
}

/// A block-sized area of memory holding bytes, with typed access at offsets.
pub struct Page {
    buf: Vec<u8>,
}

impl View for Page {
    type V = Seq<u8>;

    closed spec fn view(&self) -> Seq<u8> {
        self.buf@
    }
}

/// Decodes a UTF-8 byte vector into a string, or `None` where it is not UTF-8.
#[verifier::external_body]
fn utf8_to_string(bytes: Vec<u8>) -> (r: Option<String>)
    ensures
        r is Some <==> valid_utf8(bytes@),
        r matches Some(s) ==> s@ == decode_utf8(bytes@),
{
    String::from_utf8(bytes).ok()
}

impl Page {
    /// A page of `size` zero bytes.
    pub fn new(size: usize) -> (p: Self)
        ensures
            p@ == Seq::new(size as nat, |i: int| 0u8),
    {
        let mut buf: Vec<u8> = Vec::new();
        let mut i: usize = 0;
        while i < size
            invariant
                i <= size,
                buf@ == Seq::new(i as nat, |j: int| 0u8),
            decreases size - i,
        {
            buf.push(0u8);
            i = i + 1;
            assert(buf@ =~= Seq::new(i as nat, |j: int| 0u8));
        }
        Page { buf }
    }

    /// A page holding exactly the bytes `b`.
    pub fn from_bytes(b: Vec<u8>) -> (p: Self)
        ensures
            p@ == b@,
    {
        Page { buf: b }
    }

    /// The size of the page in bytes.
    pub fn size(&self) -> (r: usize)
        ensures
            r == self@.len(),
    {
        self.buf.len()
    }

    /// The big-endian integer stored at `offset`.
    pub fn get_int(&self, offset: usize) -> (r: i32)
        requires
            offset + 4 <= self@.len(),
        ensures
            r == int_at(self@, offset as int),
    {
        let _len = self.buf.len();
        let b0 = self.buf[offset];
        let b1 = self.buf[offset + 1];
        let b2 = self.buf[offset + 2];
        let b3 = self.buf[offset + 3];
        let u: u32 = ((b0 as u32) << 24u32) | ((b1 as u32) << 16u32) | ((b2 as u32) << 8u32) | (
        b3 as u32);
        u as i32
    }

    /// Stores `val` big-endian at `offset`.
    pub fn set_int(&mut self, offset: usize, val: i32)
        requires
            offset + 4 <= old(self)@.len(),
        ensures
            final(self)@ == with_int(old(self)@, offset as int, val),
    {
        let _len = self.buf.len();
        let u = val as u32;
        let b0 = (u >> 24u32) as u8;
        let b1 = ((u >> 16u32) & 0xffu32) as u8;
        let b2 = ((u >> 8u32) & 0xffu32) as u8;
        let b3 = (u & 0xffu32) as u8;
        self.buf.set(offset, b0);
        self.buf.set(offset + 1, b1);
        self.buf.set(offset + 2, b2);
        self.buf.set(offset + 3, b3);
        assert(self.buf@ =~= with_int(old(self)@, offset as int, val));
    }

    /// The length-prefixed byte string stored at `offset`.
    pub fn get_bytes(&self, offset: usize) -> (r: Vec<u8>)
        requires
            bytes_readable(self@, offset as int),
        ensures
            r@ == bytes_at(self@, offset as int),
    {
        let _len = self.buf.len();
        let length = self.get_int(offset) as usize;
        let start = offset + 4;
        let end = start + length;
        let mut r: Vec<u8> = Vec::new();
        let mut i = start;
        while i < end
            invariant
                start <= i <= end,
                end <= self.buf@.len(),
                r@ == self.buf@.subrange(start as int, i as int),
            decreases end - i,
        {
            r.push(self.buf[i]);
            i = i + 1;
            assert(r@ =~= self.buf@.subrange(start as int, i as int));
        }
        r
    }

    /// Stores `val` with its length prefix at `offset`; returns the number of bytes written.
    pub fn set_bytes(&mut self, offset: usize, val: &[u8]) -> (n: usize)
        requires
            offset + 4 + val@.len() <= old(self)@.len(),
            val@.len() <= i32::MAX,
        ensures
            final(self)@ == with_bytes(old(self)@, offset as int, val@),
            n == val@.len() + 4,
    {
        let _len = self.buf.len();
        let length = val.len() as i32;
        self.set_int(offset, length);
        proof {
            lemma_be_roundtrip(length);
        }
        let start = offset + 4;
        let ghost mid = self.buf@;
        let mut i: usize = 0;
        while i < val.len()
            invariant
                i <= val@.len(),
                start + val@.len() <= self.buf@.len(),
                self.buf@.len() == mid.len(),
                forall|j: int| 0 <= j < start ==> self.buf@[j] == mid[j],
                forall|j: int| start + val@.len() <= j < mid.len() ==> self.buf@[j] == mid[j],
                forall|j: int| start <= j < start + i ==> self.buf@[j] == val@[j - start],
                start == offset + 4,
                _len == self.buf@.len(),
            decreases val@.len() - i,
        {
            self.buf.set(start + i, val[i]);
            i = i + 1;
        }
        assert(mid =~= with_int(old(self)@, offset as int, length));
        let ghost target = with_bytes(old(self)@, offset as int, val@);
        assert(target.len() == self.buf@.len());
        assert forall|k: int| 0 <= k < target.len() implies self.buf@[k] == target[k] by {
            let bv = be_bytes(length) + val@;
            assert(length as int == val@.len());
            if k < offset {
                assert(self.buf@[k] == mid[k]);
            } else if k < offset + 4 {
                assert(self.buf@[k] == mid[k]);
                assert(mid[k] == be_bytes(length)[k - offset]);
                assert(bv[k - offset] == be_bytes(length)[k - offset]);
            } else if k < offset + 4 + val@.len() {
                assert(bv[k - offset] == val@[k - offset - 4]);
            } else {
                assert(self.buf@[k] == mid[k]);
            }
        }
        assert(self.buf@ =~= target);
        val.len() + 4
    }

    /// The string stored at `offset`.
    pub fn get_string(&self, offset: usize) -> (r: String)
        requires
            string_readable(self@, offset as int),
        ensures
            r@ == string_at(self@, offset as int),
    {
        let bytes = self.get_bytes(offset);
        match utf8_to_string(bytes) {
            Some(s) => s,
            None => {
                assert(false);
                String::new()
            },
        }
    }

    /// Stores the UTF-8 bytes of `val` with their length prefix at `offset`;
    /// returns the number of bytes written.
    pub fn set_string(&mut self, offset: usize, val: &str) -> (n: usize)
        requires
            offset + 4 + encode_utf8(val@).len() <= old(self)@.len(),
            encode_utf8(val@).len() <= i32::MAX,
        ensures
            final(self)@ == with_bytes(old(self)@, offset as int, encode_utf8(val@)),
            n == encode_utf8(val@).len() + 4,
    {
        self.set_bytes(offset, val.as_bytes())
    }

    /// The whole contents of the page, for writing back.
    pub fn contents_mut(&mut self) -> (r: &mut Vec<u8>)
        ensures
            r@ == old(self)@,
            final(self)@ == final(r)@,
    {
        &mut self.buf
    }

    /// The whole contents of the page.
    pub fn contents(&self) -> (r: &[u8])
        ensures
            r@ == self@,
    {
        self.buf.as_slice()
    }

    /// The number of bytes a page needs to store the string `s`.
    pub fn max_length(s: &str) -> (r: usize)
        requires
            encode_utf8(s@).len() + 4 <= usize::MAX,
        ensures
            r == encode_utf8(s@).len() + 4,
    {
        4 + s.len()
    }

    /// The most bytes a string of `char_cnt` characters can need in a page:
    /// a UTF-8 character takes at most four bytes.
    pub fn max_length_in_page(char_cnt: usize) -> (r: usize)
        requires
            4 + 4 * char_cnt <= usize::MAX,
        ensures
            r == 4 + 4 * char_cnt,
    {
        let utf8max_per_char: usize = 4;
        4 + char_cnt * utf8max_per_char
    }
}

} // verus!
