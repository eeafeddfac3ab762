//! Framed I/O primitives: big-endian integers and length-prefixed UTF-8 strings.
use vstd::prelude::*;
use vstd::utf8::{decode_utf8, encode_utf8, valid_utf8};

verus! {

/// Why a frame could not be read or written.
#[derive(Clone, Copy, Debug, PartialEq, Eq, Structural)]
pub enum WireError {
    /// The input ended before the frame did.
    Truncated,
    /// A string's bytes are not valid UTF-8.
    BadUtf8,
    /// A length does not fit the field that carries it.
    TooLong,
    /// A length field holds a negative value.
    NegativeLength,
}

/// Two bytes, most significant first.
pub open spec fn be_u16(v: u16) -> Seq<u8> {
    seq![(v >> 8u16) as u8, v as u8]
}

/// Four bytes, most significant first.
pub open spec fn be_u32(v: u32) -> Seq<u8> {
    seq![(v >> 24u32) as u8, (v >> 16u32) as u8, (v >> 8u32) as u8, v as u8]
}

/// Eight bytes, most significant first.
pub open spec fn be_u64(v: u64) -> Seq<u8> {
    seq![
        (v >> 56u64) as u8,
        (v >> 48u64) as u8,
        (v >> 40u64) as u8,
        (v >> 32u64) as u8,
        (v >> 24u64) as u8,
        (v >> 16u64) as u8,
        (v >> 8u64) as u8,
        v as u8,
    ]
}

/// A signed 16-bit integer in two's complement, big-endian.
pub open spec fn enc_i16(v: i16) -> Seq<u8> {
    be_u16(v as u16)
}

/// A signed 32-bit integer in two's complement, big-endian.
pub open spec fn enc_i32(v: i32) -> Seq<u8> {
    be_u32(v as u32)
}

/// A signed 64-bit integer in two's complement, big-endian.
pub open spec fn enc_i64(v: i64) -> Seq<u8> {
    be_u64(v as u64)
}

/// A string fits its frame when its UTF-8 bytes fit an unsigned 16-bit length.
pub open spec fn string_fits(s: Seq<char>) -> bool {
    encode_utf8(s).len() <= 0xffff
}

/// A string's frame: its UTF-8 byte count as an unsigned 16-bit integer, then those bytes.
pub open spec fn enc_string(s: Seq<char>) -> Seq<u8> {
    be_u16(encode_utf8(s).len() as u16) + encode_utf8(s)
}

/// `p` stands in `data` from `pos` on.
pub open spec fn has_prefix(data: Seq<u8>, pos: int, p: Seq<u8>) -> bool {
    0 <= pos && pos + p.len() <= data.len() && data.subrange(pos, pos + p.len()) == p
}

/// A frame made of two parts holds each part in turn.
pub proof fn lemma_prefix_split(data: Seq<u8>, pos: int, a: Seq<u8>, b: Seq<u8>)
    ensures
        has_prefix(data, pos, a + b) <==> (has_prefix(data, pos, a) && has_prefix(
            data,
            pos + a.len(),
            b,
        )),
{
    if has_prefix(data, pos, a + b) {
        let s = data.subrange(pos, pos + a.len() + b.len());
        assert(s == a + b);
        assert(data.subrange(pos, pos + a.len()) =~= a) by {
            assert forall|i| 0 <= i < a.len() implies data.subrange(pos, pos + a.len())[i]
                == a[i] by {
                assert(s[i] == (a + b)[i]);
            }
        }
        assert(data.subrange(pos + a.len(), pos + a.len() + b.len()) =~= b) by {
            assert forall|i| 0 <= i < b.len() implies data.subrange(
                pos + a.len(),
                pos + a.len() + b.len(),
            )[i] == b[i] by {
                assert(s[i + a.len()] == (a + b)[i + a.len()]);
            }
        }
    }
    if has_prefix(data, pos, a) && has_prefix(data, pos + a.len(), b) {
        let s = data.subrange(pos, pos + a.len() + b.len());
        assert forall|i| 0 <= i < s.len() implies s[i] == (a + b)[i] by {
            if i < a.len() {
                assert(data.subrange(pos, pos + a.len())[i] == a[i]);
            } else {
                assert(data.subrange(pos + a.len(), pos + a.len() + b.len())[i - a.len()] == b[i
                    - a.len()]);
            }
        }
        assert(s =~= a + b);
    }
}

proof fn lemma_u16_bytes(v: u16, b0: u8, b1: u8)
    ensures
        ((((b0 as u16) << 8u16) | (b1 as u16)) == v) <==> (b0 == (v >> 8u16) as u8 && b1
            == v as u8),
{
    assert(((((b0 as u16) << 8u16) | (b1 as u16)) == v) <==> (b0 == (v >> 8u16) as u8 && b1
        == v as u8)) by (bit_vector);
}

proof fn lemma_u32_bytes(v: u32, b0: u8, b1: u8, b2: u8, b3: u8)
    ensures
        ((((b0 as u32) << 24u32) | ((b1 as u32) << 16u32) | ((b2 as u32) << 8u32) | (b3 as u32))
            == v) <==> (b0 == (v >> 24u32) as u8 && b1 == (v >> 16u32) as u8 && b2 == (v
            >> 8u32) as u8 && b3 == v as u8),
{
    assert(((((b0 as u32) << 24u32) | ((b1 as u32) << 16u32) | ((b2 as u32) << 8u32) | (
    b3 as u32)) == v) <==> (b0 == (v >> 24u32) as u8 && b1 == (v >> 16u32) as u8 && b2 == (v
        >> 8u32) as u8 && b3 == v as u8)) by (bit_vector);
}

proof fn lemma_u64_bytes(v: u64, b: Seq<u8>)
    requires
        b.len() == 8,
    ensures
        ((((b[0] as u64) << 56u64) | ((b[1] as u64) << 48u64) | ((b[2] as u64) << 40u64) | ((
        b[3] as u64) << 32u64) | ((b[4] as u64) << 24u64) | ((b[5] as u64) << 16u64) | ((
        b[6] as u64) << 8u64) | (b[7] as u64)) == v) <==> b == be_u64(v),
{
    let (b0, b1, b2, b3, b4, b5, b6, b7) = (b[0], b[1], b[2], b[3], b[4], b[5], b[6], b[7]);
    assert(((((b0 as u64) << 56u64) | ((b1 as u64) << 48u64) | ((b2 as u64) << 40u64) | ((
    b3 as u64) << 32u64) | ((b4 as u64) << 24u64) | ((b5 as u64) << 16u64) | ((b6 as u64)
        << 8u64) | (b7 as u64)) == v) <==> (b0 == (v >> 56u64) as u8 && b1 == (v >> 48u64) as u8
        && b2 == (v >> 40u64) as u8 && b3 == (v >> 32u64) as u8 && b4 == (v >> 24u64) as u8
        && b5 == (v >> 16u64) as u8 && b6 == (v >> 8u64) as u8 && b7 == v as u8))
        by (bit_vector);
    if b == be_u64(v) {
    }
    if b0 == (v >> 56u64) as u8 && b1 == (v >> 48u64) as u8 && b2 == (v >> 40u64) as u8 && b3
        == (v >> 32u64) as u8 && b4 == (v >> 24u64) as u8 && b5 == (v >> 16u64) as u8 && b6 == (v
        >> 8u64) as u8 && b7 == v as u8 {
        assert(b =~= be_u64(v));
    }
}

proof fn lemma_casts_16(u: u16, i: i16)
    ensures
        (u as i16 == i) <==> (i as u16 == u),
{
    assert((u as i16 == i) <==> (i as u16 == u)) by (bit_vector);
}

proof fn lemma_casts_32(u: u32, i: i32)
    ensures
        (u as i32 == i) <==> (i as u32 == u),
{
    assert((u as i32 == i) <==> (i as u32 == u)) by (bit_vector);
}

proof fn lemma_casts_64(u: u64, i: i64)
    ensures
        (u as i64 == i) <==> (i as u64 == u),
{
    assert((u as i64 == i) <==> (i as u64 == u)) by (bit_vector);
}

/// Relies on `String::from_utf8`: it succeeds exactly on valid UTF-8, and the
/// string it returns holds those bytes.
#[verifier::external_body]
pub(crate) fn string_from_utf8(bytes: Vec<u8>) -> (r: Option<String>)
    ensures
        r is Some <==> valid_utf8(bytes@),
        r matches Some(s) ==> s@ == decode_utf8(bytes@),
{
    String::from_utf8(bytes).ok()
}

/// A cursor over bytes that have been received in full.
pub struct ByteReader {
    pub buf: Vec<u8>,
    pub pos: usize,
}

impl ByteReader {
    pub open spec fn wf(&self) -> bool {
        self.pos <= self.buf.len()
    }

    /// The bytes not read yet.
    pub open spec fn rest(&self) -> Seq<u8> {
        self.buf@.subrange(self.pos as int, self.buf@.len() as int)
    }

    pub fn new(buf: Vec<u8>) -> (r: ByteReader)
        ensures
            r.wf(),
            r.buf@ == buf@,
            r.pos == 0,
    {
        ByteReader { buf, pos: 0 }
    }

    /// Whether every byte has been read.
    pub fn at_end(&self) -> (r: bool)
        requires
            self.wf(),
        ensures
            r == (self.pos == self.buf.len()),
    {
        self.pos == self.buf.len()
    }

    /// Reads `n` raw bytes.
    pub fn read_bytes(&mut self, n: usize) -> (r: Result<Vec<u8>, WireError>)
        requires
            old(self).wf(),
        ensures
            final(self).wf(),
            final(self).buf@ == old(self).buf@,
            match r {
                Ok(v) => v@.len() == n && has_prefix(old(self).buf@, old(self).pos as int, v@)
                    && final(self).pos == old(self).pos + n,
                Err(e) => e == WireError::Truncated && old(self).pos + n > old(self).buf.len()
                    && final(self).pos == old(self).pos,
            },
            old(self).pos + n <= old(self).buf.len() ==> r is Ok,
    {
        if n > self.buf.len() - self.pos {
            return Err(WireError::Truncated);
        }
        let mut v: Vec<u8> = Vec::with_capacity(n);
        let start = self.pos;
        let mut i: usize = 0;
        while i < n
            invariant
                self.wf(),
                self.pos == start,
                start + n <= self.buf.len(),
                i <= n,
                v@ == self.buf@.subrange(start as int, start + i),
            decreases n - i,
        {
            v.push(self.buf[start + i]);
            i = i + 1;
            assert(v@ =~= self.buf@.subrange(start as int, start + i));
        }
        self.pos = start + n;
        Ok(v)
    }

    pub fn read_u8(&mut self) -> (r: Result<u8, WireError>)
        requires
            old(self).wf(),
        ensures
            final(self).wf(),
            final(self).buf@ == old(self).buf@,
            match r {
                Ok(v) => has_prefix(old(self).buf@, old(self).pos as int, seq![v])
                    && final(self).pos == old(self).pos + 1,
                Err(e) => e == WireError::Truncated && old(self).pos + 1 > old(self).buf.len(),
            },
            old(self).pos + 1 <= old(self).buf.len() ==> r is Ok,
    {
        if self.pos >= self.buf.len() {
            return Err(WireError::Truncated);
        }
        let b = self.buf[self.pos];
        self.pos = self.pos + 1;
        proof {
            assert(old(self).buf@.subrange(old(self).pos as int, old(self).pos + 1) =~= seq![b]);
        }
        Ok(b)
    }

    pub fn read_u16(&mut self) -> (r: Result<u16, WireError>)
        requires
            old(self).wf(),
        ensures
            final(self).wf(),
            final(self).buf@ == old(self).buf@,
            match r {
                Ok(v) => has_prefix(old(self).buf@, old(self).pos as int, be_u16(v))
                    && final(self).pos == old(self).pos + 2,
                Err(e) => e == WireError::Truncated && old(self).pos + 2 > old(self).buf.len(),
            },
            forall|x: u16| #[trigger]
                has_prefix(old(self).buf@, old(self).pos as int, be_u16(x)) ==> r == Ok::<
                    u16,
                    WireError,
                >(x),
    {
        if self.buf.len() - self.pos < 2 {
            return Err(WireError::Truncated);
        }
        let p = self.pos;
        let b0 = self.buf[p];
        let b1 = self.buf[p + 1];
        let v: u16 = ((b0 as u16) << 8u16) | (b1 as u16);
        self.pos = p + 2;
        proof {
            let data = self.buf@;
            lemma_u16_bytes(v, b0, b1);
            assert(data.subrange(p as int, p + 2) =~= be_u16(v));
            assert forall|x: u16| #[trigger] has_prefix(data, p as int, be_u16(x)) implies v
                == x by {
                assert(data.subrange(p as int, p + 2)[0] == b0);
                assert(data.subrange(p as int, p + 2)[1] == b1);
                lemma_u16_bytes(x, b0, b1);
            }
        }
        Ok(v)
    }

    pub fn read_i16(&mut self) -> (r: Result<i16, WireError>)
        requires
            old(self).wf(),
        ensures
            final(self).wf(),
            final(self).buf@ == old(self).buf@,
            match r {
                Ok(v) => has_prefix(old(self).buf@, old(self).pos as int, enc_i16(v))
                    && final(self).pos == old(self).pos + 2,
                Err(e) => e == WireError::Truncated && old(self).pos + 2 > old(self).buf.len(),
            },
            forall|x: i16| #[trigger]
                has_prefix(old(self).buf@, old(self).pos as int, enc_i16(x)) ==> r == Ok::<
                    i16,
                    WireError,
                >(x),
    {
        let u = self.read_u16()?;
        proof {
            lemma_casts_16(u, u as i16);
            assert forall|x: i16| #[trigger]
                has_prefix(old(self).buf@, old(self).pos as int, enc_i16(x)) implies u as i16
                == x by {
                lemma_casts_16(u, x);
            }
        }
        Ok(u as i16)
    }

    pub fn read_u32(&mut self) -> (r: Result<u32, WireError>)
        requires
            old(self).wf(),
        ensures
            final(self).wf(),
            final(self).buf@ == old(self).buf@,
            match r {
                Ok(v) => has_prefix(old(self).buf@, old(self).pos as int, be_u32(v))
                    && final(self).pos == old(self).pos + 4,
                Err(e) => e == WireError::Truncated && old(self).pos + 4 > old(self).buf.len(),
            },
            forall|x: u32| #[trigger]
                has_prefix(old(self).buf@, old(self).pos as int, be_u32(x)) ==> r == Ok::<
                    u32,
                    WireError,
                >(x),
    {
        if self.buf.len() - self.pos < 4 {
            return Err(WireError::Truncated);
        }
        let p = self.pos;
        let b0 = self.buf[p];
        let b1 = self.buf[p + 1];
        let b2 = self.buf[p + 2];
        let b3 = self.buf[p + 3];
        let v: u32 = ((b0 as u32) << 24u32) | ((b1 as u32) << 16u32) | ((b2 as u32) << 8u32) | (
        b3 as u32);
        self.pos = p + 4;
        proof {
            let data = self.buf@;
            lemma_u32_bytes(v, b0, b1, b2, b3);
            assert(data.subrange(p as int, p + 4) =~= be_u32(v));
            assert forall|x: u32| #[trigger] has_prefix(data, p as int, be_u32(x)) implies v
                == x by {
                let s = data.subrange(p as int, p + 4);
                assert(s[0] == b0 && s[1] == b1 && s[2] == b2 && s[3] == b3);
                lemma_u32_bytes(x, b0, b1, b2, b3);
            }
        }
        Ok(v)
    }

    pub fn read_i32(&mut self) -> (r: Result<i32, WireError>)
        requires
            old(self).wf(),
        ensures
            final(self).wf(),
            final(self).buf@ == old(self).buf@,
            match r {
                Ok(v) => has_prefix(old(self).buf@, old(self).pos as int, enc_i32(v))
                    && final(self).pos == old(self).pos + 4,
                Err(e) => e == WireError::Truncated && old(self).pos + 4 > old(self).buf.len(),
            },
            forall|x: i32| #[trigger]
                has_prefix(old(self).buf@, old(self).pos as int, enc_i32(x)) ==> r == Ok::<
                    i32,
                    WireError,
                >(x),
    {
        let u = self.read_u32()?;
        proof {
            lemma_casts_32(u, u as i32);
            assert forall|x: i32| #[trigger]
                has_prefix(old(self).buf@, old(self).pos as int, enc_i32(x)) implies u as i32
                == x by {
                lemma_casts_32(u, x);
            }
        }
        Ok(u as i32)
    }

    pub fn read_u64(&mut self) -> (r: Result<u64, WireError>)
        requires
            old(self).wf(),
        ensures
            final(self).wf(),
            final(self).buf@ == old(self).buf@,
            match r {
                Ok(v) => has_prefix(old(self).buf@, old(self).pos as int, be_u64(v))
                    && final(self).pos == old(self).pos + 8,
                Err(e) => e == WireError::Truncated && old(self).pos + 8 > old(self).buf.len(),
            },
            forall|x: u64| #[trigger]
                has_prefix(old(self).buf@, old(self).pos as int, be_u64(x)) ==> r == Ok::<
                    u64,
                    WireError,
                >(x),
    {
        if self.buf.len() - self.pos < 8 {
            return Err(WireError::Truncated);
        }
        let p = self.pos;
        let v: u64 = ((self.buf[p] as u64) << 56u64) | ((self.buf[p + 1] as u64) << 48u64) | ((
        self.buf[p + 2] as u64) << 40u64) | ((self.buf[p + 3] as u64) << 32u64) | ((self.buf[p
            + 4] as u64) << 24u64) | ((self.buf[p + 5] as u64) << 16u64) | ((self.buf[p + 6] as u64)
            << 8u64) | (self.buf[p + 7] as u64);
        self.pos = p + 8;
        proof {
            let data = self.buf@;
            let s = data.subrange(p as int, p + 8);
            lemma_u64_bytes(v, s);
            assert forall|x: u64| #[trigger] has_prefix(data, p as int, be_u64(x)) implies v
                == x by {
                lemma_u64_bytes(x, s);
            }
        }
        Ok(v)
    }
    pub fn read_i64(&mut self) -> (r: Result<i64, WireError>)
        requires
            old(self).wf(),
        ensures
            final(self).wf(),
            final(self).buf@ == old(self).buf@,
            match r {
                Ok(v) => has_prefix(old(self).buf@, old(self).pos as int, enc_i64(v))
                    && final(self).pos == old(self).pos + 8,
                Err(e) => e == WireError::Truncated && old(self).pos + 8 > old(self).buf.len(),
            },
            forall|x: i64| #[trigger]
                has_prefix(old(self).buf@, old(self).pos as int, enc_i64(x)) ==> r == Ok::<
                    i64,
                    WireError,
                >(x),
    {
        let u = self.read_u64()?;
        proof {
            lemma_casts_64(u, u as i64);
            assert forall|x: i64| #[trigger]
                has_prefix(old(self).buf@, old(self).pos as int, enc_i64(x)) implies u as i64
                == x by {
                lemma_casts_64(u, x);
            }
        }
        Ok(u as i64)
    }

}

/// Reads a length-prefixed UTF-8 string.
pub fn read_string(r: &mut ByteReader) -> (res: Result<String, WireError>)
    requires
        old(r).wf(),
    ensures
        final(r).wf(),
        final(r).buf@ == old(r).buf@,
        match res {
            Ok(s) => has_prefix(old(r).buf@, old(r).pos as int, enc_string(s@))
                && final(r).pos == old(r).pos + enc_string(s@).len() && string_fits(s@),
            Err(e) => e == WireError::Truncated || e == WireError::BadUtf8,
        },
        forall|x: Seq<char>|
            string_fits(x) && #[trigger] has_prefix(
                old(r).buf@,
                old(r).pos as int,
                enc_string(x),
            ) ==> (res matches Ok(s) && s@ == x),
{
    let start = r.pos;
    let ghost data = r.buf@;
    let n = match r.read_u16() {
        Ok(n) => n,
        Err(e) => {
            proof {
                assert forall|x: Seq<char>|
                    string_fits(x) && #[trigger] has_prefix(
                        data,
                        start as int,
                        enc_string(x),
                    ) implies false by {
                    let e = encode_utf8(x);
                    lemma_prefix_split(data, start as int, be_u16(e.len() as u16), e);
                }
            }
            return Err(e);
        },
    };
    let bytes = match r.read_bytes(n as usize) {
        Ok(b) => b,
        Err(e) => {
            proof {
                assert forall|x: Seq<char>|
                    string_fits(x) && #[trigger] has_prefix(
                        data,
                        start as int,
                        enc_string(x),
                    ) implies false by {
                    let e = encode_utf8(x);
                    lemma_prefix_split(data, start as int, be_u16(e.len() as u16), e);
                }
            }
            return Err(e);
        },
    };
    let ghost raw = bytes@;
    proof {
        lemma_prefix_split(data, start as int, be_u16(n), raw);
        assert forall|x: Seq<char>|
            string_fits(x) && #[trigger] has_prefix(data, start as int, enc_string(x)) implies
            encode_utf8(x) == raw by {
            let e = encode_utf8(x);
            lemma_prefix_split(data, start as int, be_u16(e.len() as u16), e);
            assert(e.len() as u16 == n);
        }
    }
    match string_from_utf8(bytes) {
        Some(s) => {
            proof {
                vstd::utf8::decode_utf8_encode_utf8(raw);
                assert(enc_string(s@) == be_u16(n) + raw);
                assert forall|x: Seq<char>|
                    string_fits(x) && #[trigger] has_prefix(
                        data,
                        start as int,
                        enc_string(x),
                    ) implies s@ == x by {
                    vstd::utf8::encode_utf8_decode_utf8(x);
                }
            }
            Ok(s)
        },
        None => {
            proof {
                assert forall|x: Seq<char>|
                    string_fits(x) && #[trigger] has_prefix(
                        data,
                        start as int,
                        enc_string(x),
                    ) implies false by {
                    vstd::utf8::encode_utf8_valid_utf8(x);
                }
            }
            Err(WireError::BadUtf8)
        },
    }
}

/// The frame of a string that fits is at most 65537 bytes long.
pub proof fn lemma_string_len_bound(s: Seq<char>)
    requires
        string_fits(s),
    ensures
        enc_string(s).len() <= 0x10001,
{
}

/// Appends two bytes, most significant first.
pub fn write_u16(w: &mut Vec<u8>, v: u16)
    ensures
        final(w)@ == old(w)@ + be_u16(v),
{
    w.push((v >> 8u16) as u8);
    w.push(v as u8);
    assert(w@ =~= old(w)@ + be_u16(v));
}

/// Appends a signed 16-bit integer.
pub fn write_i16(w: &mut Vec<u8>, v: i16)
    ensures
        final(w)@ == old(w)@ + enc_i16(v),
{
    write_u16(w, v as u16);
}

/// Appends a signed 32-bit integer.
pub fn write_i32(w: &mut Vec<u8>, v: i32)
    ensures
        final(w)@ == old(w)@ + enc_i32(v),
{
    let u = v as u32;
    w.push((u >> 24u32) as u8);
    w.push((u >> 16u32) as u8);
    w.push((u >> 8u32) as u8);
    w.push(u as u8);
    assert(w@ =~= old(w)@ + enc_i32(v));
}

/// Appends a signed 64-bit integer.
pub fn write_i64(w: &mut Vec<u8>, v: i64)
    ensures
        final(w)@ == old(w)@ + enc_i64(v),
{
    let u = v as u64;
    w.push((u >> 56u64) as u8);
    w.push((u >> 48u64) as u8);
    w.push((u >> 40u64) as u8);
    w.push((u >> 32u64) as u8);
    w.push((u >> 24u64) as u8);
    w.push((u >> 16u64) as u8);
    w.push((u >> 8u64) as u8);
    w.push(u as u8);
    assert(w@ =~= old(w)@ + enc_i64(v));
}

/// Appends raw bytes.
pub fn write_bytes(w: &mut Vec<u8>, b: &[u8])
    ensures
        final(w)@ == old(w)@ + b@,
{
    let mut i: usize = 0;
    while i < b.len()
        invariant
            i <= b@.len(),
            w@ == old(w)@ + b@.subrange(0, i as int),
        decreases b@.len() - i,
    {
        w.push(b[i]);
        i = i + 1;
        assert(w@ =~= old(w)@ + b@.subrange(0, i as int));
    }
    assert(b@.subrange(0, b@.len() as int) =~= b@);
}

/// Appends a length-prefixed UTF-8 string; a string of more than 65535 bytes
/// is refused and nothing is written.
pub fn write_string(w: &mut Vec<u8>, s: &str) -> (r: Result<(), WireError>)
    ensures
        r is Ok <==> string_fits(s@),
        r is Ok ==> final(w)@ == old(w)@ + enc_string(s@),
        r matches Err(e) ==> e == WireError::TooLong && final(w)@ == old(w)@,
{
    let b = s.as_bytes();
    if b.len() > 0xffff {
        return Err(WireError::TooLong);
    }
    write_u16(w, b.len() as u16);
    write_bytes(w, b);
    assert(w@ =~= old(w)@ + enc_string(s@));
    Ok(())
}

} // verus!
