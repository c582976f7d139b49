//! Frames and their wire format, stated as mathematical functions on byte
//! sequences.
//!
//! Every frame starts with a one-byte tag:
//!
//! - `+` simple text: 4-byte big-endian byte length, then UTF-8 text
//! - `-` error text: 4-byte big-endian byte length, then UTF-8 text
//! - `$` bulk bytes: 4-byte big-endian length, then the raw bytes
//! - `_` null: nothing follows
//! - `*` aggregate: 4-byte big-endian element count, then that many bulk frames
use vstd::prelude::*;
use vstd::utf8::*;

verus! {

pub const TAG_SIMPLE: u8 = 0x2b;

pub const TAG_ERROR: u8 = 0x2d;

pub const TAG_BULK: u8 = 0x24;

pub const TAG_NULL: u8 = 0x5f;

pub const TAG_ARRAY: u8 = 0x2a;

/// The largest length a 4-byte prefix can carry.
pub const MAX_LEN: u32 = 0xffff_ffff;

/// One protocol message unit.
#[derive(Clone, Debug, PartialEq, Eq)]
pub enum Frame {
    Simple(String),
    Error(String),
    Bulk(Vec<u8>),
    Null,
    /// An aggregate of bulk payloads: how command requests travel.
    Array(Vec<Vec<u8>>),
}

/// The mathematical content of a frame.
pub enum FrameView {
    Simple(Seq<char>),
    Error(Seq<char>),
    Bulk(Seq<u8>),
    Null,
    Array(Seq<Seq<u8>>),
}

/// Why a byte stream cannot be read as frames, whatever bytes follow.
#[derive(PartialEq, Eq, Structural, Clone, Copy, Debug)]
pub enum FrameDecodeError {
    /// The first byte of a frame is no known tag.
    UnknownTag(u8),
    /// An element of an aggregate is not a bulk frame.
    BadElementTag(u8),
    /// The payload of a text frame is not valid UTF-8.
    InvalidText,
}

/// The outcome of reading something from the front of a byte sequence:
/// more bytes are needed, the bytes can never form it, or it was read and
/// ends at the given position.
pub enum Parsed<T> {
    Incomplete,
    Invalid(FrameDecodeError),
    Done(T, int),
}

pub open spec fn bytes_of_items(items: Vec<Vec<u8>>) -> Seq<Seq<u8>> {
    items@.map_values(|b: Vec<u8>| b@)
}

impl View for Frame {
    type V = FrameView;

    open spec fn view(&self) -> FrameView {
        match self {
            Frame::Simple(s) => FrameView::Simple(s@),
            Frame::Error(s) => FrameView::Error(s@),
            Frame::Bulk(b) => FrameView::Bulk(b@),
            Frame::Null => FrameView::Null,
            Frame::Array(items) => FrameView::Array(bytes_of_items(*items)),
        }
    }
}

pub open spec fn fits_len(n: int) -> bool {
    n <= MAX_LEN as int
}

impl FrameView {
    /// Every length in the frame fits its 4-byte prefix.
    pub open spec fn wf(self) -> bool {
        match self {
            FrameView::Simple(t) => fits_len(encode_utf8(t).len() as int),
            FrameView::Error(t) => fits_len(encode_utf8(t).len() as int),
            FrameView::Bulk(b) => fits_len(b.len() as int),
            FrameView::Null => true,
            FrameView::Array(items) => fits_len(items.len() as int) && forall|i: int|
                0 <= i < items.len() ==> fits_len(#[trigger] items[i].len() as int),
        }
    }
}

// ---------------------------------------------------------------------------
// Encoding
pub open spec fn be32(n: u32) -> Seq<u8> {
    seq![(n >> 24u32) as u8, (n >> 16u32) as u8, (n >> 8u32) as u8, n as u8]
}

pub open spec fn be32_value(b0: u8, b1: u8, b2: u8, b3: u8) -> u32 {
    ((b0 as u32) << 24u32) | ((b1 as u32) << 16u32) | ((b2 as u32) << 8u32) | (b3 as u32)
}

/// A length prefix followed by the bytes it counts.
pub open spec fn enc_chunk(b: Seq<u8>) -> Seq<u8> {
    be32(b.len() as u32) + b
}

pub open spec fn enc_bulk(b: Seq<u8>) -> Seq<u8> {
    seq![TAG_BULK] + enc_chunk(b)
}

pub open spec fn enc_items(items: Seq<Seq<u8>>) -> Seq<u8>
    decreases items.len(),
{
    if items.len() == 0 {
        seq![]
    } else {
        enc_items(items.drop_last()) + enc_bulk(items.last())
    }
}

/// The bytes that stand for a frame on the wire.
pub open spec fn encode_spec(f: FrameView) -> Seq<u8> {
    match f {
        FrameView::Simple(t) => seq![TAG_SIMPLE] + enc_chunk(encode_utf8(t)),
        FrameView::Error(t) => seq![TAG_ERROR] + enc_chunk(encode_utf8(t)),
        FrameView::Bulk(b) => enc_bulk(b),
        FrameView::Null => seq![TAG_NULL],
        FrameView::Array(items) => seq![TAG_ARRAY] + be32(items.len() as u32) + enc_items(items),
    }
}

// ---------------------------------------------------------------------------
// Decoding
pub open spec fn read_len(s: Seq<u8>, p: int) -> int {
    be32_value(s[p], s[p + 1], s[p + 2], s[p + 3]) as int
}

/// A length-prefixed payload starting at `p`: `None` while bytes are missing.
pub open spec fn chunk_at(s: Seq<u8>, p: int) -> Option<(Seq<u8>, int)> {
    if s.len() < p + 4 {
        None
    } else if s.len() < p + 4 + read_len(s, p) {
        None
    } else {
        Some((s.subrange(p + 4, p + 4 + read_len(s, p)), p + 4 + read_len(s, p)))
    }
}

/// One bulk frame starting at `p`, as an element of an aggregate.
pub open spec fn bulk_at(s: Seq<u8>, p: int) -> Parsed<Seq<u8>> {
    if s.len() <= p {
        Parsed::Incomplete
    } else if s[p] != TAG_BULK {
        Parsed::Invalid(FrameDecodeError::BadElementTag(s[p]))
    } else {
        match chunk_at(s, p + 1) {
            None => Parsed::Incomplete,
            Some((b, e)) => Parsed::Done(b, e),
        }
    }
}

/// `k` bulk frames one after the other, starting at `p`.
pub open spec fn items_at(s: Seq<u8>, p: int, k: nat) -> Parsed<Seq<Seq<u8>>>
    decreases k,
{
    if k == 0 {
        Parsed::Done(seq![], p)
    } else {
        match items_at(s, p, (k - 1) as nat) {
            Parsed::Done(items, q) => match bulk_at(s, q) {
                Parsed::Done(b, e) => Parsed::Done(items.push(b), e),
                Parsed::Incomplete => Parsed::Incomplete,
                Parsed::Invalid(x) => Parsed::Invalid(x),
            },
            Parsed::Incomplete => Parsed::Incomplete,
            Parsed::Invalid(x) => Parsed::Invalid(x),
        }
    }
}

pub open spec fn text_frame(tag: u8, t: Seq<char>) -> FrameView {
    if tag == TAG_SIMPLE {
        FrameView::Simple(t)
    } else {
        FrameView::Error(t)
    }
}

/// What the frame at the front of `s` is, and where it ends.
pub open spec fn decode_spec(s: Seq<u8>) -> Parsed<FrameView> {
    if s.len() == 0 {
        Parsed::Incomplete
    } else if s[0] == TAG_NULL {
        Parsed::Done(FrameView::Null, 1)
    } else if s[0] == TAG_SIMPLE || s[0] == TAG_ERROR {
        match chunk_at(s, 1) {
            None => Parsed::Incomplete,
            Some((b, e)) => if valid_utf8(b) {
                Parsed::Done(text_frame(s[0], decode_utf8(b)), e)
            } else {
                Parsed::Invalid(FrameDecodeError::InvalidText)
            },
        }
    } else if s[0] == TAG_BULK {
        match chunk_at(s, 1) {
            None => Parsed::Incomplete,
            Some((b, e)) => Parsed::Done(FrameView::Bulk(b), e),
        }
    } else if s[0] == TAG_ARRAY {
        if s.len() < 5 {
            Parsed::Incomplete
        } else {
            match items_at(s, 5, read_len(s, 1) as nat) {
                Parsed::Done(items, e) => Parsed::Done(FrameView::Array(items), e),
                Parsed::Incomplete => Parsed::Incomplete,
                Parsed::Invalid(x) => Parsed::Invalid(x),
            }
        }
    } else {
        Parsed::Invalid(FrameDecodeError::UnknownTag(s[0]))
    }
}

// ---------------------------------------------------------------------------
// Proofs
proof fn lemma_be32(n: u32)
    ensures
        be32_value((n >> 24u32) as u8, (n >> 16u32) as u8, (n >> 8u32) as u8, n as u8) == n,
{
    assert(((((n >> 24u32) as u8) as u32) << 24u32) | ((((n >> 16u32) as u8) as u32) << 16u32)
        | ((((n >> 8u32) as u8) as u32) << 8u32) | ((n as u8) as u32) == n) by (bit_vector);
}

proof fn lemma_chunk_enc(s: Seq<u8>, p: int, b: Seq<u8>)
    requires
        0 <= p,
        fits_len(b.len() as int),
        p + 4 + b.len() <= s.len(),
        s.subrange(p, p + 4 + b.len()) == enc_chunk(b),
    ensures
        chunk_at(s, p) == Some((b, p + 4 + b.len())),
{
    let e = enc_chunk(b);
    assert(s[p] == e[0] && s[p + 1] == e[1] && s[p + 2] == e[2] && s[p + 3] == e[3]) by {
        assert(s.subrange(p, p + 4 + b.len())[0] == s[p]);
        assert(s.subrange(p, p + 4 + b.len())[1] == s[p + 1]);
        assert(s.subrange(p, p + 4 + b.len())[2] == s[p + 2]);
        assert(s.subrange(p, p + 4 + b.len())[3] == s[p + 3]);
    }
    lemma_be32(b.len() as u32);
    assert(read_len(s, p) == b.len());
    assert(s.subrange(p + 4, p + 4 + b.len()) =~= b) by {
        assert forall|i: int| 0 <= i < b.len() implies s.subrange(p + 4, p + 4 + b.len())[i]
            == b[i] by {
            assert(s.subrange(p, p + 4 + b.len())[4 + i] == s[p + 4 + i]);
            assert(e[4 + i] == b[i]);
        }
    }
}

proof fn lemma_items_enc(s: Seq<u8>, p: int, items: Seq<Seq<u8>>)
    requires
        0 <= p,
        forall|i: int| 0 <= i < items.len() ==> fits_len(#[trigger] items[i].len() as int),
        p + enc_items(items).len() <= s.len(),
        s.subrange(p, p + enc_items(items).len()) == enc_items(items),
    ensures
        items_at(s, p, items.len()) == Parsed::Done(items, p + enc_items(items).len()),
    decreases items.len(),
{
    if items.len() > 0 {
        let front = items.drop_last();
        let last = items.last();
        let ef = enc_items(front);
        let q = p + ef.len();
        let whole = s.subrange(p, p + enc_items(items).len());
        assert(s.subrange(p, q) =~= ef) by {
            assert forall|i: int| 0 <= i < ef.len() implies s.subrange(p, q)[i] == ef[i] by {
                assert(whole[i] == s[p + i]);
            }
        }
        assert forall|i: int| 0 <= i < front.len() implies fits_len(
            #[trigger] front[i].len() as int,
        ) by {
            assert(front[i] == items[i]);
        }
        lemma_items_enc(s, p, front);
        let eb = enc_bulk(last);
        assert(whole[ef.len() as int] == s[q]);
        assert(s[q] == TAG_BULK);
        assert(s.subrange(q + 1, q + 1 + 4 + last.len()) =~= enc_chunk(last)) by {
            assert forall|i: int| 0 <= i < 4 + last.len() implies s.subrange(
                q + 1,
                q + 1 + 4 + last.len(),
            )[i] == enc_chunk(last)[i] by {
                assert(whole[ef.len() + 1 + i] == s[q + 1 + i]);
                assert(eb[1 + i] == enc_chunk(last)[i]);
            }
        }
        assert(fits_len(items[items.len() - 1].len() as int));
        lemma_chunk_enc(s, q + 1, last);
        assert(bulk_at(s, q) == Parsed::Done(last, q + 5 + last.len()));
        assert(items_at(s, p, front.len()) == Parsed::Done(front, q));
        assert(front.push(last) =~= items);
        assert(front.len() == (items.len() - 1) as nat);
        assert(p + enc_items(items).len() == q + 5 + last.len());
    } else {
        assert(items =~= seq![]);
    }
}

proof fn lemma_decode_enc(f: FrameView, rest: Seq<u8>)
    requires
        f.wf(),
    ensures
        decode_spec(encode_spec(f) + rest) == Parsed::Done(f, encode_spec(f).len() as int),
{
    let e = encode_spec(f);
    let s = e + rest;
    assert(s.subrange(0, e.len() as int) =~= e);
    match f {
        FrameView::Simple(t) => {
            vstd::utf8::encode_utf8_valid_utf8(t);
            vstd::utf8::encode_utf8_decode_utf8(t);
            let b = encode_utf8(t);
            assert(s.subrange(1, 1 + 4 + b.len() as int) =~= enc_chunk(b));
            lemma_chunk_enc(s, 1, b);
        },
        FrameView::Error(t) => {
            vstd::utf8::encode_utf8_valid_utf8(t);
            vstd::utf8::encode_utf8_decode_utf8(t);
            let b = encode_utf8(t);
            assert(s.subrange(1, 1 + 4 + b.len() as int) =~= enc_chunk(b));
            lemma_chunk_enc(s, 1, b);
        },
        FrameView::Bulk(b) => {
            assert(s.subrange(1, 1 + 4 + b.len() as int) =~= enc_chunk(b));
            lemma_chunk_enc(s, 1, b);
        },
        FrameView::Null => {},
        FrameView::Array(items) => {
            lemma_be32(items.len() as u32);
            assert(read_len(s, 1) == items.len());
            let ei = enc_items(items);
            assert(s.subrange(5, 5 + ei.len() as int) =~= ei);
            lemma_items_enc(s, 5, items);
        },
    }
}

proof fn lemma_chunk_prefix(s: Seq<u8>, p: int, b: Seq<u8>, e: int, n: int)
    requires
        0 <= p,
        0 <= n <= s.len(),
        chunk_at(s, p) == Some((b, e)),
    ensures
        p + 4 <= e,
        n >= e ==> chunk_at(s.take(n), p) == Some((b, e)),
        n < e ==> chunk_at(s.take(n), p) is None,
{
    let t = s.take(n);
    if n >= p + 4 {
        assert(t[p] == s[p] && t[p + 1] == s[p + 1] && t[p + 2] == s[p + 2] && t[p + 3] == s[p
            + 3]);
        assert(read_len(t, p) == read_len(s, p));
        if n >= e {
            assert(t.subrange(p + 4, e) =~= s.subrange(p + 4, e));
        }
    }
}

proof fn lemma_bulk_prefix(s: Seq<u8>, p: int, b: Seq<u8>, e: int, n: int)
    requires
        0 <= p,
        0 <= n <= s.len(),
        bulk_at(s, p) == Parsed::Done(b, e),
    ensures
        p < e,
        n >= e ==> bulk_at(s.take(n), p) == Parsed::Done(b, e),
        n < e ==> bulk_at(s.take(n), p) == Parsed::<Seq<u8>>::Incomplete,
{
    lemma_chunk_prefix(s, p + 1, b, e, n);
    if n > p {
        assert(s.take(n)[p] == s[p]);
    }
}

proof fn lemma_items_prefix(s: Seq<u8>, p: int, k: nat, items: Seq<Seq<u8>>, e: int, n: int)
    requires
        0 <= p <= n <= s.len(),
        items_at(s, p, k) == Parsed::Done(items, e),
    ensures
        p <= e,
        n >= e ==> items_at(s.take(n), p, k) == Parsed::Done(items, e),
        n < e ==> items_at(s.take(n), p, k) == Parsed::<Seq<Seq<u8>>>::Incomplete,
    decreases k,
{
    if k > 0 {
        let prev = items_at(s, p, (k - 1) as nat);
        if let Parsed::Done(front, q) = prev {
            lemma_items_prefix(s, p, (k - 1) as nat, front, q, n);
            if let Parsed::Done(b, e2) = bulk_at(s, q) {
                lemma_bulk_prefix(s, q, b, e2, n);
                assert(e2 == e);
                if n < q {
                    assert(items_at(s.take(n), p, (k - 1) as nat) is Incomplete);
                } else if n < e {
                    assert(items_at(s.take(n), p, (k - 1) as nat) == Parsed::Done(front, q));
                    assert(bulk_at(s.take(n), q) is Incomplete);
                }
            }
        }
    }
}

proof fn lemma_decode_prefix(s: Seq<u8>, f: FrameView, e: int, n: int)
    requires
        0 <= n <= s.len(),
        decode_spec(s) == Parsed::Done(f, e),
    ensures
        n >= e ==> decode_spec(s.take(n)) == Parsed::Done(f, e),
        n < e ==> decode_spec(s.take(n)) == Parsed::<FrameView>::Incomplete,
{
    let t = s.take(n);
    if n > 0 {
        assert(t[0] == s[0]);
    }
    if s[0] == TAG_SIMPLE || s[0] == TAG_ERROR || s[0] == TAG_BULK {
        let (b, e1) = chunk_at(s, 1).unwrap();
        lemma_chunk_prefix(s, 1, b, e1, n);
    } else if s[0] == TAG_ARRAY {
        if let Parsed::Done(items, e1) = items_at(s, 5, read_len(s, 1) as nat) {
            lemma_items_prefix(s, 5, read_len(s, 1) as nat, items, e1, s.len() as int);
            if n >= 5 {
                assert(t[1] == s[1] && t[2] == s[2] && t[3] == s[3] && t[4] == s[4]);
                assert(read_len(t, 1) == read_len(s, 1));
                lemma_items_prefix(s, 5, read_len(s, 1) as nat, items, e1, n);
            }
        }
    }
}

/// Decoding the encoding of a frame gives the frame back, and it occupies
/// exactly the encoded bytes, whatever follows them.
pub proof fn law_round_trip(f: FrameView, rest: Seq<u8>)
    requires
        f.wf(),
    ensures
        decode_spec(encode_spec(f) + rest) == Parsed::Done(f, encode_spec(f).len() as int),
        decode_spec(encode_spec(f)) == Parsed::Done(f, encode_spec(f).len() as int),
{
    lemma_decode_enc(f, rest);
    lemma_decode_enc(f, seq![]);
    assert(encode_spec(f) + seq![] =~= encode_spec(f));
}

/// Every proper prefix of an encoded frame decodes as "more bytes needed":
/// never a frame, never an error.
pub proof fn law_partial_prefix(f: FrameView, n: int)
    requires
        f.wf(),
        0 <= n < encode_spec(f).len(),
    ensures
        decode_spec(encode_spec(f).take(n)) == Parsed::<FrameView>::Incomplete,
{
    law_round_trip(f, seq![]);
    lemma_decode_prefix(encode_spec(f), f, encode_spec(f).len() as int, n);
}

} // verus!
