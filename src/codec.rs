//! Executable encoding and decoding of frames, and the per-connection decode
//! buffer that turns a stream of byte chunks into frames.
use vstd::prelude::*;
use vstd::slice::{slice_subrange, slice_to_vec};
use vstd::utf8::*;

use crate::frame::{
    be32, bytes_of_items, chunk_at, decode_spec, enc_chunk, enc_items, encode_spec, fits_len, items_at,
    read_len, Frame, FrameDecodeError, FrameView, Parsed, TAG_ARRAY, TAG_BULK, TAG_ERROR, TAG_NULL,
    TAG_SIMPLE,
};

verus! {

/// Relies on std's `String::from_utf8`: `Ok` exactly when the bytes are
/// valid UTF-8, and then the string holds the characters they encode.
#[verifier::external_body]
pub(crate) fn string_from_utf8(bytes: Vec<u8>) -> (r: Option<String>)
    ensures
        match r {
            Some(s) => valid_utf8(bytes@) && s@ == decode_utf8(bytes@),
            None => !valid_utf8(bytes@),
        },
{
    String::from_utf8(bytes).ok()
}

pub(crate) fn push_bytes(out: &mut Vec<u8>, b: &[u8])
    ensures
        final(out)@ == old(out)@ + b@,
{
    let mut i: usize = 0;
    while i < b.len()
        invariant
            i <= b@.len(),
            out@ == old(out)@ + b@.take(i as int),
        decreases b@.len() - i,
    {
        out.push(b[i]);
        i = i + 1;
        assert(out@ =~= old(out)@ + b@.take(i as int));
    }
    assert(b@.take(i as int) =~= b@);
}

fn push_chunk(out: &mut Vec<u8>, b: &[u8])
    requires
        fits_len(b@.len() as int),
    ensures
        final(out)@ == old(out)@ + enc_chunk(b@),
{
    let n = b.len() as u32;
    out.push((n >> 24u32) as u8);
    out.push((n >> 16u32) as u8);
    out.push((n >> 8u32) as u8);
    out.push(n as u8);
    push_bytes(out, b);
    assert(final(out)@ =~= old(out)@ + enc_chunk(b@));
}

/// The wire bytes of a frame.
pub fn encode(f: &Frame) -> (r: Vec<u8>)
    requires
        f@.wf(),
    ensures
        r@ == encode_spec(f@),
{
    let mut out: Vec<u8> = Vec::new();
    match f {
        Frame::Simple(s) => {
            out.push(TAG_SIMPLE);
            push_chunk(&mut out, s.as_str().as_bytes());
        },
        Frame::Error(s) => {
            out.push(TAG_ERROR);
            push_chunk(&mut out, s.as_str().as_bytes());
        },
        Frame::Bulk(b) => {
            out.push(TAG_BULK);
            push_chunk(&mut out, b.as_slice());
        },
        Frame::Null => {
            out.push(TAG_NULL);
        },
        Frame::Array(items) => {
            let ghost model = bytes_of_items(*items);
            let n = items.len() as u32;
            out.push(TAG_ARRAY);
            out.push((n >> 24u32) as u8);
            out.push((n >> 16u32) as u8);
            out.push((n >> 8u32) as u8);
            out.push(n as u8);
            let ghost head = out@;
            assert(head =~= seq![TAG_ARRAY] + be32(n));
            let mut i: usize = 0;
            while i < items.len()
                invariant
                    i <= items@.len(),
                    model == bytes_of_items(*items),
                    f@.wf(),
                    *f == Frame::Array(*items),
                    out@ == head + enc_items(model.take(i as int)),
                decreases items@.len() - i,
            {
                assert(model[i as int] == items[i as int]@);
                assert(fits_len(model[i as int].len() as int));
                out.push(TAG_BULK);
                push_chunk(&mut out, items[i].as_slice());
                assert(model.take(i + 1).drop_last() =~= model.take(i as int));
                i = i + 1;
                assert(out@ =~= head + enc_items(model.take(i as int)));
            }
            assert(model.take(i as int) =~= model);
        },
    }
    out
}

/// What a call of `decode` says, as a decoding outcome.
pub open spec fn decode_outcome(r: Result<Option<(Frame, usize)>, FrameDecodeError>) -> Parsed<
    FrameView,
> {
    match r {
        Ok(None) => Parsed::Incomplete,
        Ok(Some((f, k))) => Parsed::Done(f@, k as int),
        Err(e) => Parsed::Invalid(e),
    }
}

fn read_be32(buf: &[u8], p: usize) -> (n: u32)
    requires
        p + 4 <= buf@.len(),
    ensures
        n as int == read_len(buf@, p as int),
{
    ((buf[p] as u32) << 24u32) | ((buf[p + 1] as u32) << 16u32) | ((buf[p + 2] as u32) << 8u32)
        | (buf[p + 3] as u32)
}

/// Where the length-prefixed payload at `p` lies, once it is all there.
fn find_chunk(buf: &[u8], p: usize) -> (r: Option<(usize, usize)>)
    requires
        p <= buf@.len(),
    ensures
        match r {
            None => chunk_at(buf@, p as int) is None,
            Some((a, e)) => a == p + 4 && a <= e <= buf@.len() && chunk_at(buf@, p as int)
                == Some((buf@.subrange(a as int, e as int), e as int)),
        },
{
    if buf.len() - p < 4 {
        return None;
    }
    let n = read_be32(buf, p) as usize;
    if buf.len() - (p + 4) < n {
        return None;
    }
    Some((p + 4, p + 4 + n))
}

proof fn lemma_items_stuck(s: Seq<u8>, p: int, k: nat, m: nat)
    requires
        k <= m,
        !(items_at(s, p, k) is Done),
    ensures
        items_at(s, p, m) == items_at(s, p, k),
    decreases m - k,
{
    if k < m {
        lemma_items_stuck(s, p, k, (m - 1) as nat);
    }
}

fn decode_items(buf: &[u8], count: u32) -> (r: Result<Option<(Vec<Vec<u8>>, usize)>, FrameDecodeError>)
    requires
        5 <= buf@.len(),
    ensures
        match items_at(buf@, 5, count as nat) {
            Parsed::Incomplete => r matches Ok(None),
            Parsed::Invalid(x) => r == Err::<Option<(Vec<Vec<u8>>, usize)>, FrameDecodeError>(x),
            Parsed::Done(items, e) => r matches Ok(Some((v, k))) && bytes_of_items(v) == items
                && k == e,
        },
{
    let mut items: Vec<Vec<u8>> = Vec::new();
    let mut pos: usize = 5;
    let mut i: u32 = 0;
    assert(bytes_of_items(items) =~= Seq::<Seq<u8>>::empty());
    while i < count
        invariant
            i <= count,
            pos <= buf@.len(),
            items_at(buf@, 5, i as nat) == Parsed::Done(bytes_of_items(items), pos as int),
        decreases count - i,
    {
        if pos == buf.len() {
            proof {
                lemma_items_stuck(buf@, 5, (i + 1) as nat, count as nat);
            }
            return Ok(None);
        }
        if buf[pos] != TAG_BULK {
            proof {
                lemma_items_stuck(buf@, 5, (i + 1) as nat, count as nat);
            }
            return Err(FrameDecodeError::BadElementTag(buf[pos]));
        }
        match find_chunk(buf, pos + 1) {
            None => {
                proof {
                    lemma_items_stuck(buf@, 5, (i + 1) as nat, count as nat);
                }
                return Ok(None);
            },
            Some((a, e)) => {
                let b = slice_to_vec(slice_subrange(buf, a, e));
                let ghost before = bytes_of_items(items);
                items.push(b);
                assert(bytes_of_items(items) =~= before.push(buf@.subrange(a as int, e as int)));
                pos = e;
                i = i + 1;
            },
        }
    }
    Ok(Some((items, pos)))
}

/// Reads the frame at the front of `buf`: `Ok(None)` while more bytes are
/// needed, the frame and the number of bytes it occupies once it is all
/// there, or the reason the bytes can never form a frame.
pub fn decode(buf: &[u8]) -> (r: Result<Option<(Frame, usize)>, FrameDecodeError>)
    ensures
        decode_outcome(r) == decode_spec(buf@),
{
    if buf.len() == 0 {
        return Ok(None);
    }
    let tag = buf[0];
    if tag == TAG_NULL {
        Ok(Some((Frame::Null, 1)))
    } else if tag == TAG_SIMPLE || tag == TAG_ERROR {
        match find_chunk(buf, 1) {
            None => Ok(None),
            Some((a, e)) => {
                let bytes = slice_to_vec(slice_subrange(buf, a, e));
                match string_from_utf8(bytes) {
                    None => Err(FrameDecodeError::InvalidText),
                    Some(s) => {
                        if tag == TAG_SIMPLE {
                            Ok(Some((Frame::Simple(s), e)))
                        } else {
                            Ok(Some((Frame::Error(s), e)))
                        }
                    },
                }
            },
        }
    } else if tag == TAG_BULK {
        match find_chunk(buf, 1) {
            None => Ok(None),
            Some((a, e)) => Ok(Some((Frame::Bulk(slice_to_vec(slice_subrange(buf, a, e))), e))),
        }
    } else if tag == TAG_ARRAY {
        if buf.len() < 5 {
            return Ok(None);
        }
        let count = read_be32(buf, 1);
        match decode_items(buf, count) {
            Ok(None) => Ok(None),
            Err(x) => Err(x),
            Ok(Some((items, e))) => Ok(Some((Frame::Array(items), e))),
        }
    } else {
        Err(FrameDecodeError::UnknownTag(tag))
    }
}

/// The bytes a connection has received and not yet turned into frames.
pub struct FrameBuffer {
    bytes: Vec<u8>,
}

impl View for FrameBuffer {
    type V = Seq<u8>;

    closed spec fn view(&self) -> Seq<u8> {
        self.bytes@
    }
}

impl FrameBuffer {
    pub fn new() -> (r: FrameBuffer)
        ensures
            r@ == Seq::<u8>::empty(),
    {
        FrameBuffer { bytes: Vec::new() }
    }

    /// Appends bytes that arrived from the transport.
    pub fn extend(&mut self, data: &[u8])
        ensures
            final(self)@ == old(self)@ + data@,
    {
        push_bytes(&mut self.bytes, data);
    }

    pub fn is_empty(&self) -> (r: bool)
        ensures
            r == (self@.len() == 0),
    {
        self.bytes.len() == 0
    }

    /// Takes the frame at the front of the buffer, if it is all there.
    /// Bytes are consumed only together with a frame.
    pub fn next_frame(&mut self) -> (r: Result<Option<Frame>, FrameDecodeError>)
        ensures
            match decode_spec(old(self)@) {
                Parsed::Incomplete => r matches Ok(None) && final(self)@ == old(self)@,
                Parsed::Invalid(x) => r == Err::<Option<Frame>, FrameDecodeError>(x)
                    && final(self)@ == old(self)@,
                Parsed::Done(f, k) => final(self)@ == old(self)@.skip(k)
                    && (r matches Ok(Some(g)) && g@ == f),
            },
    {
        match decode(self.bytes.as_slice()) {
            Ok(None) => Ok(None),
            Err(x) => Err(x),
            Ok(Some((f, k))) => {
                let rest = slice_to_vec(slice_subrange(self.bytes.as_slice(), k, self.bytes.len()));
                self.bytes = rest;
                Ok(Some(f))
            },
        }
    }
}

} // verus!
