//! One client connection: the bytes it has sent and not yet served, and the
//! decisions taken as bytes arrive or the stream ends. Reading from and
//! writing to the transport is left to the caller.
use vstd::prelude::*;
use vstd::utf8::*;

use crate::codec::{encode, push_bytes, FrameBuffer};
use crate::command::{respond, respond_spec};
use crate::frame::{
    chunk_at, decode_spec, encode_spec, fits_len, items_at, read_len, FrameDecodeError,
    Parsed, TAG_ARRAY, TAG_BULK, TAG_ERROR, TAG_SIMPLE,
};
use crate::store::Store;

verus! {

/// Why a connection ends abnormally.
#[derive(PartialEq, Eq, Structural, Clone, Copy, Debug)]
pub enum ConnectionError {
    /// The client sent bytes that can never form a frame.
    Decode(FrameDecodeError),
    /// The stream ended in the middle of a frame.
    Truncated,
}

/// What serving a buffer amounts to: the store afterwards, the response
/// bytes to write, the bytes left waiting for more input, and the decode
/// failure that ends the connection, if any.
pub struct Served {
    pub store: Map<Seq<char>, Seq<u8>>,
    pub out: Seq<u8>,
    pub rest: Seq<u8>,
    pub error: Option<FrameDecodeError>,
}

/// Serves every complete frame at the front of `buf`, in order.
pub open spec fn serve_spec(m: Map<Seq<char>, Seq<u8>>, buf: Seq<u8>) -> Served
    decreases buf.len(),
{
    match decode_spec(buf) {
        Parsed::Done(f, k) => if 0 < k <= buf.len() {
            let next = serve_spec(respond_spec(m, f).0, buf.skip(k));
            Served { out: encode_spec(respond_spec(m, f).1) + next.out, ..next }
        } else {
            Served { store: m, out: seq![], rest: buf, error: None }
        },
        Parsed::Incomplete => Served { store: m, out: seq![], rest: buf, error: None },
        Parsed::Invalid(e) => Served { store: m, out: seq![], rest: buf, error: Some(e) },
    }
}

pub open spec fn outcome_of(error: Option<FrameDecodeError>) -> Result<(), ConnectionError> {
    match error {
        None => Ok(()),
        Some(e) => Err(ConnectionError::Decode(e)),
    }
}

proof fn lemma_items_wf(s: Seq<u8>, p: int, k: nat)
    requires
        0 <= p,
        items_at(s, p, k) is Done,
    ensures
        items_at(s, p, k)->Done_0.len() == k,
        p <= items_at(s, p, k)->Done_1 <= s.len() || (k == 0 && p == items_at(s, p, k)->Done_1),
        forall|i: int|
            0 <= i < k ==> fits_len(#[trigger] items_at(s, p, k)->Done_0[i].len() as int),
    decreases k,
{
    if k > 0 {
        lemma_items_wf(s, p, (k - 1) as nat);
        let front = items_at(s, p, (k - 1) as nat)->Done_0;
        let q = items_at(s, p, (k - 1) as nat)->Done_1;
        let b = chunk_at(s, q + 1)->Some_0.0;
        assert(read_len(s, q + 1) <= 0xffff_ffff);
        assert forall|i: int| 0 <= i < k implies fits_len(
            #[trigger] items_at(s, p, k)->Done_0[i].len() as int,
        ) by {
            if i < k - 1 {
                assert(items_at(s, p, k)->Done_0[i] == front[i]);
            }
        }
    }
}

proof fn lemma_decoded_wf(s: Seq<u8>)
    requires
        decode_spec(s) is Done,
    ensures
        decode_spec(s)->Done_0.wf(),
        0 < decode_spec(s)->Done_1 <= s.len(),
{
    if s[0] == TAG_SIMPLE || s[0] == TAG_ERROR {
        let b = chunk_at(s, 1)->Some_0.0;
        decode_utf8_encode_utf8(b);
        assert(read_len(s, 1) <= 0xffff_ffff);
    } else if s[0] == TAG_BULK {
        assert(read_len(s, 1) <= 0xffff_ffff);
    } else if s[0] == TAG_ARRAY {
        assert(read_len(s, 1) <= 0xffff_ffff);
        lemma_items_wf(s, 5, read_len(s, 1) as nat);
    }
}

/// The per-connection state: the bytes received and not yet served.
pub struct Connection {
    buffer: FrameBuffer,
}

impl View for Connection {
    type V = Seq<u8>;

    closed spec fn view(&self) -> Seq<u8> {
        self.buffer@
    }
}

impl Connection {
    /// A connection that has received nothing yet.
    pub fn new() -> (r: Connection)
        ensures
            r@ == Seq::<u8>::empty(),
    {
        Connection { buffer: FrameBuffer::new() }
    }

    /// Bytes arrived from the client: serves every complete frame they
    /// finish, in order, against the store. Returns the response bytes to
    /// write, and whether the connection must then close on a decode error.
    pub fn receive(&mut self, store: &mut Store, data: &[u8]) -> (r: (
        Vec<u8>,
        Result<(), ConnectionError>,
    ))
        requires
            old(store).wf(),
        ensures
            final(store).wf(),
            final(store)@ == serve_spec(old(store)@, old(self)@ + data@).store,
            final(self)@ == serve_spec(old(store)@, old(self)@ + data@).rest,
            r.0@ == serve_spec(old(store)@, old(self)@ + data@).out,
            r.1 == outcome_of(serve_spec(old(store)@, old(self)@ + data@).error),
    {
        let ghost total = serve_spec(store@, self.buffer@ + data@);
        self.buffer.extend(data);
        let mut out: Vec<u8> = Vec::new();
        loop
            invariant
                store.wf(),
                total == serve_spec(old(store)@, old(self)@ + data@),
                total == (Served {
                    out: out@ + serve_spec(store@, self.buffer@).out,
                    ..serve_spec(store@, self.buffer@)
                }),
            decreases self.buffer@.len(),
        {
            let ghost before = self.buffer@;
            let ghost m = store@;
            match self.buffer.next_frame() {
                Ok(None) => {
                    assert(serve_spec(m, before) == Served {
                        store: m,
                        out: seq![],
                        rest: before,
                        error: None,
                    });
                    assert(out@ + seq![] =~= out@);
                    return (out, Ok(()));
                },
                Err(e) => {
                    assert(serve_spec(m, before) == Served {
                        store: m,
                        out: seq![],
                        rest: before,
                        error: Some(e),
                    });
                    assert(out@ + seq![] =~= out@);
                    return (out, Err(ConnectionError::Decode(e)));
                },
                Ok(Some(f)) => {
                    proof {
                        lemma_decoded_wf(before);
                    }
                    let resp = respond(store, f);
                    let bytes = encode(&resp);
                    let ghost prev = out@;
                    let ghost next = serve_spec(store@, self.buffer@);
                    assert(serve_spec(m, before) == Served {
                        out: encode_spec(resp@) + next.out,
                        ..next
                    });
                    push_bytes(&mut out, bytes.as_slice());
                    assert(prev + serve_spec(m, before).out =~= out@ + serve_spec(
                        store@,
                        self.buffer@,
                    ).out);
                },
            }
        }
    }

    /// The client closed the stream: a clean end, unless it stopped in the
    /// middle of a frame.
    pub fn finish(&self) -> (r: Result<(), ConnectionError>)
        ensures
            r == (if self@.len() == 0 {
                Ok::<(), ConnectionError>(())
            } else {
                Err(ConnectionError::Truncated)
            }),
    {
        if self.buffer.is_empty() {
            Ok(())
        } else {
            Err(ConnectionError::Truncated)
        }
    }
}

} // verus!
