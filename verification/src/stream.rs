//! The application's side of a connection: writes are refused once the
//! stream is shut down, and data the peer sent is read out in pieces as
//! large as the caller's buffer, keeping what does not fit for the next
//! read.

use vstd::prelude::*;
use crate::connection::PeerAction;

verus! {

/// Why a stream operation fails.
#[derive(PartialEq, Eq, Structural, Debug, Copy, Clone)]
pub enum StreamError {
    /// Writing after the stream was shut down.
    NotConnected,
    /// Nothing arrived within the read timeout.
    WouldBlock,
}

/// The state of the application's side of a connection.
pub struct StreamState {
    shutdown_sent: bool,
    last_data: Option<Vec<u8>>,
}

/// The mathematical content of a [`StreamState`].
pub struct StreamStateView {
    pub shutdown_sent: bool,
    pub last_data: Option<Seq<u8>>,
}

impl View for StreamState {
    type V = StreamStateView;

    closed spec fn view(&self) -> StreamStateView {
        StreamStateView {
            shutdown_sent: self.shutdown_sent,
            last_data: match self.last_data {
                Some(d) => Some(d@),
                None => None,
            },
        }
    }
}

/// The smaller of two numbers.
pub open spec fn min(a: int, b: int) -> int {
    if a <= b {
        a
    } else {
        b
    }
}

/// Whether a write of `len` bytes is taken: refused after a shutdown,
/// taken whole otherwise.
pub open spec fn write_spec(v: StreamStateView, len: usize) -> Result<usize, StreamError> {
    if v.shutdown_sent {
        Err(StreamError::NotConnected)
    } else {
        Ok(len)
    }
}

/// Once a stream is shut down, every write is refused with `NotConnected`,
/// whatever was read or written before.
pub proof fn lemma_write_after_shutdown(v: StreamStateView, len: usize)
    ensures
        write_spec(StreamStateView { shutdown_sent: true, ..v }, len) == Err::<usize, StreamError>(
            StreamError::NotConnected,
        ),
{
}

/// On a stream that is not shut down, a write of any length is taken whole:
/// the number of bytes it reports written is the number it was given, and
/// only a shut-down stream refuses a write.
pub proof fn lemma_write_takes_all(v: StreamStateView, len: usize)
    ensures
        !v.shutdown_sent ==> write_spec(v, len) == Ok::<usize, StreamError>(len),
        write_spec(v, len) is Err <==> v.shutdown_sent,
{
}

/// One read into a buffer of `buf_len` bytes: the data left over from the
/// last read, if any, and otherwise `fresh` (what the peer sent next), is
/// given out as far as it fits, and the rest is kept for the next read.
pub open spec fn read_spec(v: StreamStateView, buf_len: nat, fresh: Seq<u8>) -> (
    Seq<u8>,
    StreamStateView,
) {
    let data = match v.last_data {
        Some(d) => d,
        None => fresh,
    };
    let n = min(buf_len as int, data.len() as int);
    (
        data.subrange(0, n),
        StreamStateView {
            last_data: if n < data.len() {
                Some(data.subrange(n, data.len() as int))
            } else {
                None
            },
            ..v
        },
    )
}

/// The data kept from the last read, or nothing.
pub open spec fn pending(v: StreamStateView) -> Seq<u8> {
    match v.last_data {
        Some(d) => d,
        None => Seq::empty(),
    }
}

/// Pieces of data, one after the other.
pub open spec fn flatten(q: Seq<Seq<u8>>) -> Seq<u8>
    decreases q.len(),
{
    if q.len() == 0 {
        Seq::empty()
    } else {
        q[0] + flatten(q.subrange(1, q.len() as int))
    }
}

/// Successive reads into buffers of the lengths in `lens`, each taking the
/// data kept from the last read or else the next piece the peer sent, in
/// order, from `q`; they stop when nothing is left to read. The result is
/// all that was read, the state after, and the pieces not yet taken.
pub open spec fn reads(v: StreamStateView, q: Seq<Seq<u8>>, lens: Seq<nat>) -> (
    Seq<u8>,
    StreamStateView,
    Seq<Seq<u8>>,
)
    decreases lens.len(),
{
    if lens.len() == 0 || (v.last_data is None && q.len() == 0) {
        (Seq::empty(), v, q)
    } else {
        let fresh = if v.last_data is Some {
            Seq::empty()
        } else {
            q[0]
        };
        let q2 = if v.last_data is Some {
            q
        } else {
            q.subrange(1, q.len() as int)
        };
        let (out, v2) = read_spec(v, lens[0], fresh);
        let (rest, v3, q3) = reads(v2, q2, lens.subrange(1, lens.len() as int));
        (out + rest, v3, q3)
    }
}

/// However the data the peer sent is read, in buffers of whatever lengths,
/// what the reads give out, followed by what is kept and what is not yet
/// taken, is exactly what was kept before followed by all the peer sent:
/// no byte is lost, repeated or reordered.
pub proof fn lemma_reads_keep_all(v: StreamStateView, q: Seq<Seq<u8>>, lens: Seq<nat>)
    ensures
        ({
            let (out, v2, q2) = reads(v, q, lens);
            out + pending(v2) + flatten(q2) == pending(v) + flatten(q)
        }),
    decreases lens.len(),
{
    if lens.len() == 0 || (v.last_data is None && q.len() == 0) {
        assert(Seq::<u8>::empty() + pending(v) + flatten(q) =~= pending(v) + flatten(q));
    } else {
        let fresh = if v.last_data is Some {
            Seq::<u8>::empty()
        } else {
            q[0]
        };
        let q2 = if v.last_data is Some {
            q
        } else {
            q.subrange(1, q.len() as int)
        };
        let (out, v2) = read_spec(v, lens[0], fresh);
        let rl = lens.subrange(1, lens.len() as int);
        lemma_reads_keep_all(v2, q2, rl);
        let (rest, v3, q3) = reads(v2, q2, rl);
        let data = match v.last_data {
            Some(d) => d,
            None => fresh,
        };
        let n = min(lens[0] as int, data.len() as int);
        assert(out + pending(v2) =~= data) by {
            assert(data.subrange(0, n) + data.subrange(n, data.len() as int) =~= data);
        }
        assert(out + rest + pending(v3) + flatten(q3) =~= out + (rest + pending(v3) + flatten(q3)));
        assert(out + (pending(v2) + flatten(q2)) =~= out + pending(v2) + flatten(q2));
        if v.last_data is None {
            assert(pending(v) =~= Seq::<u8>::empty());
            assert(flatten(q) == q[0] + flatten(q2));
            assert(Seq::<u8>::empty() + flatten(q) =~= flatten(q));
        } else {
            assert(flatten(q2) == flatten(q));
            assert(data + flatten(q) =~= pending(v) + flatten(q));
        }
    }
}

/// A read of data that is not empty into a buffer that is not empty gives
/// out at least one byte and at most as many as fit; and what a read keeps
/// for the next one is never empty, so the next read gives out something
/// too.
pub proof fn lemma_read_gives_some(v: StreamStateView, buf_len: nat, fresh: Seq<u8>)
    ensures
        buf_len > 0 && (match v.last_data {
            Some(d) => d.len() > 0,
            None => fresh.len() > 0,
        }) ==> 1 <= read_spec(v, buf_len, fresh).0.len() <= buf_len,
        read_spec(v, buf_len, fresh).0.len() <= buf_len,
        read_spec(v, buf_len, fresh).1.last_data matches Some(d) ==> d.len() > 0,
{
}

impl PeerAction {
    /// The bytes this action stands for: the data, or nothing at the end of
    /// the stream.
    pub fn into_bytes(self) -> (d: Vec<u8>)
        ensures
            d@ == self@.bytes(),
    {
        match self {
            PeerAction::Data(d) => d,
            PeerAction::Eof => Vec::new(),
        }
    }
}

impl StreamState {
    /// A stream that is not shut down and holds no unread data.
    pub fn new() -> (s: StreamState)
        ensures
            s@ == (StreamStateView { shutdown_sent: false, last_data: None }),
    {
        StreamState { shutdown_sent: false, last_data: None }
    }

    pub fn shutdown_sent(&self) -> (b: bool)
        ensures
            b == self@.shutdown_sent,
    {
        self.shutdown_sent
    }

    /// Marks the stream as shut down for writing.
    pub fn shutdown(&mut self)
        ensures
            final(self)@ == (StreamStateView { shutdown_sent: true, ..old(self)@ }),
    {
        self.shutdown_sent = true;
    }

    /// Whether a write of `len` bytes is taken: it is refused with
    /// `NotConnected` after a shutdown, and taken whole otherwise. The
    /// write must not be empty.
    pub fn write(&self, len: usize) -> (r: Result<usize, StreamError>)
        requires
            len > 0,
        ensures
            r == write_spec(self@, len),
    {
        if self.shutdown_sent {
            Err(StreamError::NotConnected)
        } else {
            Ok(len)
        }
    }

    /// Takes out the data left over from the last read, if any.
    pub fn take_pending(&mut self) -> (d: Option<Vec<u8>>)
        ensures
            final(self)@ == (StreamStateView { last_data: None, ..old(self)@ }),
            match d {
                Some(x) => old(self)@.last_data == Some(x@),
                None => old(self)@.last_data is None,
            },
    {
        self.last_data.take()
    }

    /// Copies as much of `data` as fits into `buf` and keeps the rest for
    /// the next read. Returns how many bytes were copied.
    pub fn read_into(&mut self, buf: &mut [u8], data: Vec<u8>) -> (n: usize)
        requires
            old(self)@.last_data is None,
        ensures
            n == min(old(buf)@.len() as int, data@.len() as int),
            final(buf)@.len() == old(buf)@.len(),
            final(buf)@.subrange(0, n as int) == data@.subrange(0, n as int),
            final(buf)@.subrange(n as int, final(buf)@.len() as int) == old(buf)@.subrange(
                n as int,
                old(buf)@.len() as int,
            ),
            final(self)@.shutdown_sent == old(self)@.shutdown_sent,
            final(self)@.last_data == (if n < data@.len() {
                Some(data@.subrange(n as int, data@.len() as int))
            } else {
                None::<Seq<u8>>
            }),
            (final(buf)@.subrange(0, n as int), final(self)@) == read_spec(
                old(self)@,
                old(buf)@.len(),
                data@,
            ),
    {
        let mut data = data;
        let data_len = data.len();
        let len = if buf.len() < data_len {
            buf.len()
        } else {
            data_len
        };
        let ghost old_buf = buf@;
        let mut i: usize = 0;
        while i < len
            invariant
                len <= buf@.len(),
                len <= data@.len(),
                buf@.len() == old_buf.len(),
                i <= len,
                forall|j: int| 0 <= j < i ==> buf@[j] == data@[j],
                forall|j: int| len <= j < buf@.len() ==> buf@[j] == old_buf[j],
            decreases len - i,
        {
            buf[i] = data[i];
            i = i + 1;
        }
        assert(buf@.subrange(0, len as int) =~= data@.subrange(0, len as int));
        assert(buf@.subrange(len as int, buf@.len() as int) =~= old_buf.subrange(
            len as int,
            old_buf.len() as int,
        ));
        if data_len > len {
            let rest = data.split_off(len);
            self.last_data = Some(rest);
        }
        len
    }
}

/// How many bytes a chunk of a download collects before it is reported:
/// one megabyte.
pub const CHUNK_LIMIT: usize = 1_000_000;

/// Whether a download chunk is complete after a read: the read gave
/// nothing (the peer closed the stream), or more than [`CHUNK_LIMIT`]
/// bytes have been collected.
pub fn chunk_done(last_read: usize, collected: usize) -> (b: bool)
    ensures
        b == (last_read == 0 || collected > CHUNK_LIMIT),
{
    last_read == 0 || collected > CHUNK_LIMIT
}

/// What a read gives out followed by what it keeps is exactly the data it
/// was handed: no byte is lost or repeated.
pub proof fn lemma_read_keeps_all(out: Seq<u8>, kept: Option<Seq<u8>>, data: Seq<u8>, n: int)
    requires
        0 <= n <= data.len(),
        out == data.subrange(0, n),
        kept == (if n < data.len() {
            Some(data.subrange(n, data.len() as int))
        } else {
            None::<Seq<u8>>
        }),
    ensures
        out + (match kept {
            Some(k) => k,
            None => Seq::empty(),
        }) == data,
{
    if n < data.len() {
        assert(data.subrange(0, n) + data.subrange(n, data.len() as int) =~= data);
    } else {
        assert(data.subrange(0, n) + Seq::<u8>::empty() =~= data);
    }
}

} // verus!
