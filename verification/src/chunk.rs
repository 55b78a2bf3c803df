//! Moving the bytes of one file over a connection in bounded chunks.
//!
//! The size of the buffer bounds how much is handed to the connection at once.
//! It frames nothing: the receiver counts bytes up to the length it was told,
//! so the same bytes arrive whatever the size of the buffer on either side.

use crate::error::TransportError;
use vstd::prelude::*;
use vstd::slice::{slice_subrange, slice_to_vec};

verus! {

/// The chunks that `bytes` are cut into with a buffer of `buffer` bytes: all of
/// them full but the last, none of them empty.
pub open spec fn chunks_of(bytes: Seq<u8>, buffer: nat) -> Seq<Seq<u8>>
    decreases bytes.len(),
{
    if bytes.len() == 0 || buffer == 0 {
        Seq::empty()
    } else if bytes.len() <= buffer {
        seq![bytes]
    } else {
        seq![bytes.take(buffer as int)] + chunks_of(bytes.skip(buffer as int), buffer)
    }
}

/// Chunks put end to end.
pub open spec fn joined(chunks: Seq<Seq<u8>>) -> Seq<u8>
    decreases chunks.len(),
{
    if chunks.len() == 0 {
        Seq::empty()
    } else {
        chunks[0] + joined(chunks.drop_first())
    }
}

/// Chunks held in memory as mathematical values.
pub open spec fn chunks_view(chunks: Seq<Vec<u8>>) -> Seq<Seq<u8>> {
    chunks.map_values(|chunk: Vec<u8>| chunk@)
}

/// Chunks put end to end, one more at the end.
pub proof fn lemma_joined_push(chunks: Seq<Seq<u8>>, last: Seq<u8>)
    ensures
        joined(chunks.push(last)) == joined(chunks) + last,
    decreases chunks.len(),
{
    let longer = chunks.push(last);
    if chunks.len() == 0 {
        assert(longer.drop_first() =~= chunks);
        assert(joined(chunks) =~= Seq::<u8>::empty());
        assert(joined(longer) =~= joined(chunks) + last);
    } else {
        assert(longer.drop_first() =~= chunks.drop_first().push(last));
        lemma_joined_push(chunks.drop_first(), last);
        assert(joined(longer) =~= joined(chunks) + last);
    }
}

/// No chunk is empty and none is larger than the buffer.
pub proof fn lemma_chunks_bounded(bytes: Seq<u8>, buffer: nat)
    requires
        buffer > 0,
    ensures
        forall|i: int|
            0 <= i < chunks_of(bytes, buffer).len() ==> 0 < (#[trigger] chunks_of(
                bytes,
                buffer,
            )[i]).len() <= buffer,
    decreases bytes.len(),
{
    if bytes.len() > buffer {
        lemma_chunks_bounded(bytes.skip(buffer as int), buffer);
        let rest = chunks_of(bytes.skip(buffer as int), buffer);
        assert forall|i: int| 0 <= i < chunks_of(bytes, buffer).len() implies 0 < (
        #[trigger] chunks_of(bytes, buffer)[i]).len() <= buffer by {
            if i > 0 {
                assert(chunks_of(bytes, buffer)[i] == rest[i - 1]);
            }
        }
    }
}

/// Cutting bytes into chunks and putting the chunks end to end gives the bytes
/// back, whatever the size of the buffer.
pub proof fn lemma_chunks_rejoin(bytes: Seq<u8>, buffer: nat)
    requires
        buffer > 0,
    ensures
        joined(chunks_of(bytes, buffer)) == bytes,
    decreases bytes.len(),
{
    let chunks = chunks_of(bytes, buffer);
    if bytes.len() == 0 {
        assert(joined(chunks) =~= bytes);
    } else if bytes.len() <= buffer {
        assert(chunks.drop_first() =~= Seq::<Seq<u8>>::empty());
        assert(joined(chunks.drop_first()) =~= Seq::<u8>::empty());
        assert(joined(chunks) =~= bytes);
    } else {
        let rest = chunks_of(bytes.skip(buffer as int), buffer);
        lemma_chunks_rejoin(bytes.skip(buffer as int), buffer);
        assert(chunks.drop_first() =~= rest);
        assert(joined(chunks) =~= bytes.take(buffer as int) + bytes.skip(buffer as int));
        assert(bytes.take(buffer as int) + bytes.skip(buffer as int) =~= bytes);
    }
}

/// Two transfers of the same bytes with different buffers end with the same
/// bytes.
pub proof fn lemma_chunk_independence(bytes: Seq<u8>, one: nat, other: nat)
    requires
        one > 0,
        other > 0,
    ensures
        joined(chunks_of(bytes, one)) == joined(chunks_of(bytes, other)),
{
    lemma_chunks_rejoin(bytes, one);
    lemma_chunks_rejoin(bytes, other);
}

/// Cuts `bytes` into chunks of at most `buffer_size` bytes. A buffer of no
/// bytes is refused.
pub fn split_chunks(bytes: &[u8], buffer_size: usize) -> (chunks: Result<
    Vec<Vec<u8>>,
    TransportError,
>)
    ensures
        buffer_size == 0 ==> chunks == Err::<Vec<Vec<u8>>, TransportError>(
            TransportError::ZeroBuffer,
        ),
        buffer_size > 0 ==> (chunks matches Ok(cut) && chunks_view(cut@) == chunks_of(
            bytes@,
            buffer_size as nat,
        )),
{
    if buffer_size == 0 {
        return Err(TransportError::ZeroBuffer);
    }
    let total: usize = bytes.len();
    let mut cut: Vec<Vec<u8>> = Vec::new();
    let mut at: usize = 0;
    proof {
        assert(bytes@.skip(0) =~= bytes@);
        assert(chunks_view(cut@) + chunks_of(bytes@, buffer_size as nat) =~= chunks_of(
            bytes@,
            buffer_size as nat,
        ));
    }
    while at < total
        invariant
            at <= total == bytes@.len(),
            buffer_size > 0,
            chunks_view(cut@) + chunks_of(bytes@.skip(at as int), buffer_size as nat) == chunks_of(
                bytes@,
                buffer_size as nat,
            ),
        decreases total - at,
    {
        let ghost tail = bytes@.skip(at as int);
        let ghost before = chunks_view(cut@);
        let end: usize = if total - at <= buffer_size {
            total
        } else {
            at + buffer_size
        };
        let chunk: Vec<u8> = slice_to_vec(slice_subrange(bytes, at, end));
        proof {
            let rest = chunks_of(bytes@.skip(end as int), buffer_size as nat);
            if end == total {
                assert(chunk@ =~= tail);
                assert(rest =~= Seq::<Seq<u8>>::empty());
            } else {
                assert(chunk@ =~= tail.take(buffer_size as int));
                assert(tail.skip(buffer_size as int) =~= bytes@.skip(end as int));
            }
            assert(chunks_of(tail, buffer_size as nat) =~= seq![chunk@] + rest);
            assert(before.push(chunk@) + rest =~= before + (seq![chunk@] + rest));
        }
        cut.push(chunk);
        proof {
            assert(chunks_view(cut@) =~= before.push(chunk@));
        }
        at = end;
    }
    proof {
        assert(chunks_view(cut@) + Seq::<Seq<u8>>::empty() =~= chunks_view(cut@));
    }
    Ok(cut)
}

/// Puts `chunks` end to end.
pub fn join_chunks(chunks: &Vec<Vec<u8>>) -> (bytes: Vec<u8>)
    ensures
        bytes@ == joined(chunks_view(chunks@)),
{
    let ghost all = chunks_view(chunks@);
    let count: usize = chunks.len();
    let mut out: Vec<u8> = Vec::new();
    let mut done: usize = 0;
    proof {
        assert(all.take(0) =~= Seq::<Seq<u8>>::empty());
    }
    while done < count
        invariant
            done <= count == chunks@.len(),
            all == chunks_view(chunks@),
            out@ == joined(all.take(done as int)),
        decreases count - done,
    {
        crate::wire::put_bytes(&mut out, chunks[done].as_slice());
        proof {
            lemma_joined_push(all.take(done as int), all[done as int]);
            assert(all.take(done + 1) =~= all.take(done as int).push(all[done as int]));
        }
        done = done + 1;
    }
    proof {
        assert(all.take(count as int) =~= all);
    }
    out
}

/// What a read on the connection came back with.
#[derive(Debug, PartialEq, Eq)]
pub enum ReadEvent {
    /// These bytes arrived.
    Data(Vec<u8>),
    /// The peer closed the connection in an orderly way.
    Closed,
    /// The read timed out or the connection was reset.
    Interrupted,
}

/// The state of reading exactly as many bytes as a header declared.
pub struct ReceiverView {
    /// The number of bytes that are to arrive in all.
    pub wanted: nat,
    /// The most that is asked of the connection at once.
    pub buffer: nat,
    /// What has arrived so far.
    pub got: Seq<u8>,
}

impl ReceiverView {
    /// What holds of every receiver: its buffer holds something, and no more
    /// has arrived than was declared.
    pub open spec fn wf(self) -> bool {
        self.buffer > 0 && self.got.len() <= self.wanted
    }

    /// The state before anything has arrived.
    pub open spec fn fresh(wanted: nat, buffer: nat) -> ReceiverView {
        ReceiverView { wanted, buffer, got: Seq::empty() }
    }

    /// The number of bytes to ask the connection for next: what is still
    /// missing, but no more than the buffer holds. Zero when all has arrived.
    pub open spec fn next_read(self) -> nat {
        if self.wanted - self.got.len() <= self.buffer {
            (self.wanted - self.got.len()) as nat
        } else {
            self.buffer
        }
    }

    /// Whether every byte has arrived.
    pub open spec fn complete(self) -> bool {
        self.got.len() == self.wanted
    }

    /// The state after `chunk` came back from a read of `next_read()` bytes. A
    /// short chunk is kept and the rest asked for again; an empty one while
    /// bytes are missing means that the peer has closed; a chunk longer than
    /// what was asked for is refused.
    pub open spec fn after_data(self, chunk: Seq<u8>) -> Result<ReceiverView, TransportError> {
        if chunk.len() > self.next_read() {
            Err(TransportError::Overrun)
        } else if chunk.len() == 0 && !self.complete() {
            Err(TransportError::PeerClosed)
        } else {
            Ok(ReceiverView { got: self.got + chunk, ..self })
        }
    }

    /// The state after each of `chunks` came back from a read, in their order.
    pub open spec fn after_all(self, chunks: Seq<Seq<u8>>) -> Result<ReceiverView, TransportError>
        decreases chunks.len(),
    {
        if chunks.len() == 0 {
            Ok(self)
        } else {
            match self.after_data(chunks[0]) {
                Ok(next) => next.after_all(chunks.drop_first()),
                Err(fault) => Err(fault),
            }
        }
    }
}

/// A receiver that is handed the chunks of `bytes`, cut by a sender with a
/// buffer no larger than its own, ends with exactly `bytes`: the size of either
/// buffer changes nothing in what arrives.
pub proof fn lemma_receive_chunks(state: ReceiverView, bytes: Seq<u8>, cut: nat)
    requires
        0 < cut <= state.buffer,
        state.got.len() + bytes.len() == state.wanted,
    ensures
        state.after_all(chunks_of(bytes, cut)) == Ok::<ReceiverView, TransportError>(
            ReceiverView { got: state.got + bytes, ..state },
        ),
    decreases bytes.len(),
{
    let chunks = chunks_of(bytes, cut);
    if bytes.len() == 0 {
        assert(state.got + bytes =~= state.got);
    } else if bytes.len() <= cut {
        let next = state.after_data(bytes)->Ok_0;
        assert(chunks.drop_first() =~= Seq::<Seq<u8>>::empty());
        assert(next.after_all(chunks.drop_first()) == Ok::<ReceiverView, TransportError>(next));
    } else {
        let head = bytes.take(cut as int);
        let tail = bytes.skip(cut as int);
        let next = ReceiverView { got: state.got + head, ..state };
        assert(chunks.drop_first() =~= chunks_of(tail, cut));
        lemma_receive_chunks(next, tail, cut);
        assert((state.got + head) + tail =~= state.got + bytes);
    }
}

/// Reads exactly as many bytes as were declared, in reads of at most one
/// buffer each.
pub struct Receiver {
    wanted: usize,
    buffer_size: usize,
    got: Vec<u8>,
}

impl View for Receiver {
    type V = ReceiverView;

    closed spec fn view(&self) -> ReceiverView {
        ReceiverView { wanted: self.wanted as nat, buffer: self.buffer_size as nat, got: self.got@ }
    }
}

impl Receiver {
    /// A receiver for `length` bytes. A buffer of no bytes is refused.
    pub fn new(length: usize, buffer_size: usize) -> (made: Result<Receiver, TransportError>)
        ensures
            buffer_size == 0 ==> (made matches Err(fault) && fault == TransportError::ZeroBuffer),
            buffer_size > 0 ==> (made matches Ok(receiver) && receiver@.wf() && receiver@
                == ReceiverView::fresh(length as nat, buffer_size as nat)),
    {
        if buffer_size == 0 {
            Err(TransportError::ZeroBuffer)
        } else {
            Ok(Receiver { wanted: length, buffer_size, got: Vec::new() })
        }
    }

    /// The number of bytes to ask the connection for next.
    pub fn next_read(&self) -> (count: usize)
        requires
            self@.wf(),
        ensures
            count == self@.next_read(),
            count <= self@.buffer,
            count == 0 <==> self@.complete(),
    {
        let missing: usize = self.wanted - self.got.len();
        if missing <= self.buffer_size {
            missing
        } else {
            self.buffer_size
        }
    }

    /// Whether every byte has arrived.
    pub fn is_complete(&self) -> (complete: bool)
        ensures
            complete == self@.complete(),
    {
        self.got.len() == self.wanted
    }

    /// Takes in what a read came back with. On success tells whether the
    /// transfer is now complete. On failure nothing is taken in: a close while
    /// bytes are missing is `PeerClosed`, a timeout or reset `Interrupted`, more
    /// bytes than were asked for `Overrun`.
    pub fn accept(&mut self, event: ReadEvent) -> (progress: Result<bool, TransportError>)
        requires
            old(self)@.wf(),
        ensures
            final(self)@.wf(),
            match event {
                ReadEvent::Data(chunk) => match old(self)@.after_data(chunk@) {
                    Ok(next) => final(self)@ == next && progress == Ok::<bool, TransportError>(
                        next.complete(),
                    ),
                    Err(fault) => final(self)@ == old(self)@ && progress == Err::<
                        bool,
                        TransportError,
                    >(fault),
                },
                ReadEvent::Closed => final(self)@ == old(self)@ && progress == (if old(
                    self,
                )@.complete() {
                    Ok::<bool, TransportError>(true)
                } else {
                    Err::<bool, TransportError>(TransportError::PeerClosed)
                }),
                ReadEvent::Interrupted => final(self)@ == old(self)@ && progress == Err::<
                    bool,
                    TransportError,
                >(TransportError::Interrupted),
            },
    {
        match event {
            ReadEvent::Data(chunk) => {
                let asked: usize = self.next_read();
                if chunk.len() > asked {
                    Err(TransportError::Overrun)
                } else if chunk.len() == 0 && asked > 0 {
                    Err(TransportError::PeerClosed)
                } else {
                    crate::wire::put_bytes(&mut self.got, chunk.as_slice());
                    Ok(self.got.len() == self.wanted)
                }
            },
            ReadEvent::Closed => {
                if self.got.len() == self.wanted {
                    Ok(true)
                } else {
                    Err(TransportError::PeerClosed)
                }
            },
            ReadEvent::Interrupted => Err(TransportError::Interrupted),
        }
    }

    /// What has arrived, once all of it has: exactly as many bytes as were
    /// declared. While bytes are missing there is nothing to hand out.
    pub fn into_bytes(self) -> (bytes: Option<Vec<u8>>)
        ensures
            self@.complete() ==> (bytes matches Some(all) && all@ == self@.got && all@.len()
                == self@.wanted),
            !self@.complete() ==> bytes is None,
    {
        if self.got.len() == self.wanted {
            Some(self.got)
        } else {
            None
        }
    }
}

/// The state of writing all the bytes of one file.
pub struct SenderView {
    /// The bytes that are to leave.
    pub data: Seq<u8>,
    /// The most that is handed to the connection at once.
    pub buffer: nat,
    /// How many bytes the connection has taken.
    pub sent: nat,
}

impl SenderView {
    /// What holds of every sender: its buffer holds something, and no more has
    /// left than there is.
    pub open spec fn wf(self) -> bool {
        self.buffer > 0 && self.sent <= self.data.len()
    }

    /// The state before anything has left.
    pub open spec fn fresh(data: Seq<u8>, buffer: nat) -> SenderView {
        SenderView { data, buffer, sent: 0 }
    }

    /// Whether every byte has left.
    pub open spec fn complete(self) -> bool {
        self.sent == self.data.len()
    }

    /// The chunk to hand to the connection next: what has not left yet, but
    /// no more than the buffer holds.
    pub open spec fn pending(self) -> Seq<u8> {
        if self.data.len() - self.sent <= self.buffer {
            self.data.skip(self.sent as int)
        } else {
            self.data.subrange(self.sent as int, (self.sent + self.buffer) as int)
        }
    }

    /// The state after the connection took `written` bytes of the pending
    /// chunk. What it did not take stays pending; a connection that takes
    /// nothing while bytes are left has closed; one that claims more than it
    /// was handed is refused.
    pub open spec fn after_write(self, written: nat) -> Result<SenderView, TransportError> {
        if written > self.pending().len() {
            Err(TransportError::Overrun)
        } else if written == 0 && !self.complete() {
            Err(TransportError::PeerClosed)
        } else {
            Ok(SenderView { sent: self.sent + written, ..self })
        }
    }
}

/// While bytes are left, the pending chunk is the first of the chunks that
/// what is left is cut into; taken whole, it leaves the rest of those chunks
/// to come.
pub proof fn lemma_pending_is_next_chunk(state: SenderView)
    requires
        state.wf(),
        !state.complete(),
    ensures
        chunks_of(state.data.skip(state.sent as int), state.buffer).len() > 0,
        state.pending() == chunks_of(state.data.skip(state.sent as int), state.buffer)[0],
        state.after_write(state.pending().len()) matches Ok(next) && next.wf() && chunks_of(
            next.data.skip(next.sent as int),
            next.buffer,
        ) == chunks_of(state.data.skip(state.sent as int), state.buffer).drop_first(),
{
    let left = state.data.skip(state.sent as int);
    let next = state.after_write(state.pending().len())->Ok_0;
    if left.len() <= state.buffer {
        assert(next.data.skip(next.sent as int) =~= Seq::<u8>::empty());
        assert(chunks_of(left, state.buffer).drop_first() =~= Seq::<Seq<u8>>::empty());
    } else {
        assert(state.pending() =~= left.take(state.buffer as int));
        assert(next.data.skip(next.sent as int) =~= left.skip(state.buffer as int));
        assert(chunks_of(left, state.buffer).drop_first() =~= chunks_of(
            left.skip(state.buffer as int),
            state.buffer,
        ));
    }
}

/// Writes all the bytes of one file, in writes of at most one buffer each.
pub struct Sender {
    data: Vec<u8>,
    buffer_size: usize,
    sent: usize,
}

impl View for Sender {
    type V = SenderView;

    closed spec fn view(&self) -> SenderView {
        SenderView { data: self.data@, buffer: self.buffer_size as nat, sent: self.sent as nat }
    }
}

impl Sender {
    /// A sender for `data`. A buffer of no bytes is refused.
    pub fn new(data: Vec<u8>, buffer_size: usize) -> (made: Result<Sender, TransportError>)
        ensures
            buffer_size == 0 ==> (made matches Err(fault) && fault == TransportError::ZeroBuffer),
            buffer_size > 0 ==> (made matches Ok(sender) && sender@.wf() && sender@
                == SenderView::fresh(data@, buffer_size as nat)),
    {
        if buffer_size == 0 {
            Err(TransportError::ZeroBuffer)
        } else {
            Ok(Sender { data, buffer_size, sent: 0 })
        }
    }

    /// Whether every byte has left.
    pub fn is_complete(&self) -> (complete: bool)
        ensures
            complete == self@.complete(),
    {
        self.sent == self.data.len()
    }

    /// The chunk to hand to the connection next; empty when all has left.
    pub fn next_chunk(&self) -> (chunk: &[u8])
        requires
            self@.wf(),
        ensures
            chunk@ == self@.pending(),
            chunk@.len() <= self@.buffer,
            chunk@.len() == 0 <==> self@.complete(),
    {
        let total: usize = self.data.len();
        let end: usize = if total - self.sent <= self.buffer_size {
            total
        } else {
            self.sent + self.buffer_size
        };
        slice_subrange(self.data.as_slice(), self.sent, end)
    }

    /// Takes in how many bytes of the pending chunk the connection took. On
    /// success tells whether all has left. On failure nothing is taken in.
    pub fn wrote(&mut self, written: usize) -> (progress: Result<bool, TransportError>)
        requires
            old(self)@.wf(),
        ensures
            final(self)@.wf(),
            match old(self)@.after_write(written as nat) {
                Ok(next) => final(self)@ == next && progress == Ok::<bool, TransportError>(
                    next.complete(),
                ),
                Err(fault) => final(self)@ == old(self)@ && progress == Err::<
                    bool,
                    TransportError,
                >(fault),
            },
    {
        let total: usize = self.data.len();
        let handed: usize = self.next_chunk().len();
        assert(handed <= total - self.sent);
        if written > handed {
            Err(TransportError::Overrun)
        } else if written == 0 && handed > 0 {
            Err(TransportError::PeerClosed)
        } else {
            self.sent = self.sent + written;
            Ok(self.sent == total)
        }
    }
}

} // verus!
