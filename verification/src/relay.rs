//! One direction of a tunnel: what was read from one stream is written to the other.

use vstd::prelude::*;

use crate::stream::{Fault, ReadResult};

verus! {

/// What a relay waits for.
#[derive(Clone, Copy, Debug, PartialEq, Eq, Structural)]
pub enum Waiting {
    /// A read.
    Read,
    /// The write of what was read last.
    Write,
    /// Nothing: the relay has stopped.
    Nothing,
}

/// What is to be done behind a read.
#[derive(Debug)]
pub enum Turn<'b> {
    /// These bytes are to be written.
    Write(&'b [u8]),
    /// The read is to be made again.
    Retry,
    /// The stream has ended, and the relay with it.
    Closed,
    /// The stream has failed, and the relay with it.
    Broken,
}

/// One direction of a tunnel.
pub struct Relay {
    waiting: Waiting,
    /// The bytes that were read.
    received: Ghost<Seq<u8>>,
    /// The bytes of them that were written.
    sent: Ghost<Seq<u8>>,
}

/// Whether `b` begins with `a`.
pub open spec fn begins_with(b: Seq<u8>, a: Seq<u8>) -> bool {
    a.len() <= b.len() && b.take(a.len() as int) == a
}

/// Whether a read that came to this is made again.
pub open spec fn is_retried(result: ReadResult) -> bool {
    result matches ReadResult::Failed(fault, _) && (fault == Fault::WouldBlock || fault
        == Fault::InvalidInput)
}

/// Whether a read that came to this ends the relay: the stream has ended, or it has failed in
/// a way that is not tried again.
pub open spec fn is_last(result: ReadResult) -> bool {
    match result {
        ReadResult::Count(n) => n == 0,
        ReadResult::Failed(_, _) => !is_retried(result),
    }
}

/// The bytes that were read, where `buffer` is what was read into.
pub open spec fn chunk(buffer: Seq<u8>, result: ReadResult) -> Seq<u8> {
    match result {
        ReadResult::Count(n) => buffer.take(n as int),
        ReadResult::Failed(_, _) => seq![],
    }
}

/// What a relay has come to.
pub struct RelayView {
    pub waiting: Waiting,
    /// The bytes that were read.
    pub received: Seq<u8>,
    /// The bytes of them that were written, by writes that succeeded.
    pub sent: Seq<u8>,
}

impl RelayView {
    /// What a read makes of the relay: what was read is to be written before the next read.
    pub open spec fn after_read(self, buffer: Seq<u8>, result: ReadResult) -> RelayView {
        RelayView {
            waiting: if is_retried(result) {
                Waiting::Read
            } else if is_last(result) {
                Waiting::Nothing
            } else {
                Waiting::Write
            },
            received: self.received + chunk(buffer, result),
            sent: self.sent,
        }
    }

    /// What a write makes of the relay: one that succeeds has written all that was read.
    pub open spec fn after_write(self, written: bool) -> RelayView {
        if written {
            RelayView { waiting: Waiting::Read, received: self.received, sent: self.received }
        } else {
            RelayView { waiting: Waiting::Nothing, ..self }
        }
    }
}

impl View for Relay {
    type V = RelayView;

    closed spec fn view(&self) -> RelayView {
        RelayView { waiting: self.waiting, received: self.received@, sent: self.sent@ }
    }
}

impl Relay {
    /// What holds of every relay: what was written is what was read, from the first byte on, in
    /// the same order; and before a read nothing is left to write.
    pub open spec fn wf(self) -> bool {
        &&& begins_with(self@.received, self@.sent)
        &&& self@.waiting == Waiting::Read ==> self@.sent == self@.received
    }

    /// A relay that waits for its first read.
    pub fn new() -> (relay: Relay)
        ensures
            relay.wf(),
            relay@ == fresh(),
    {
        let relay = Relay {
            waiting: Waiting::Read,
            received: Ghost(Seq::empty()),
            sent: Ghost(Seq::empty()),
        };
        assert(relay.received@.take(0) =~= relay.sent@);
        relay
    }

    /// Goes on behind a read into `buffer`. A read that would block, or that was given what it
    /// cannot take, is made again; any other failure ends the relay.
    pub fn after_read<'b>(&mut self, buffer: &'b [u8], result: &ReadResult) -> (turn: Turn<'b>)
        requires
            old(self).wf(),
            old(self)@.waiting == Waiting::Read,
            result matches ReadResult::Count(n) ==> n <= buffer@.len(),
        ensures
            final(self).wf(),
            final(self)@ == old(self)@.after_read(buffer@, *result),
            final(self)@.sent == old(self)@.sent,
            final(self)@.received == match turn {
                Turn::Write(bytes) => old(self)@.received + bytes@,
                _ => old(self)@.received,
            },
            final(self)@.waiting == match turn {
                Turn::Write(_) => Waiting::Write,
                Turn::Retry => Waiting::Read,
                Turn::Closed | Turn::Broken => Waiting::Nothing,
            },
            match *result {
                ReadResult::Count(n) => if n == 0 {
                    turn is Closed
                } else {
                    turn matches Turn::Write(bytes) && bytes@ == buffer@.take(n as int)
                },
                ReadResult::Failed(fault, _) => if fault == Fault::WouldBlock || fault
                    == Fault::InvalidInput {
                    turn is Retry
                } else {
                    turn is Broken
                },
            },
    {
        let ghost all = self.received@ + chunk(buffer@, *result);
        proof {
            assert(all.take(self.sent@.len() as int) =~= self.sent@);
            assert(chunk(buffer@, *result).len() == 0 ==> all =~= self.received@);
        }
        match result {
            ReadResult::Count(n) => {
                let n: usize = *n;
                if n == 0 {
                    self.waiting = Waiting::Nothing;
                    return Turn::Closed;
                }
                let bytes = vstd::slice::slice_subrange(buffer, 0, n);
                assert(bytes@ =~= buffer@.take(n as int));
                self.received = Ghost(all);
                self.waiting = Waiting::Write;
                Turn::Write(bytes)
            },
            ReadResult::Failed(fault, _) => {
                if *fault == Fault::WouldBlock || *fault == Fault::InvalidInput {
                    return Turn::Retry;
                }
                self.waiting = Waiting::Nothing;
                Turn::Broken
            },
        }
    }

    /// Goes on behind a write, and says whether to read again: a write that fails ends the relay.
    pub fn after_write(&mut self, written: bool) -> (more: bool)
        requires
            old(self).wf(),
            old(self)@.waiting == Waiting::Write,
        ensures
            final(self).wf(),
            final(self)@ == old(self)@.after_write(written),
            final(self)@.received == old(self)@.received,
            final(self)@.sent == if written {
                old(self)@.received
            } else {
                old(self)@.sent
            },
            final(self)@.waiting == if written {
                Waiting::Read
            } else {
                Waiting::Nothing
            },
            more == written,
    {
        if written {
            self.sent = Ghost(self.received@);
            self.waiting = Waiting::Read;
            assert(self.received@.take(self.sent@.len() as int) =~= self.sent@);
        } else {
            self.waiting = Waiting::Nothing;
        }
        written
    }
}

/// A tunnel changes nothing: every byte that was written is the byte that was read at that
/// place, and whenever the next read is due all that was read has been written.
pub proof fn law_relay_is_faithful(relay: Relay)
    requires
        relay.wf(),
    ensures
        relay@.sent.len() <= relay@.received.len(),
        forall|k: int| 0 <= k < relay@.sent.len() ==> relay@.sent[k] == relay@.received[k],
        relay@.waiting == Waiting::Read ==> relay@.sent == relay@.received,
{
    assert forall|k: int| 0 <= k < relay@.sent.len() implies relay@.sent[k]
        == relay@.received[k] by {
        assert(relay@.received.take(relay@.sent.len() as int)[k] == relay@.received[k]);
    }
}

/// A relay that nothing was read for.
pub open spec fn fresh() -> RelayView {
    RelayView { waiting: Waiting::Read, received: seq![], sent: seq![] }
}

/// One read: what came of it, and what the buffer holds after it.
pub struct ChunkRead {
    pub buffer: Seq<u8>,
    pub result: ReadResult,
}

impl ChunkRead {
    /// The bytes that were read.
    pub open spec fn chunk(self) -> Seq<u8> {
        chunk(self.buffer, self.result)
    }
}

/// What a relay comes to over reads that are made one after the other as long as it waits for
/// one. Of the writes between them, `writes` says in their order whether they succeed; where
/// it says no more, the next write is still waited for.
pub open spec fn relayed(relay: RelayView, reads: Seq<ChunkRead>, writes: Seq<bool>) -> RelayView
    decreases reads.len(),
{
    if reads.len() == 0 || relay.waiting != Waiting::Read {
        relay
    } else {
        let read = relay.after_read(reads[0].buffer, reads[0].result);
        if read.waiting != Waiting::Write {
            relayed(read, reads.drop_first(), writes)
        } else if writes.len() == 0 {
            read
        } else {
            relayed(read.after_write(writes[0]), reads.drop_first(), writes.drop_first())
        }
    }
}

/// How many reads come before the first one that ends the relay.
pub open spec fn reads_before_last(reads: Seq<ChunkRead>) -> nat
    decreases reads.len(),
{
    if reads.len() == 0 || is_last(reads[0].result) {
        0
    } else {
        1 + reads_before_last(reads.drop_first())
    }
}

/// How many writes succeed before the first one that fails.
pub open spec fn writes_before_failure(writes: Seq<bool>) -> nat
    decreases writes.len(),
{
    if writes.len() == 0 || !writes[0] {
        0
    } else {
        1 + writes_before_failure(writes.drop_first())
    }
}

/// The reads that are not made again.
pub open spec fn without_retries(reads: Seq<ChunkRead>) -> Seq<ChunkRead> {
    reads.filter(|read: ChunkRead| !is_retried(read.result))
}

/// The chunks that were read up to the end of the stream, or up to the first failure that is
/// not tried again.
pub open spec fn chunks(reads: Seq<ChunkRead>) -> Seq<Seq<u8>> {
    without_retries(reads.take(reads_before_last(reads) as int)).map_values(
        |read: ChunkRead| read.chunk(),
    )
}

/// The chunks one behind the other.
pub open spec fn joined(list: Seq<Seq<u8>>) -> Seq<u8>
    decreases list.len(),
{
    if list.len() == 0 {
        seq![]
    } else {
        list[0] + joined(list.drop_first())
    }
}

/// How many chunks are written: all of them, or those before the first write that fails.
pub open spec fn chunks_sent(reads: Seq<ChunkRead>, writes: Seq<bool>) -> int {
    if writes_before_failure(writes) < chunks(reads).len() {
        writes_before_failure(writes) as int
    } else {
        chunks(reads).len() as int
    }
}

proof fn lemma_without_retries_step(reads: Seq<ChunkRead>)
    ensures
        reads.len() == 0 ==> without_retries(reads) == Seq::<ChunkRead>::empty(),
        reads.len() > 0 && is_retried(reads[0].result) ==> without_retries(reads)
            == without_retries(reads.drop_first()),
        reads.len() > 0 && !is_retried(reads[0].result) ==> without_retries(reads) == seq![
            reads[0],
        ] + without_retries(reads.drop_first()),
{
    reveal(Seq::filter);
    if reads.len() > 0 {
        let rest = reads.drop_first();
        assert(reads =~= seq![reads[0]] + rest);
        rest.lemma_filter_prepend(reads[0], |read: ChunkRead| !is_retried(read.result));
        assert(Seq::<ChunkRead>::empty() + without_retries(rest) =~= without_retries(rest));
    }
}

proof fn lemma_reads_before_last(reads: Seq<ChunkRead>)
    ensures
        reads_before_last(reads) <= reads.len(),
    decreases reads.len(),
{
    if reads.len() > 0 {
        lemma_reads_before_last(reads.drop_first());
    }
}

proof fn lemma_chunks_step(reads: Seq<ChunkRead>)
    ensures
        reads.len() == 0 || is_last(reads[0].result) ==> chunks(reads) == Seq::<Seq<u8>>::empty(),
        reads.len() > 0 && is_retried(reads[0].result) ==> chunks(reads) == chunks(
            reads.drop_first(),
        ),
        reads.len() > 0 && !is_last(reads[0].result) && !is_retried(reads[0].result) ==> chunks(
            reads,
        ) == seq![reads[0].chunk()] + chunks(reads.drop_first()),
{
    lemma_reads_before_last(reads);
    let n = reads_before_last(reads) as int;
    let kept = reads.take(n);
    lemma_without_retries_step(kept);
    if n == 0 {
        assert(chunks(reads) =~= Seq::<Seq<u8>>::empty());
    } else {
        let rest = reads.drop_first();
        lemma_reads_before_last(rest);
        assert(kept.drop_first() =~= rest.take(n - 1));
        if !is_retried(reads[0].result) {
            assert(chunks(reads) =~= seq![reads[0].chunk()] + chunks(rest));
        }
    }
}

/// The first chunk, and those behind it.
proof fn lemma_joined_step(first: Seq<u8>, list: Seq<Seq<u8>>, n: int)
    requires
        0 <= n <= list.len(),
    ensures
        joined((seq![first] + list).take(n + 1)) == first + joined(list.take(n)),
{
    let taken = (seq![first] + list).take(n + 1);
    assert(taken.drop_first() =~= list.take(n));
}

proof fn lemma_writes_before_failure(writes: Seq<bool>)
    ensures
        writes_before_failure(writes) <= writes.len(),
        (forall|k: int| 0 <= k < writes.len() ==> #[trigger] writes[k])
            ==> writes_before_failure(writes) == writes.len(),
    decreases writes.len(),
{
    if writes.len() > 0 {
        let rest = writes.drop_first();
        lemma_writes_before_failure(rest);
        if forall|k: int| 0 <= k < writes.len() ==> #[trigger] writes[k] {
            assert forall|k: int| 0 <= k < rest.len() implies #[trigger] rest[k] by {
                assert(writes[k + 1]);
            }
        }
    }
}

/// Whatever the writes come to, a relay sends the chunks that were read, one behind the other,
/// up to the first write that fails, and nothing from there on. With that write it stops, as
/// it does with the end of the stream or the first failure that is not tried again.
pub proof fn law_relay_sends_chunks_before_failure(
    relay: RelayView,
    reads: Seq<ChunkRead>,
    writes: Seq<bool>,
)
    requires
        relay.waiting == Waiting::Read,
        relay.sent == relay.received,
    ensures
        ({
            let end = relayed(relay, reads, writes);
            let list = chunks(reads);
            let n = chunks_sent(reads, writes);
            &&& end.sent == relay.sent + joined(list.take(n))
            &&& n == list.len() ==> {
                &&& end.received == end.sent
                &&& end.waiting == if reads_before_last(reads) == reads.len() {
                    Waiting::Read
                } else {
                    Waiting::Nothing
                }
            }
            &&& n < list.len() ==> {
                &&& end.received == relay.received + joined(list.take(n + 1))
                &&& end.waiting == if n < writes.len() {
                    Waiting::Nothing
                } else {
                    Waiting::Write
                }
            }
        }),
    decreases reads.len(),
{
    let list = chunks(reads);
    let n = chunks_sent(reads, writes);
    lemma_chunks_step(reads);
    lemma_writes_before_failure(writes);
    assert(relay.sent + joined(list.take(0)) =~= relay.sent);
    if reads.len() > 0 {
        let first = reads[0];
        let rest = reads.drop_first();
        let read = relay.after_read(first.buffer, first.result);
        if is_last(first.result) {
            assert(read.received =~= relay.received);
            assert(relayed(read, rest, writes) == read);
        } else if is_retried(first.result) {
            assert(read.received =~= relay.received);
            law_relay_sends_chunks_before_failure(read, rest, writes);
        } else {
            let behind = chunks(rest);
            lemma_joined_step(first.chunk(), behind, 0);
            assert(first.chunk() + joined(behind.take(0)) =~= first.chunk());
            if writes.len() > 0 && writes[0] {
                let next = read.after_write(true);
                let later = writes.drop_first();
                law_relay_sends_chunks_before_failure(next, rest, later);
                lemma_writes_before_failure(later);
                lemma_joined_step(first.chunk(), behind, n - 1);
                assert(relay.sent + joined(list.take(n)) =~= next.sent + joined(
                    behind.take(n - 1),
                ));
                if n < list.len() {
                    lemma_joined_step(first.chunk(), behind, n);
                    assert(relay.received + joined(list.take(n + 1)) =~= next.received + joined(
                        behind.take(n),
                    ));
                }
            } else if writes.len() > 0 {
                let next = read.after_write(false);
                assert(relayed(next, rest, writes.drop_first()) == next);
            }
        }
    }
}

/// Where every write succeeds, a relay sends the chunks that were read, one behind the other,
/// up to the end of the stream or the first failure that is not tried again; and it has
/// stopped there if there was one.
pub proof fn law_relay_sends_all_chunks(
    relay: RelayView,
    reads: Seq<ChunkRead>,
    writes: Seq<bool>,
)
    requires
        relay.waiting == Waiting::Read,
        relay.sent == relay.received,
        chunks(reads).len() <= writes.len(),
        forall|k: int| 0 <= k < writes.len() ==> #[trigger] writes[k],
    ensures
        relayed(relay, reads, writes).sent == relay.sent + joined(chunks(reads)),
        relayed(relay, reads, writes).received == relayed(relay, reads, writes).sent,
        relayed(relay, reads, writes).waiting == if reads_before_last(reads) == reads.len() {
            Waiting::Read
        } else {
            Waiting::Nothing
        },
{
    lemma_writes_before_failure(writes);
    law_relay_sends_chunks_before_failure(relay, reads, writes);
    assert(chunks(reads).take(chunks(reads).len() as int) =~= chunks(reads));
}

/// A relay that has stopped stays so: no read and no write that could follow changes what it
/// has come to.
pub proof fn law_stopped_relay_is_final(
    relay: RelayView,
    reads: Seq<ChunkRead>,
    writes: Seq<bool>,
    more_reads: Seq<ChunkRead>,
    more_writes: Seq<bool>,
)
    requires
        relayed(relay, reads, writes).waiting == Waiting::Nothing,
    ensures
        relayed(relay, reads + more_reads, writes + more_writes) == relayed(relay, reads, writes),
    decreases reads.len(),
{
    if reads.len() > 0 && relay.waiting == Waiting::Read {
        let rest = reads.drop_first();
        let read = relay.after_read(reads[0].buffer, reads[0].result);
        assert((reads + more_reads).drop_first() =~= rest + more_reads);
        if read.waiting != Waiting::Write {
            law_stopped_relay_is_final(read, rest, writes, more_reads, more_writes);
        } else {
            let later = writes.drop_first();
            assert((writes + more_writes).drop_first() =~= later + more_writes);
            let next = read.after_write(writes[0]);
            law_stopped_relay_is_final(next, rest, later, more_reads, more_writes);
        }
    }
}

/// What a relay comes to does not rest on the reads that are made again.
proof fn lemma_relayed_without_retries(
    relay: RelayView,
    reads: Seq<ChunkRead>,
    writes: Seq<bool>,
)
    ensures
        relayed(relay, reads, writes) == relayed(relay, without_retries(reads), writes),
    decreases reads.len(),
{
    lemma_without_retries_step(reads);
    if reads.len() > 0 && relay.waiting == Waiting::Read {
        let rest = reads.drop_first();
        let read = relay.after_read(reads[0].buffer, reads[0].result);
        if is_retried(reads[0].result) {
            assert(read.received =~= relay.received);
            assert(read == relay);
            lemma_relayed_without_retries(relay, rest, writes);
        } else {
            assert(without_retries(reads).drop_first() =~= without_retries(rest));
            lemma_relayed_without_retries(read, rest, writes);
            if writes.len() > 0 {
                let next = read.after_write(writes[0]);
                lemma_relayed_without_retries(next, rest, writes.drop_first());
            }
        }
    }
}

/// Reads that are made again change nothing of what a relay comes to, however many there are
/// and wherever they stand, and whatever the writes come to: over reads that differ in them
/// alone it is the same.
pub proof fn law_retried_reads_change_nothing(
    relay: RelayView,
    reads: Seq<ChunkRead>,
    others: Seq<ChunkRead>,
    writes: Seq<bool>,
)
    requires
        without_retries(reads) == without_retries(others),
    ensures
        relayed(relay, reads, writes) == relayed(relay, others, writes),
{
    lemma_relayed_without_retries(relay, reads, writes);
    lemma_relayed_without_retries(relay, others, writes);
}

} // verus!
