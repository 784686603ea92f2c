//! What reading a stream one byte at a time yields.

use vstd::prelude::*;

verus! {

/// Why a read or a write failed, as far as it matters what is done next.
#[derive(Clone, Copy, Debug, PartialEq, Eq, Structural)]
pub enum Fault {
    Interrupted,
    WouldBlock,
    InvalidInput,
    Other,
}

/// What came of one read into a buffer.
#[derive(Debug)]
pub enum ReadResult {
    /// So many bytes were read; none at the end of the stream.
    Count(usize),
    /// The read failed, with a text that says why.
    Failed(Fault, String),
}

/// One item of a stream that is read byte by byte.
#[derive(Debug)]
pub enum Item {
    Byte(u8),
    /// The stream has nothing more to give.
    End,
    /// The stream failed, with a text that says why.
    Failed(String),
}

impl Item {
    /// Another item like this one.
    pub fn copied(&self) -> (item: Item)
        ensures
            item == *self,
    {
        match self {
            Item::Byte(b) => Item::Byte(*b),
            Item::End => Item::End,
            Item::Failed(text) => Item::Failed(text.clone()),
        }
    }
}

/// One read into a one-byte buffer: what came of it, and what the buffer holds after it.
pub struct ByteRead {
    pub result: ReadResult,
    pub byte: u8,
}

impl ByteRead {
    /// Whether the read was interrupted, so that it is to be made again.
    pub open spec fn interrupted(self) -> bool {
        self.result matches ReadResult::Failed(fault, _) && fault == Fault::Interrupted
    }

    /// The item that a read yields that was not interrupted.
    pub open spec fn item(self) -> Item {
        match self.result {
            ReadResult::Count(n) => if n == 0 {
                Item::End
            } else {
                Item::Byte(self.byte)
            },
            ReadResult::Failed(_, text) => Item::Failed(text),
        }
    }

    /// The item that the read yields, if any.
    pub open spec fn yields(self) -> Option<Item> {
        if self.interrupted() {
            None
        } else {
            Some(self.item())
        }
    }
}

/// The item that a read into a one-byte buffer yields, where `byte` is what the buffer holds
/// after it. There is none where the read was interrupted: it is to be made again.
pub fn next_item(result: ReadResult, byte: u8) -> (item: Option<Item>)
    ensures
        item == (ByteRead { result, byte }).yields(),
        match result {
            ReadResult::Count(n) => if n == 0 {
                item == Some(Item::End)
            } else {
                item == Some(Item::Byte(byte))
            },
            ReadResult::Failed(fault, text) => if fault == Fault::Interrupted {
                item is None
            } else {
                item == Some(Item::Failed(text))
            },
        },
{
    match result {
        ReadResult::Count(n) => if n == 0 {
            Some(Item::End)
        } else {
            Some(Item::Byte(byte))
        },
        ReadResult::Failed(fault, text) => if fault == Fault::Interrupted {
            None
        } else {
            Some(Item::Failed(text))
        },
    }
}

/// The items of a stream on which `reads` were made, one after the other: each read adds the
/// item that it yields.
pub open spec fn items_of(reads: Seq<ByteRead>) -> Seq<Item>
    decreases reads.len(),
{
    if reads.len() == 0 {
        seq![]
    } else {
        match reads.last().yields() {
            Some(item) => items_of(reads.drop_last()).push(item),
            None => items_of(reads.drop_last()),
        }
    }
}

/// Whether a read yields an item, and which one, is told by what came of it: a byte that was
/// read is yielded as it is, the end of the stream and a failure each yield their own item,
/// and an interrupted read yields none.
pub proof fn law_read_yields_what_came(result: ReadResult, byte: u8)
    ensures
        (ByteRead { result, byte }).yields() is None <==> (result matches ReadResult::Failed(
            fault,
            _,
        ) && fault == Fault::Interrupted),
        match result {
            ReadResult::Count(n) => (ByteRead { result, byte }).yields() == Some(
                if n > 0 {
                    Item::Byte(byte)
                } else {
                    Item::End
                },
            ),
            ReadResult::Failed(fault, text) => fault != Fault::Interrupted ==> (ByteRead {
                result,
                byte,
            }).yields() == Some(Item::Failed(text)),
        },
{
}

/// Bytes that are read one by one come through unchanged, in their order, none left out.
pub proof fn law_bytes_come_through_unchanged(reads: Seq<ByteRead>)
    requires
        forall|k: int|
            0 <= k < reads.len() ==> (#[trigger] reads[k]).result == ReadResult::Count(1),
    ensures
        items_of(reads).len() == reads.len(),
        forall|k: int|
            0 <= k < reads.len() ==> #[trigger] items_of(reads)[k] == Item::Byte(reads[k].byte),
    decreases reads.len(),
{
    if reads.len() > 0 {
        law_bytes_come_through_unchanged(reads.drop_last());
        assert(reads[reads.len() - 1].result == ReadResult::Count(1));
    }
}

/// The items of a stream are those of the reads that were not interrupted, in their order.
pub proof fn law_interrupted_reads_leave_no_item(reads: Seq<ByteRead>)
    ensures
        items_of(reads) == reads.filter(|read: ByteRead| !read.interrupted()).map_values(
            |read: ByteRead| read.item(),
        ),
    decreases reads.len(),
{
    reveal(Seq::filter);
    let kept = |read: ByteRead| !read.interrupted();
    let item = |read: ByteRead| read.item();
    if reads.len() > 0 {
        law_interrupted_reads_leave_no_item(reads.drop_last());
        if !reads.last().interrupted() {
            let before = reads.drop_last().filter(kept);
            assert(before.push(reads.last()).map_values(item) =~= before.map_values(item).push(
                reads.last().item(),
            ));
        }
    }
    assert(items_of(reads) =~= reads.filter(kept).map_values(item));
}

} // verus!
