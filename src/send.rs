//! Decisions of the sender loop: each read of the input becomes exactly one
//! datagram, unchanged, until a read returns nothing.
//!
//! This is the chunk-oriented policy: datagram boundaries are those of the
//! reads, not of lines in the input.

use vstd::prelude::*;

verus! {

/// Capacity of the buffer that the input is read into.
pub const SEND_BUFFER_LEN: usize = 65536;

/// What the sender does after a read.
#[derive(Clone, Copy, Debug, PartialEq, Eq, Structural)]
pub enum SendAction {
    /// The input is exhausted: stop, successfully.
    Finish,
    /// Send the first `len` bytes of the buffer as one datagram.
    Send { len: usize },
}

/// Nothing read means the end of the input; otherwise what was read is sent.
pub open spec fn action_for(n: usize) -> SendAction {
    if n == 0 {
        SendAction::Finish
    } else {
        SendAction::Send { len: n }
    }
}

/// The action after a read that filled `n` bytes of the buffer.
pub fn on_read(n: usize) -> (r: SendAction)
    ensures
        r == action_for(n),
{
    if n == 0 {
        SendAction::Finish
    } else {
        SendAction::Send { len: n }
    }
}

/// The datagrams sent for a run of reads: each read's bytes, as the actions
/// direct, until the first action that finishes (no read is longer than
/// memory can hold).
pub open spec fn sent(reads: Seq<Seq<u8>>) -> Seq<Seq<u8>>
    decreases reads.len(),
{
    if reads.len() == 0 || reads[0].len() > usize::MAX {
        seq![]
    } else {
        match action_for(reads[0].len() as usize) {
            SendAction::Finish => seq![],
            SendAction::Send { len } => seq![reads[0].take(len as int)] + sent(reads.drop_first()),
        }
    }
}

/// Every read before the end of the input gives exactly one datagram, with
/// its bytes unchanged and in order: no read is split or merged with another,
/// and nothing is sent after the end.
pub proof fn lemma_one_datagram_per_read(reads: Seq<Seq<u8>>, m: int)
    requires
        0 <= m < reads.len(),
        reads[m].len() == 0,
        forall|k: int| 0 <= k < m ==> 0 < (#[trigger] reads[k]).len() <= SEND_BUFFER_LEN,
    ensures
        sent(reads) == reads.take(m),
    decreases m,
{
    if m == 0 {
        assert(reads.take(0) =~= Seq::<Seq<u8>>::empty());
    } else {
        lemma_one_datagram_per_read(reads.drop_first(), m - 1);
        assert(reads[0].take(reads[0].len() as int) =~= reads[0]);
        assert(seq![reads[0]] + reads.drop_first().take(m - 1) =~= reads.take(m));
    }
}

} // verus!
