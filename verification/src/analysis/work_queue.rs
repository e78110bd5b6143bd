use vstd::prelude::*;

verus! {

/// The sending end of a channel of `crossbeam_channel`.
#[verifier::external_type_specification]
#[verifier::external_body]
#[verifier::reject_recursive_types(T)]
pub struct ExSender<T>(crossbeam_channel::Sender<T>);

/// The receiving end of a channel of `crossbeam_channel`.
#[verifier::external_type_specification]
#[verifier::external_body]
#[verifier::reject_recursive_types(T)]
pub struct ExReceiver<T>(crossbeam_channel::Receiver<T>);

/// The messages that have been sent into the channel of `receiver` and not
/// yet received: where a piece of work starts in the list of cards, the mask
/// of the cards chosen so far, how many cards it still needs, and the slot of
/// its first result.
pub uninterp spec fn channel_items(
    receiver: crossbeam_channel::Receiver<(usize, u64, usize, usize)>,
) -> Seq<(usize, u64, usize, usize)>;

/// A queue of pieces of work, held in an unbounded channel of which the
/// queue owns both ends.
pub(crate) struct WorkQueue {
    sender: crossbeam_channel::Sender<(usize, u64, usize, usize)>,
    receiver: crossbeam_channel::Receiver<(usize, u64, usize, usize)>,
}

impl WorkQueue {
    /// The pieces of work that wait in the queue.
    pub closed spec fn pending(self) -> Seq<(usize, u64, usize, usize)> {
        channel_items(self.receiver)
    }

    /// Calls `crossbeam_channel::unbounded`, which makes a channel that
    /// holds no message.
    #[verifier::external_body]
    fn open() -> (ends: (
        crossbeam_channel::Sender<(usize, u64, usize, usize)>,
        crossbeam_channel::Receiver<(usize, u64, usize, usize)>,
    ))
        ensures
            channel_items(ends.1) == Seq::<(usize, u64, usize, usize)>::empty(),
    {
        crossbeam_channel::unbounded()
    }

    /// An empty queue.
    pub(crate) fn new() -> (queue: WorkQueue)
        ensures
            queue.pending() == Seq::<(usize, u64, usize, usize)>::empty(),
    {
        let (sender, receiver) = WorkQueue::open();
        WorkQueue { sender, receiver }
    }

    /// Calls `crossbeam_channel::Sender::send`. On an unbounded channel it
    /// does not wait, and it fails only when every receiver is gone; the
    /// queue holds a receiver of its own channel, so the message is added.
    #[verifier::external_body]
    pub(crate) fn push(&mut self, item: (usize, u64, usize, usize)) -> (sent: bool)
        ensures
            sent,
            final(self).pending() == old(self).pending().push(item),
    {
        self.sender.send(item).is_ok()
    }

    /// Calls `crossbeam_channel::Receiver::try_recv`, which does not wait:
    /// it takes a message out of the channel, and fails only where the
    /// channel holds none.
    #[verifier::external_body]
    pub(crate) fn pop(&mut self) -> (item: Option<(usize, u64, usize, usize)>)
        ensures
            match item {
                Some(taken) => exists|i: int|
                    0 <= i < old(self).pending().len() && #[trigger] old(self).pending()[i]
                        == taken && final(self).pending() == old(self).pending().remove(i),
                None => old(self).pending().len() == 0 && final(self).pending() == old(
                    self,
                ).pending(),
            },
    {
        match self.receiver.try_recv() {
            Ok(item) => Some(item),
            Err(_) => None,
        }
    }
}

} // verus!
