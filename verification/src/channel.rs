use vstd::prelude::*;

verus! {

/// Relies on `std::sync::mpsc::Sender`: the producer handle of an unbounded
/// in-process queue.
#[verifier::external_type_specification]
#[verifier::external_body]
#[verifier::reject_recursive_types(T)]
pub struct ExSender<T>(std::sync::mpsc::Sender<T>);

/// Relies on `std::sync::mpsc::SyncSender`: the producer handle of a bounded
/// in-process queue; its `send` blocks while the queue is full.
#[verifier::external_type_specification]
#[verifier::external_body]
#[verifier::reject_recursive_types(T)]
pub struct ExSyncSender<T>(std::sync::mpsc::SyncSender<T>);

/// Relies on `std::sync::mpsc::Receiver`: the consumer handle of an
/// in-process queue.
#[verifier::external_type_specification]
#[verifier::external_body]
#[verifier::reject_recursive_types(T)]
pub struct ExReceiver<T>(std::sync::mpsc::Receiver<T>);

/// Relies on `std::sync::mpsc::SendError`: the rejected value, handed back
/// when the receiving side of a queue is gone.
#[verifier::external_type_specification]
#[verifier::external_body]
#[verifier::reject_recursive_types(T)]
pub struct ExSendError<T>(std::sync::mpsc::SendError<T>);

/// The sending side of an event channel. A send either succeeds or reports
/// the channel closed; whether it blocks and whether it can fail depend on
/// the backing queue. Handles can be duplicated so several producers share
/// one queue.
pub trait ChannelSender<T>: Sized {
    /// Does every send on this channel succeed? True of the no-op backing,
    /// whose sends cannot fail; false of the queue-backed ones, whose sends
    /// fail once the receiver is gone.
    spec fn always_succeeds(&self) -> bool;

    /// Hands `val` to the channel. `Err` reports a closed channel: the
    /// consumer dropped its receiver.
    fn send(&self, val: T) -> (r: Result<(), std::sync::mpsc::SendError<T>>)
        ensures
            self.always_succeeds() ==> r is Ok,
    ;

    /// Another handle to the same channel.
    fn duplicate(&self) -> (r: Self)
        ensures
            r.always_succeeds() == self.always_succeeds(),
    ;
}

/// A sender whose queue is unbounded: sends never block.
#[verifier::reject_recursive_types(T)]
pub struct AsyncChannelSender<T> {
    tx: std::sync::mpsc::Sender<T>,
}

impl<T> AsyncChannelSender<T> {
    /// Relies on `std::sync::mpsc::Sender::send`: queues the value without
    /// blocking, or reports the receiver gone.
    #[verifier::external_body]
    fn send_inner(&self, val: T) -> (r: Result<(), std::sync::mpsc::SendError<T>>) {
        self.tx.send(val)
    }

    /// Relies on `std::sync::mpsc::Sender::clone`: another producer handle
    /// of the same queue.
    #[verifier::external_body]
    fn clone_inner(&self) -> (r: Self) {
        AsyncChannelSender { tx: self.tx.clone() }
    }
}

impl<T> ChannelSender<T> for AsyncChannelSender<T> {
    open spec fn always_succeeds(&self) -> bool {
        false
    }

    fn send(&self, val: T) -> (r: Result<(), std::sync::mpsc::SendError<T>>) {
        self.send_inner(val)
    }

    fn duplicate(&self) -> (r: Self) {
        self.clone_inner()
    }
}

/// A sender whose queue holds at most its bound: a send blocks while the
/// queue is full, applying backpressure to the producer.
#[verifier::reject_recursive_types(T)]
pub struct SyncChannelSender<T> {
    tx: std::sync::mpsc::SyncSender<T>,
}

impl<T> SyncChannelSender<T> {
    /// Relies on `std::sync::mpsc::SyncSender::send`: blocks until the queue
    /// has room, or reports the receiver gone.
    #[verifier::external_body]
    fn send_inner(&self, val: T) -> (r: Result<(), std::sync::mpsc::SendError<T>>) {
        self.tx.send(val)
    }

    /// Relies on `std::sync::mpsc::SyncSender::clone`: another producer
    /// handle of the same queue.
    #[verifier::external_body]
    fn clone_inner(&self) -> (r: Self) {
        SyncChannelSender { tx: self.tx.clone() }
    }
}

impl<T> ChannelSender<T> for SyncChannelSender<T> {
    open spec fn always_succeeds(&self) -> bool {
        false
    }

    fn send(&self, val: T) -> (r: Result<(), std::sync::mpsc::SendError<T>>) {
        self.send_inner(val)
    }

    fn duplicate(&self) -> (r: Self) {
        self.clone_inner()
    }
}

/// A sender with no queue at all: every send succeeds and the value is
/// dropped. For searches nobody watches.
pub struct NoopChannelSender;

impl<T> ChannelSender<T> for NoopChannelSender {
    open spec fn always_succeeds(&self) -> bool {
        true
    }

    fn send(&self, val: T) -> (r: Result<(), std::sync::mpsc::SendError<T>>) {
        let _ = val;
        Ok(())
    }

    fn duplicate(&self) -> (r: Self) {
        NoopChannelSender
    }
}

/// Relies on `std::sync::mpsc::channel`: an unbounded queue, as a sender
/// paired with its receiver.
#[verifier::external_body]
pub fn channel<T>() -> (r: (AsyncChannelSender<T>, std::sync::mpsc::Receiver<T>)) {
    let (tx, rx) = std::sync::mpsc::channel();
    (AsyncChannelSender { tx }, rx)
}

/// Relies on `std::sync::mpsc::sync_channel`: a queue bounded at `size`, as
/// a sender paired with its receiver.
#[verifier::external_body]
pub fn sync_channel<T>(size: usize) -> (r: (SyncChannelSender<T>, std::sync::mpsc::Receiver<T>)) {
    let (tx, rx) = std::sync::mpsc::sync_channel(size);
    (SyncChannelSender { tx }, rx)
}

/// A sender that discards everything.
pub fn noop_sender() -> (r: NoopChannelSender) {
    NoopChannelSender
}

} // verus!
