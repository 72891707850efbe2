//! Bounded pipes between operators, with a choice of what a full pipe does to the sender.
use crossbeam_channel::{bounded, Receiver, SendTimeoutError, Sender, TrySendError};
use std::time::Duration;
use vstd::prelude::*;

verus! {

/// The capacity of a pipe where none is asked for.
pub const DEFAULT_CAPACITY: usize = 1024;

/// `crossbeam_channel::Sender`: the sending end of a channel, carried through unread.
#[verifier::external_type_specification]
#[verifier::external_body]
#[verifier::reject_recursive_types(T)]
pub struct ExSender<T>(Sender<T>);

/// `crossbeam_channel::Receiver`: the receiving end of a channel, carried through unread.
#[verifier::external_type_specification]
#[verifier::external_body]
#[verifier::reject_recursive_types(T)]
pub struct ExReceiver<T>(Receiver<T>);

/// What a sender does when the pipe is full.
#[derive(Clone, Copy, Debug)]
pub enum BackpressurePolicy {
    /// Wait for room, but no longer than the timeout.
    Block { timeout: Duration },
    /// Give the item up at once.
    Drop,
}

/// What became of an item that was sent.
#[derive(Clone, Copy, Debug, PartialEq, Eq, Structural)]
pub enum SendResult {
    /// The pipe has it.
    Sent,
    /// There was no room for it.
    Dropped,
    /// Nobody is left to receive it.
    Disconnected,
}

/// What a pipe answered to an item: it took it, or it gave it back.
pub enum Offer<T> {
    Accepted,
    /// There was no room, at once or until the timeout.
    Full(T),
    /// Every receiver is gone.
    Disconnected(T),
}

impl<T> Offer<T> {
    /// The item that came back, if it did.
    pub open spec fn returned(self) -> Option<T> {
        match self {
            Offer::Accepted => None,
            Offer::Full(item) => Some(item),
            Offer::Disconnected(item) => Some(item),
        }
    }

    /// What became of the item.
    pub open spec fn spec_outcome(self) -> SendResult {
        match self {
            Offer::Accepted => SendResult::Sent,
            Offer::Full(_) => SendResult::Dropped,
            Offer::Disconnected(_) => SendResult::Disconnected,
        }
    }

    /// The item that came back as an error.
    pub fn into_result(self) -> (r: Result<(), T>)
        ensures
            self.returned() is None <==> r is Ok,
            self.returned() matches Some(item) ==> r == Err::<(), T>(item),
    {
        match self {
            Offer::Accepted => Ok(()),
            Offer::Full(item) => Err(item),
            Offer::Disconnected(item) => Err(item),
        }
    }

    pub fn outcome(&self) -> (r: SendResult)
        ensures
            r == self.spec_outcome(),
    {
        match self {
            Offer::Accepted => SendResult::Sent,
            Offer::Full(_) => SendResult::Dropped,
            Offer::Disconnected(_) => SendResult::Disconnected,
        }
    }
}

/// Proof that an item was offered to a pipe, and what became of it. Only a pipe makes one.
#[verifier::reject_recursive_types(T)]
pub struct Receipt<T> {
    sender: Ghost<PipeSender<T>>,
    item: Ghost<T>,
    policy: Ghost<BackpressurePolicy>,
    result: SendResult,
}

impl<T> Receipt<T> {
    /// Whether it was this item that was offered, by this sender under this policy, and the pipe
    /// answered what the receipt says became of it.
    pub closed spec fn says(
        &self,
        sender: PipeSender<T>,
        item: T,
        policy: BackpressurePolicy,
    ) -> bool {
        &&& self.sender@ == sender
        &&& self.item@ == item
        &&& self.policy@ == policy
        &&& exists|answer: Offer<T>| #[trigger]
            sender.answers(item, policy, answer) && self.result == answer.spec_outcome()
    }

    /// What became of the item.
    pub closed spec fn spec_result(&self) -> SendResult {
        self.result
    }

    /// What became of the item.
    pub fn result(&self) -> (r: SendResult)
        ensures
            r == self.spec_result(),
    {
        self.result
    }
}

/// What a receipt says became of an item is what the pipe answered to it.
pub proof fn law_receipts_say_what_was_answered<T>(
    receipt: Receipt<T>,
    sender: PipeSender<T>,
    item: T,
    policy: BackpressurePolicy,
)
    requires
        receipt.says(sender, item, policy),
    ensures
        exists|answer: Offer<T>| #[trigger]
            sender.answers(item, policy, answer) && receipt.spec_result()
                == answer.spec_outcome(),
{
}

/// What became of each item.
pub open spec fn results<T>(receipts: Seq<Receipt<T>>) -> Seq<SendResult> {
    receipts.map_values(|r: Receipt<T>| r.spec_result())
}

/// A bounded first-in first-out queue between threads.
#[verifier::reject_recursive_types(T)]
pub struct Pipe<T> {
    tx: Sender<T>,
    rx: Receiver<T>,
    capacity: Ghost<usize>,
}

/// The end of a pipe that items go into.
#[verifier::reject_recursive_types(T)]
pub struct PipeSender<T> {
    tx: Sender<T>,
    capacity: Ghost<usize>,
}

/// The end of a pipe that items come out of.
#[verifier::reject_recursive_types(T)]
pub struct PipeReceiver<T> {
    rx: Receiver<T>,
    capacity: Ghost<usize>,
    taken: Ghost<Seq<T>>,
}

/// Whether that many slots for items of type `T` can be addressed: a slot holds an item and a
/// stamp, and no allocation is larger than `isize::MAX` bytes.
pub open spec fn slots_fit<T>(capacity: usize) -> bool {
    capacity * (vstd::layout::size_of::<T>() + vstd::layout::align_of::<T>() + 16) <= isize::MAX
}

/// `crossbeam_channel::bounded`: a channel that holds at most `capacity` items. Nothing is said
/// of the two ends by themselves; the other functions of the channel say what they do on ends
/// that this one returned.
#[verifier::external_body]
fn open_channel<T>(capacity: usize) -> (ends: (Sender<T>, Receiver<T>))
    requires
        slots_fit::<T>(capacity),
{
    bounded(capacity)
}

/// Whether these are two ends of one channel that was opened with that capacity.
pub closed spec fn opened<T>(capacity: usize, tx: Sender<T>, rx: Receiver<T>) -> bool {
    call_ensures(open_channel::<T>, (capacity,), (tx, rx))
}

/// Whether this is the sending end of a channel that was opened with that capacity.
pub closed spec fn sends_into<T>(tx: Sender<T>, capacity: usize) -> bool {
    exists|rx: Receiver<T>| #[trigger] opened(capacity, tx, rx)
}

/// Whether this is the receiving end of a channel that was opened with that capacity.
pub closed spec fn receives_from<T>(rx: Receiver<T>, capacity: usize) -> bool {
    exists|tx: Sender<T>| #[trigger] opened(capacity, tx, rx)
}

impl<T> Pipe<T> {
    /// The two ends belong together.
    #[verifier::type_invariant]
    spec fn wf(&self) -> bool {
        opened(self.capacity@, self.tx, self.rx)
    }
}

impl<T> PipeSender<T> {
    /// It sends into a channel of the pipe's capacity.
    #[verifier::type_invariant]
    spec fn wf(&self) -> bool {
        sends_into(self.tx, self.capacity@)
    }
}

impl<T> PipeReceiver<T> {
    /// It receives from a channel of the pipe's capacity.
    #[verifier::type_invariant]
    spec fn wf(&self) -> bool {
        receives_from(self.rx, self.capacity@)
    }
}

impl<T: Send + 'static> Pipe<T> {
    /// The number of items that fit.
    pub closed spec fn spec_capacity(&self) -> usize {
        self.capacity@
    }

    /// Whether these are the two ends of this pipe.
    pub closed spec fn splits_into(&self, tx: PipeSender<T>, rx: PipeReceiver<T>) -> bool {
        tx.tx == self.tx && rx.rx == self.rx
    }

    /// A pipe for `capacity` items at a time. With no capacity at all, every item is handed over
    /// directly from sender to receiver.
    pub fn new(capacity: usize) -> (p: Self)
        requires
            slots_fit::<T>(capacity),
        ensures
            p.spec_capacity() == capacity,
    {
        let (tx, rx) = open_channel(capacity);
        Pipe { tx, rx, capacity: Ghost(capacity) }
    }

    /// As `new`, for a capacity that is not known to fit into memory: `None` where it cannot.
    pub fn try_new(capacity: usize) -> (p: Option<Self>)
        ensures
            p is Some <==> slots_fit::<T>(capacity),
            p matches Some(p) ==> p.spec_capacity() == capacity,
    {
        let slot: u128 = core::mem::size_of::<T>() as u128 + core::mem::align_of::<T>() as u128
            + 16;
        let room: u128 = isize::MAX as u128;
        assert(capacity <= room / slot <==> capacity * slot <= room) by (nonlinear_arith)
            requires
                slot > 0,
        ;
        if capacity as u128 <= room / slot {
            Some(Self::new(capacity))
        } else {
            None
        }
    }

    pub fn split(self) -> (ends: (PipeSender<T>, PipeReceiver<T>))
        ensures
            ends.0.spec_capacity() == self.spec_capacity(),
            ends.1.spec_capacity() == self.spec_capacity(),
            ends.0.feeds(ends.1),
            self.splits_into(ends.0, ends.1),
            ends.1.taken() == Seq::<T>::empty(),
    {
        proof {
            use_type_invariant(&self);
        }
        (
            PipeSender { tx: self.tx, capacity: self.capacity },
            PipeReceiver { rx: self.rx, capacity: self.capacity, taken: Ghost(Seq::empty()) },
        )
    }
}

/// `Sender::try_send`: puts the item into the channel without waiting. An item that does not go
/// in comes back as it was, and the answer says whether the channel was full or disconnected.
/// Which of the three happens rests with the other threads.
#[verifier::external_body]
fn offer_now<T>(tx: &Sender<T>, item: T) -> (answer: Offer<T>)
    ensures
        answer.returned() matches Some(back) ==> back == item,
{
    match tx.try_send(item) {
        Ok(()) => Offer::Accepted,
        Err(TrySendError::Full(back)) => Offer::Full(back),
        Err(TrySendError::Disconnected(back)) => Offer::Disconnected(back),
    }
}

/// `Sender::send_timeout`: puts the item into the channel, and waits for room no longer than
/// `timeout`. An item that does not go in comes back as it was, and the answer says whether the
/// time ran out or the channel was disconnected. Which of the three happens rests with the other
/// threads and the clock.
#[verifier::external_body]
fn offer_within<T>(tx: &Sender<T>, item: T, timeout: Duration) -> (answer: Offer<T>)
    ensures
        answer.returned() matches Some(back) ==> back == item,
{
    match tx.send_timeout(item, timeout) {
        Ok(()) => Offer::Accepted,
        Err(SendTimeoutError::Timeout(back)) => Offer::Full(back),
        Err(SendTimeoutError::Disconnected(back)) => Offer::Disconnected(back),
    }
}

/// `Sender::clone`: another sending end of the same channel, so of the same capacity and with the
/// same receiving ends.
#[verifier::external_body]
fn share_sender<T>(tx: &Sender<T>) -> (other: Sender<T>)
    ensures
        forall|capacity: usize, rx: Receiver<T>| #[trigger]
            opened(capacity, *tx, rx) ==> opened(capacity, other, rx),
{
    tx.clone()
}

impl<T> Clone for PipeSender<T> {
    /// Another sending end of the same pipe.
    fn clone(&self) -> (other: Self)
        ensures
            other.spec_capacity() == self.spec_capacity(),
            other.is_shared_from(*self),
            forall|rx: PipeReceiver<T>| #[trigger] self.feeds(rx) ==> other.feeds(rx),
    {
        proof {
            use_type_invariant(self);
        }
        PipeSender { tx: share_sender(&self.tx), capacity: self.capacity }
    }
}

/// `Sender::is_full`: whether the channel had no room when asked. A channel that was opened with
/// no capacity never has any. For another one the answer rests with the other threads.
#[verifier::external_body]
fn sender_is_full<T>(tx: &Sender<T>) -> (full: bool)
    ensures
        sends_into(*tx, 0) ==> full,
{
    tx.is_full()
}

/// `Sender::len`: the number of items in the channel when asked, which is never above the
/// capacity that it was opened with. How many there are rests with the other threads.
#[verifier::external_body]
fn sender_len<T>(tx: &Sender<T>) -> (n: usize)
    ensures
        forall|capacity: usize| #[trigger] sends_into(*tx, capacity) ==> n <= capacity,
{
    tx.len()
}

/// `Sender::capacity`: the capacity that the channel was opened with.
#[verifier::external_body]
fn sender_capacity<T>(tx: &Sender<T>) -> (n: Option<usize>)
    ensures
        forall|capacity: usize| #[trigger] sends_into(*tx, capacity) ==> n == Some(capacity),
{
    tx.capacity()
}

/// `Receiver::recv`: the next item, waiting for one; nothing once the channel is empty and every
/// sender is gone. What comes rests with the senders.
#[verifier::external_body]
fn receive<T>(rx: &Receiver<T>) -> (item: Option<T>) {
    rx.recv().ok()
}

/// `Receiver::recv_timeout`: the next item, waiting for one no longer than `timeout`. What comes
/// rests with the senders and the clock.
#[verifier::external_body]
fn receive_within<T>(rx: &Receiver<T>, timeout: Duration) -> (item: Option<T>) {
    rx.recv_timeout(timeout).ok()
}

/// `Receiver::try_recv`: the next item if one is there. What comes rests with the senders.
#[verifier::external_body]
fn receive_now<T>(rx: &Receiver<T>) -> (item: Option<T>) {
    rx.try_recv().ok()
}

/// `Receiver::is_empty`: whether no item was there when asked. A channel that was opened with no
/// capacity never holds one. For another one the answer rests with the other threads.
#[verifier::external_body]
fn receiver_is_empty<T>(rx: &Receiver<T>) -> (empty: bool)
    ensures
        receives_from(*rx, 0) ==> empty,
{
    rx.is_empty()
}

/// `Receiver::len`: the number of items in the channel when asked, which is never above the
/// capacity that it was opened with. How many there are rests with the other threads.
#[verifier::external_body]
fn receiver_len<T>(rx: &Receiver<T>) -> (n: usize)
    ensures
        forall|capacity: usize| #[trigger] receives_from(*rx, capacity) ==> n <= capacity,
{
    rx.len()
}

impl<T> PipeSender<T> {
    /// The number of items that the pipe has room for in all.
    pub closed spec fn spec_capacity(&self) -> usize {
        self.capacity@
    }

    /// Whether what this end takes comes out of that one.
    pub closed spec fn feeds(&self, rx: PipeReceiver<T>) -> bool {
        exists|capacity: usize| #[trigger] opened(capacity, self.tx, rx.rx)
    }

    /// Whether this end was made from that one to share its pipe.
    pub closed spec fn is_shared_from(&self, other: PipeSender<T>) -> bool {
        call_ensures(share_sender::<T>, (&other.tx,), self.tx)
    }

    /// Whether this is an answer of the channel to the item: of a channel that was given until
    /// the timeout to take it, or that had to take it at once.
    pub closed spec fn answers(
        &self,
        item: T,
        policy: BackpressurePolicy,
        answer: Offer<T>,
    ) -> bool {
        match policy {
            BackpressurePolicy::Block { timeout } => call_ensures(
                offer_within::<T>,
                (&self.tx, item, timeout),
                answer,
            ),
            BackpressurePolicy::Drop => call_ensures(offer_now::<T>, (&self.tx, item), answer),
        }
    }

    /// Whether the channel can answer so to an item that it is given so long to take.
    pub closed spec fn answers_within(&self, item: T, timeout: Duration, answer: Offer<T>) -> bool {
        call_ensures(offer_within::<T>, (&self.tx, item, timeout), answer)
    }

    /// Whether the channel can answer so to an item that it has to take at once.
    pub closed spec fn answers_at_once(&self, item: T, answer: Offer<T>) -> bool {
        call_ensures(offer_now::<T>, (&self.tx, item), answer)
    }

    /// Whether this is an answer of the channel when asked if it is full.
    pub closed spec fn answers_is_full(&self, full: bool) -> bool {
        call_ensures(sender_is_full::<T>, (&self.tx,), full)
    }

    /// Whether this is an answer of the channel when asked how many items it holds.
    pub closed spec fn answers_len(&self, n: usize) -> bool {
        call_ensures(sender_len::<T>, (&self.tx,), n)
    }

}

impl<T: Send> PipeSender<T> {
    /// Offers the item to the pipe, which takes it or gives it back.
    pub fn offer(&self, item: T, policy: BackpressurePolicy) -> (answer: Offer<T>)
        ensures
            self.answers(item, policy, answer),
            answer.returned() matches Some(back) ==> back == item,
    {
        match policy {
            BackpressurePolicy::Block { timeout } => offer_within(&self.tx, item, timeout),
            BackpressurePolicy::Drop => offer_now(&self.tx, item),
        }
    }

    /// Sends the item, or gives it back where the pipe does not take it.
    pub fn send(&self, item: T, policy: BackpressurePolicy) -> (r: Result<(), T>)
        ensures
            exists|answer: Offer<T>| #[trigger]
                self.answers(item, policy, answer) && (r is Ok <==> answer is Accepted),
            r matches Err(back) ==> back == item,
    {
        self.offer(item, policy).into_result()
    }

    /// Offers the item to the pipe, and keeps a receipt in place of an item that comes back.
    pub fn deliver(&self, item: T, policy: BackpressurePolicy) -> (receipt: Receipt<T>)
        ensures
            receipt.says(*self, item, policy),
    {
        let ghost offered = item;
        let answer = self.offer(item, policy);
        let result = answer.outcome();
        Receipt { sender: Ghost(*self), item: Ghost(offered), policy: Ghost(policy), result }
    }

    /// Whether the pipe had no room when asked.
    pub fn is_full(&self) -> (full: bool)
        ensures
            self.answers_is_full(full),
            self.spec_capacity() == 0 ==> full,
    {
        proof {
            use_type_invariant(self);
        }
        sender_is_full(&self.tx)
    }

    /// The number of items in the pipe when asked.
    pub fn len(&self) -> (n: usize)
        ensures
            self.answers_len(n),
            n <= self.spec_capacity(),
    {
        proof {
            use_type_invariant(self);
        }
        sender_len(&self.tx)
    }

    pub fn capacity(&self) -> (n: usize)
        ensures
            n == self.spec_capacity(),
    {
        proof {
            use_type_invariant(self);
        }
        match sender_capacity(&self.tx) {
            Some(n) => n,
            None => 0,
        }
    }
}

impl<T> PipeReceiver<T> {
    /// The number of items that the pipe has room for in all.
    pub closed spec fn spec_capacity(&self) -> usize {
        self.capacity@
    }

    /// The items that were taken with `take`, in order. An item that was received through a shared
    /// reference is not among them.
    pub closed spec fn taken(&self) -> Seq<T> {
        self.taken@
    }

    /// This end once the item was taken: the end of the same pipe, with one more item taken.
    pub closed spec fn after_taking(self, item: T) -> Self {
        PipeReceiver { taken: Ghost(self.taken@.push(item)), ..self }
    }

    /// Whether the channel can hand this out to a receiver that waits for an item.
    pub closed spec fn hands_out(&self, item: Option<T>) -> bool {
        call_ensures(receive::<T>, (&self.rx,), item)
    }

    /// Whether the channel can hand this out to a receiver that waits no longer than `timeout`.
    pub closed spec fn hands_out_within(&self, timeout: Duration, item: Option<T>) -> bool {
        call_ensures(receive_within::<T>, (&self.rx, timeout), item)
    }

    /// Whether the channel can hand this out to a receiver that does not wait.
    pub closed spec fn hands_out_now(&self, item: Option<T>) -> bool {
        call_ensures(receive_now::<T>, (&self.rx,), item)
    }

    /// Whether this is an answer of the channel when asked if it is empty.
    pub closed spec fn answers_is_empty(&self, empty: bool) -> bool {
        call_ensures(receiver_is_empty::<T>, (&self.rx,), empty)
    }

    /// Whether this is an answer of the channel when asked how many items it holds.
    pub closed spec fn answers_len(&self, n: usize) -> bool {
        call_ensures(receiver_len::<T>, (&self.rx,), n)
    }

}

impl<T: Send> PipeReceiver<T> {
    /// The next item, waiting for one. `None` once the pipe is empty and every sender is gone.
    pub fn recv(&self) -> (item: Option<T>)
        ensures
            self.hands_out(item),
    {
        receive(&self.rx)
    }

    /// The next item, waiting for one no longer than `timeout`.
    pub fn recv_timeout(&self, timeout: Duration) -> (item: Option<T>)
        ensures
            self.hands_out_within(timeout, item),
    {
        receive_within(&self.rx, timeout)
    }

    /// The next item if one is there.
    pub fn try_recv(&self) -> (item: Option<T>)
        ensures
            self.hands_out_now(item),
    {
        receive_now(&self.rx)
    }

    /// Takes the next item if one is there, and keeps account of it.
    pub fn take(&mut self) -> (item: Option<T>)
        ensures
            old(self).hands_out_now(item),
            match item {
                Some(item) => *final(self) == old(self).after_taking(item),
                None => *final(self) == *old(self),
            },
    {
        proof {
            use_type_invariant(&*self);
        }
        let item = receive_now(&self.rx);
        if let Some(item) = &item {
            self.taken = Ghost(self.taken@.push(*item));
        }
        item
    }

    /// Whether no item was there when asked.
    pub fn is_empty(&self) -> (empty: bool)
        ensures
            self.answers_is_empty(empty),
            self.spec_capacity() == 0 ==> empty,
    {
        proof {
            use_type_invariant(self);
        }
        receiver_is_empty(&self.rx)
    }

    /// The number of items in the pipe when asked.
    pub fn len(&self) -> (n: usize)
        ensures
            self.answers_len(n),
            n <= self.spec_capacity(),
    {
        proof {
            use_type_invariant(self);
        }
        receiver_len(&self.rx)
    }
}

/// Taking an item adds it to the items taken and changes nothing else: it is still the end of the
/// same pipe.
pub proof fn law_taking_keeps_account<T>(rx: PipeReceiver<T>, item: T)
    ensures
        ({
            let after = rx.after_taking(item);
            &&& after.taken() == rx.taken().push(item)
            &&& after.spec_capacity() == rx.spec_capacity()
            &&& forall|tx: PipeSender<T>| #[trigger] tx.feeds(after) <==> tx.feeds(rx)
            &&& forall|x: Option<T>| #[trigger] after.hands_out(x) <==> rx.hands_out(x)
            &&& forall|x: Option<T>| #[trigger] after.hands_out_now(x) <==> rx.hands_out_now(x)
            &&& forall|timeout: Duration, x: Option<T>| #[trigger]
                after.hands_out_within(timeout, x) <==> rx.hands_out_within(timeout, x)
        }),
{
    let after = rx.after_taking(item);
    assert forall|tx: PipeSender<T>| #[trigger] tx.feeds(after) <==> tx.feeds(rx) by {
        assert(after.rx == rx.rx);
    }
    assert forall|x: Option<T>| #[trigger] after.hands_out(x) <==> rx.hands_out(x) by {
        assert(after.rx == rx.rx);
    }
    assert forall|x: Option<T>| #[trigger] after.hands_out_now(x) <==> rx.hands_out_now(x) by {
        assert(after.rx == rx.rx);
    }
    assert forall|timeout: Duration, x: Option<T>| #[trigger]
        after.hands_out_within(timeout, x) <==> rx.hands_out_within(timeout, x) by {
        assert(after.rx == rx.rx);
    }
}

/// A sender that blocks gives the channel exactly the time of its policy, and one that drops gives
/// it none. An item that the channel took was sent, one that it had no room for was dropped, and
/// one that nobody can receive is neither.
pub proof fn law_policy_decides<T>(
    tx: PipeSender<T>,
    item: T,
    timeout: Duration,
    answer: Offer<T>,
)
    ensures
        tx.answers(item, BackpressurePolicy::Block { timeout }, answer) <==> tx.answers_within(
            item,
            timeout,
            answer,
        ),
        tx.answers(item, BackpressurePolicy::Drop, answer) <==> tx.answers_at_once(item, answer),
        answer.spec_outcome() == SendResult::Sent <==> answer is Accepted,
        answer.spec_outcome() == SendResult::Dropped <==> answer is Full,
        answer.spec_outcome() == SendResult::Disconnected <==> answer is Disconnected,
        answer.returned() is None <==> answer is Accepted,
{
}

} // verus!
