//! Messages between tasks, through mailboxes of a fixed size.
use crate::ipc_model::{Counters, Letter, Mailbox, Post};
use crate::{bytes, ipc_model, text};
use vstd::prelude::*;

verus! {

pub const MAX_ENDPOINTS: usize = 8;

pub const QUEUE_DEPTH: usize = 8;

pub const MAX_MESSAGE_BYTES: usize = 64;

#[derive(Clone, Copy, PartialEq, Eq, Structural)]
pub enum IpcError {
    NotInitialized,
    InvalidTask,
    EndpointCapacity,
    EndpointMissing,
    MessageTooLarge,
    QueueFull,
    QueueEmpty,
    BufferTooSmall,
    BlockFailed,
    WakeFailed,
}

#[derive(Clone, Copy, PartialEq, Eq, Structural)]
pub struct Delivery {
    pub sender: u64,
    pub length: u64,
    pub sequence: u64,
}

#[derive(Clone, Copy, PartialEq, Eq, Structural)]
pub enum ReceiveOutcome {
    Message(Delivery),
    Blocked,
}

#[derive(Clone, Copy, PartialEq, Eq, Structural)]
pub struct Snapshot {
    pub initialized: bool,
    pub endpoint_capacity: u64,
    pub active_endpoints: u64,
    pub queue_depth: u64,
    pub max_message_bytes: u64,
    pub queued_messages: u64,
    pub waiting_receivers: u64,
    pub endpoints_created: u64,
    pub endpoints_destroyed: u64,
    pub messages_sent: u64,
    pub messages_received: u64,
    pub blocked_receives: u64,
    pub receiver_wakeups: u64,
    pub queue_full_events: u64,
    pub dropped_on_cleanup: u64,
    pub last_sequence: u64,
}

#[derive(Clone, Copy)]
struct Message {
    sender: u64,
    length: usize,
    sequence: u64,
    bytes: [u8; MAX_MESSAGE_BYTES],
}

impl Message {
    spec fn letter(&self) -> Letter {
        Letter {
            sender: self.sender,
            bytes: self.bytes@.take(self.length as int),
            sequence: self.sequence,
        }
    }

    fn empty() -> (r: Self)
        ensures
            r.sender == 0,
            r.length == 0,
            r.sequence == 0,
            r.bytes@ == Seq::new(64, |i: int| 0u8),
    {
        let message = Message {
            sender: 0,
            length: 0,
            sequence: 0,
            bytes: [0; MAX_MESSAGE_BYTES],
        };
        assert(message.bytes@ =~= Seq::new(64, |i: int| 0u8));
        message
    }

    fn new(sender: u64, sequence: u64, bytes: &[u8]) -> (r: Self)
        requires
            bytes@.len() <= 64,
        ensures
            r.length <= 64,
            r.letter() == (Letter { sender, bytes: bytes@, sequence }),
    {
        let mut message = Message::empty();
        message.sender = sender;
        message.length = bytes.len();
        message.sequence = sequence;
        let mut index: usize = 0;
        while index < bytes.len()
            invariant
                index <= bytes@.len() <= 64,
                message.sender == sender,
                message.length == bytes@.len(),
                message.sequence == sequence,
                forall|i: int| 0 <= i < index ==> message.bytes@[i] == bytes@[i],
            decreases bytes@.len() - index,
        {
            message.bytes[index] = bytes[index];
            index = index + 1;
        }
        assert(message.bytes@.take(message.length as int) =~= bytes@);
        message
    }
}

#[derive(Clone, Copy)]
struct Endpoint {
    owner: u64,
    queue: [Message; QUEUE_DEPTH],
    head: usize,
    len: usize,
    waiting: bool,
}

impl Endpoint {
    /// Place `i` of the queue, counted from its head.
    spec fn place(&self, i: int) -> int {
        (self.head + i) % 8
    }

    spec fn mailbox(&self) -> Mailbox {
        Mailbox {
            owner: self.owner,
            queue: Seq::new(self.len as nat, |i: int| self.queue@[self.place(i)].letter()),
            waiting: self.waiting,
        }
    }

    spec fn wf(&self) -> bool {
        &&& self.head < 8
        &&& self.len <= 8
        &&& forall|i: int| 0 <= i < 8 ==> (#[trigger] self.queue@[i]).length <= 64
    }

    fn empty() -> (r: Self)
        ensures
            r.wf(),
            r.mailbox() == ipc_model::vacant(),
    {
        let endpoint = Endpoint {
            owner: 0,
            queue: [Message::empty(); QUEUE_DEPTH],
            head: 0,
            len: 0,
            waiting: false,
        };
        assert(endpoint.mailbox().queue =~= Seq::<Letter>::empty());
        endpoint
    }

    fn push(&mut self, message: Message) -> (r: bool)
        requires
            old(self).wf(),
            message.length <= 64,
        ensures
            final(self).wf(),
            r == (old(self).mailbox().queue.len() < 8),
            r ==> final(self).mailbox() == (Mailbox {
                queue: old(self).mailbox().queue.push(message.letter()),
                ..old(self).mailbox()
            }),
            !r ==> *final(self) == *old(self),
    {
        if self.len >= QUEUE_DEPTH {
            return false;
        }
        let tail: usize = (self.head + self.len) % QUEUE_DEPTH;
        self.queue[tail] = message;
        self.len = self.len + 1;
        assert(self.mailbox().queue =~= old(self).mailbox().queue.push(message.letter()));
        true
    }

    fn front(&self) -> (r: Option<Message>)
        requires
            self.wf(),
        ensures
            r is Some <==> self.mailbox().queue.len() > 0,
            r is Some ==> r->0.length <= 64 && r->0.letter() == self.mailbox().queue[0],
    {
        if self.len == 0 {
            None
        } else {
            Some(self.queue[self.head])
        }
    }

    fn pop(&mut self) -> (r: Option<Message>)
        requires
            old(self).wf(),
        ensures
            final(self).wf(),
            r is Some <==> old(self).mailbox().queue.len() > 0,
            r is Some ==> r->0.length <= 64 && r->0.letter() == old(self).mailbox().queue[0]
                && final(self).mailbox() == (Mailbox {
                queue: old(self).mailbox().queue.skip(1),
                ..old(self).mailbox()
            }),
            r is None ==> *final(self) == *old(self),
    {
        let message: Message = match self.front() {
            None => {
                return None;
            },
            Some(message) => message,
        };
        let head: usize = self.head;
        self.queue[head] = Message::empty();
        self.head = (head + 1) % QUEUE_DEPTH;
        self.len = self.len - 1;
        if self.len == 0 {
            self.head = 0;
        }
        assert(self.mailbox().queue =~= old(self).mailbox().queue.skip(1));
        Some(message)
    }
}

/// All mailboxes.
pub struct IpcState {
    initialized: bool,
    endpoints: [Endpoint; MAX_ENDPOINTS],
    counters: Counters,
    next_sequence: u64,
    last_sequence: u64,
}

impl View for IpcState {
    type V = Post;

    closed spec fn view(&self) -> Post {
        Post {
            initialized: self.initialized,
            boxes: self.boxes(),
            counters: self.counters,
            next_sequence: self.next_sequence,
            last_sequence: self.last_sequence,
        }
    }
}

impl IpcState {
    spec fn boxes(&self) -> Seq<Mailbox> {
        Seq::new(8, |i: int| self.endpoints@[i].mailbox())
    }

    pub closed spec fn wf(&self) -> bool {
        &&& self@.inv()
        &&& forall|i: int| 0 <= i < 8 ==> (#[trigger] self.endpoints@[i]).wf()
    }

    /// A state that is well formed keeps the bounds that the laws of the mailboxes ask for.
    pub proof fn lemma_wf(&self)
        requires
            self.wf(),
        ensures
            self@.inv(),
    {
    }

    pub fn new() -> (r: Self)
        ensures
            r.wf(),
            r@ == ipc_model::blank_post(),
    {
        let state = IpcState {
            initialized: false,
            endpoints: [Endpoint::empty(); MAX_ENDPOINTS],
            counters: Counters {
                endpoints_created: 0,
                endpoints_destroyed: 0,
                messages_sent: 0,
                messages_received: 0,
                blocked_receives: 0,
                receiver_wakeups: 0,
                queue_full_events: 0,
                dropped_on_cleanup: 0,
            },
            next_sequence: 1,
            last_sequence: 0,
        };
        assert(state@.boxes =~= ipc_model::blank_post().boxes);
        state
    }

    fn init(&mut self)
        requires
            old(self).wf(),
        ensures
            final(self).wf(),
            final(self)@ == old(self)@.started(),
    {
        if self.initialized {
            return;
        }
        let mut fresh = IpcState::new();
        fresh.initialized = true;
        *self = fresh;
    }

    fn find(&self, task_id: u64) -> (r: Option<usize>)
        requires
            self.wf(),
        ensures
            match self@.slot(task_id) {
                Some(index) => r is Some && r->0 == index && index < 8 && self@.boxes[index].owner
                    == task_id,
                None => r is None,
            },
    {
        let mut index: usize = 0;
        while index < MAX_ENDPOINTS
            invariant
                index <= 8,
                self.wf(),
                self@.slot(task_id) == ipc_model::slot_from(self@.boxes, index as int, task_id),
            decreases 8 - index,
        {
            assert(self@.boxes[index as int].owner == self.endpoints@[index as int].owner);
            if self.endpoints[index].owner == task_id {
                return Some(index);
            }
            index = index + 1;
        }
        None
    }

    fn register(&mut self, task_id: u64) -> (r: Result<(), IpcError>)
        requires
            old(self).wf(),
        ensures
            final(self).wf(),
            (final(self)@, r) == old(self)@.registered(task_id),
    {
        if !self.initialized {
            return Err(IpcError::NotInitialized);
        }
        if task_id == 0 {
            return Err(IpcError::InvalidTask);
        }
        if self.find(task_id).is_some() {
            return Ok(());
        }
        let index: usize = match self.find(0) {
            None => {
                return Err(IpcError::EndpointCapacity);
            },
            Some(index) => index,
        };
        proof {
            ipc_model::lemma_slot(self@.boxes, 0, task_id);
        }
        let mut endpoint = Endpoint::empty();
        endpoint.owner = task_id;
        assert(endpoint.mailbox().queue =~= ipc_model::vacant().queue);
        self.endpoints[index] = endpoint;
        self.counters.endpoints_created = self.counters.endpoints_created.saturating_add(1);
        assert(self@.boxes =~= old(self)@.boxes.update(
            index as int,
            Mailbox { owner: task_id, ..ipc_model::vacant() },
        ));
        Ok(())
    }

    fn unregister(&mut self, task_id: u64) -> (r: Result<u64, IpcError>)
        requires
            old(self).wf(),
        ensures
            final(self).wf(),
            (final(self)@, r) == old(self)@.unregistered(task_id),
    {
        let index: usize = match self.find(task_id) {
            None => {
                return Err(IpcError::EndpointMissing);
            },
            Some(index) => index,
        };
        let dropped: u64 = self.endpoints[index].len as u64;
        self.endpoints[index] = Endpoint::empty();
        self.counters.endpoints_destroyed = self.counters.endpoints_destroyed.saturating_add(1);
        self.counters.dropped_on_cleanup = self.counters.dropped_on_cleanup.saturating_add(dropped);
        assert(self@.boxes =~= old(self)@.boxes.update(index as int, ipc_model::vacant()));
        Ok(dropped)
    }

    fn send(&mut self, sender: u64, receiver: u64, bytes: &[u8]) -> (r: Result<
        (u64, bool),
        IpcError,
    >)
        requires
            old(self).wf(),
        ensures
            final(self).wf(),
            (final(self)@, r) == old(self)@.sent(sender, receiver, bytes@),
    {
        if !self.initialized {
            return Err(IpcError::NotInitialized);
        }
        if bytes.len() > MAX_MESSAGE_BYTES {
            return Err(IpcError::MessageTooLarge);
        }
        if self.find(sender).is_none() {
            return Err(IpcError::EndpointMissing);
        }
        let index: usize = match self.find(receiver) {
            None => {
                return Err(IpcError::EndpointMissing);
            },
            Some(index) => index,
        };
        let ghost mailbox = self@.boxes[index as int];
        if self.endpoints[index].len >= QUEUE_DEPTH {
            self.counters.queue_full_events = self.counters.queue_full_events.saturating_add(1);
            return Err(IpcError::QueueFull);
        }
        let sequence: u64 = self.next_sequence;
        self.next_sequence = sequence.saturating_add(1);
        let message = Message::new(sender, sequence, bytes);
        let mut endpoint: Endpoint = self.endpoints[index];
        let waiting: bool = endpoint.waiting;
        endpoint.waiting = false;
        assert(endpoint.mailbox().queue =~= mailbox.queue);
        if !endpoint.push(message) {
            return Err(IpcError::QueueFull);
        }
        self.endpoints[index] = endpoint;
        self.counters.messages_sent = self.counters.messages_sent.saturating_add(1);
        self.last_sequence = sequence;
        assert(self@.boxes =~= old(self)@.boxes.update(
            index as int,
            Mailbox {
                queue: mailbox.queue.push(message.letter()),
                waiting: false,
                ..mailbox
            },
        ));
        Ok((sequence, waiting))
    }

    fn receive(&mut self, receiver: u64, output: &mut [u8]) -> (r: Result<Delivery, IpcError>)
        requires
            old(self).wf(),
        ensures
            final(self).wf(),
            ({
                let (after, answer) = old(self)@.received(receiver, old(output)@.len());
                &&& final(self)@ == after
                &&& match answer {
                    Ok(letter) => r is Ok && r->Ok_0 == letter.delivery() && final(output)@
                        == letter.written_to(old(output)@),
                    Err(error) => r is Err && r->Err_0 == error && final(output)@ == old(output)@,
                }
            }),
    {
        let index: usize = match self.find(receiver) {
            None => {
                return Err(IpcError::EndpointMissing);
            },
            Some(index) => index,
        };
        let ghost mailbox = self@.boxes[index as int];
        let mut endpoint: Endpoint = self.endpoints[index];
        let message: Message = match endpoint.pop() {
            None => {
                return Err(IpcError::QueueEmpty);
            },
            Some(message) => message,
        };
        if output.len() < message.length {
            return Err(IpcError::BufferTooSmall);
        }
        self.endpoints[index] = endpoint;
        copy_message(output, &message);
        self.counters.messages_received = self.counters.messages_received.saturating_add(1);
        assert(self@.boxes =~= old(self)@.boxes.update(
            index as int,
            Mailbox { queue: mailbox.queue.skip(1), ..mailbox },
        ));
        Ok(
            Delivery {
                sender: message.sender,
                length: message.length as u64,
                sequence: message.sequence,
            },
        )
    }

    fn set_waiting(&mut self, task_id: u64, waiting: bool) -> (r: Result<(), IpcError>)
        requires
            old(self).wf(),
        ensures
            final(self).wf(),
            final(self)@ == old(self)@.marked(task_id, waiting),
            r == if old(self)@.slot(task_id) is Some {
                Ok::<(), IpcError>(())
            } else {
                Err::<(), IpcError>(IpcError::EndpointMissing)
            },
    {
        let index: usize = match self.find(task_id) {
            None => {
                return Err(IpcError::EndpointMissing);
            },
            Some(index) => index,
        };
        let ghost mailbox = self@.boxes[index as int];
        self.endpoints[index].waiting = waiting;
        assert(self.endpoints@[index as int].mailbox().queue =~= mailbox.queue);
        assert(self@.boxes =~= old(self)@.boxes.update(index as int, Mailbox { waiting, ..mailbox }));
        Ok(())
    }
}

impl IpcState {
    fn snapshot(&self) -> (r: Snapshot)
        requires
            self.wf(),
        ensures
            r == self@.report(),
    {
        let mut active_endpoints: u64 = 0;
        let mut queued_messages: u64 = 0;
        let mut waiting_receivers: u64 = 0;
        let mut index: usize = 0;
        let ghost boxes = self@.boxes;
        while index < MAX_ENDPOINTS
            invariant
                index <= 8,
                self.wf(),
                boxes == self@.boxes,
                active_endpoints == ipc_model::active(boxes.take(index as int)) <= index,
                queued_messages == ipc_model::queued(boxes.take(index as int)) <= 8 * index,
                waiting_receivers == ipc_model::waiting(boxes.take(index as int)) <= index,
            decreases 8 - index,
        {
            let ghost more = boxes.take(index + 1);
            assert(more.drop_last() =~= boxes.take(index as int));
            assert(more.last() == self.endpoints@[index as int].mailbox());
            if self.endpoints[index].owner != 0 {
                active_endpoints = active_endpoints + 1;
                queued_messages = queued_messages + self.endpoints[index].len as u64;
                if self.endpoints[index].waiting {
                    waiting_receivers = waiting_receivers + 1;
                }
            }
            index = index + 1;
        }
        assert(boxes.take(8) =~= boxes);
        Snapshot {
            initialized: self.initialized,
            endpoint_capacity: MAX_ENDPOINTS as u64,
            active_endpoints,
            queue_depth: QUEUE_DEPTH as u64,
            max_message_bytes: MAX_MESSAGE_BYTES as u64,
            queued_messages,
            waiting_receivers,
            endpoints_created: self.counters.endpoints_created,
            endpoints_destroyed: self.counters.endpoints_destroyed,
            messages_sent: self.counters.messages_sent,
            messages_received: self.counters.messages_received,
            blocked_receives: self.counters.blocked_receives,
            receiver_wakeups: self.counters.receiver_wakeups,
            queue_full_events: self.counters.queue_full_events,
            dropped_on_cleanup: self.counters.dropped_on_cleanup,
            last_sequence: self.last_sequence,
        }
    }

    /// Tests what has to hold at all times. On a state that is well formed only the start is
    /// left to be seen.
    fn invariants(&self) -> (r: bool)
        requires
            self.wf(),
        ensures
            r == self@.initialized,
    {
        let mut index: usize = 0;
        while index < MAX_ENDPOINTS
            invariant
                index <= 8,
                self.wf(),
            decreases 8 - index,
        {
            if self.endpoints[index].len > QUEUE_DEPTH || self.endpoints[index].head
                >= QUEUE_DEPTH {
                return false;
            }
            index = index + 1;
        }
        assert forall|i: int, j: int| 0 <= i < j < 8 && (#[trigger] self.endpoints@[i]).owner
            != 0 implies self.endpoints@[i].owner != (#[trigger] self.endpoints@[j]).owner by {
            assert(self@.boxes[i].owner != self@.boxes[j].owner);
        }
        self.initialized && endpoint_owners_unique(&self.endpoints)
    }
}

/// Whether no two endpoints have the same owner.
fn endpoint_owners_unique(endpoints: &[Endpoint; MAX_ENDPOINTS]) -> (r: bool)
    ensures
        r == forall|i: int, j: int|
            0 <= i < j < 8 && (#[trigger] endpoints@[i]).owner != 0 ==> endpoints@[i].owner != (
            #[trigger] endpoints@[j]).owner,
{
    let mut left: usize = 0;
    while left < MAX_ENDPOINTS
        invariant
            left <= 8,
            forall|i: int, j: int|
                0 <= i < j < 8 && i < left && (#[trigger] endpoints@[i]).owner != 0
                    ==> endpoints@[i].owner != (#[trigger] endpoints@[j]).owner,
        decreases 8 - left,
    {
        let owner: u64 = endpoints[left].owner;
        if owner != 0 {
            let mut right: usize = left + 1;
            while right < MAX_ENDPOINTS
                invariant
                    left < right <= 8,
                    owner == endpoints@[left as int].owner,
                    owner != 0,
                    forall|j: int| left < j < right ==> owner != (#[trigger] endpoints@[j]).owner,
                decreases 8 - right,
            {
                if endpoints[right].owner == owner {
                    return false;
                }
                right = right + 1;
            }
        }
        left = left + 1;
    }
    true
}

fn copy_message(output: &mut [u8], message: &Message)
    requires
        message.length <= 64,
        message.length <= old(output)@.len(),
    ensures
        final(output)@ == message.letter().written_to(old(output)@),
{
    let ghost before = output@;
    let mut index: usize = 0;
    while index < message.length
        invariant
            index <= message.length <= 64,
            message.length <= before.len(),
            before.len() == output@.len(),
            forall|i: int|
                0 <= i < before.len() ==> #[trigger] output@[i] == if i < index {
                    message.bytes@[i]
                } else {
                    before[i]
                },
        decreases message.length - index,
    {
        output[index] = message.bytes[index];
        index = index + 1;
    }
    assert(output@ =~= bytes::overwrite(before, 0, message.letter().bytes));
}

/// Makes the mailboxes ready for use. What is already in use stays as it is.
pub fn init(state: &mut IpcState) -> (r: Snapshot)
    requires
        old(state).wf(),
    ensures
        final(state).wf(),
        final(state)@ == old(state)@.started(),
        r == final(state)@.report(),
{
    state.init();
    state.snapshot()
}

/// Gives a task its mailbox.
pub fn register_endpoint(state: &mut IpcState, task_id: u64) -> (r: Result<(), IpcError>)
    requires
        old(state).wf(),
    ensures
        final(state).wf(),
        (final(state)@, r) == old(state)@.registered(task_id),
{
    state.register(task_id)
}

/// Takes a task's mailbox away, and says how many messages were lost with it.
pub fn unregister_endpoint(state: &mut IpcState, task_id: u64) -> (r: Result<u64, IpcError>)
    requires
        old(state).wf(),
    ensures
        final(state).wf(),
        (final(state)@, r) == old(state)@.unregistered(task_id),
{
    state.unregister(task_id)
}

/// Where a send stands: it is over, or the receiver was blocked and is to be woken, after which
/// `finish_send` is owed.
#[derive(Clone, Copy)]
pub enum SendStep {
    Done(Result<u64, IpcError>),
    Wake { receiver: u64, sequence: u64 },
}

/// Puts a message into the mailbox of `receiver`.
pub fn send(state: &mut IpcState, sender: u64, receiver: u64, bytes: &[u8]) -> (r: SendStep)
    requires
        old(state).wf(),
    ensures
        final(state).wf(),
        final(state)@ == old(state)@.sent(sender, receiver, bytes@).0,
        r == match old(state)@.sent(sender, receiver, bytes@).1 {
            Err(error) => SendStep::Done(Err(error)),
            Ok((sequence, true)) => SendStep::Wake { receiver, sequence },
            Ok((sequence, false)) => SendStep::Done(Ok(sequence)),
        },
{
    match state.send(sender, receiver, bytes) {
        Err(error) => SendStep::Done(Err(error)),
        Ok((sequence, waiting)) => if waiting {
            SendStep::Wake { receiver, sequence }
        } else {
            SendStep::Done(Ok(sequence))
        },
    }
}

/// Ends a send whose receiver had to be woken; `woken` says whether that worked. A receiver
/// that could not be woken still counts as blocked.
pub fn finish_send(state: &mut IpcState, receiver: u64, sequence: u64, woken: bool) -> (r: Result<
    u64,
    IpcError,
>)
    requires
        old(state).wf(),
    ensures
        final(state).wf(),
        final(state)@ == if woken {
            old(state)@.with_wakeup()
        } else {
            old(state)@.marked(receiver, true)
        },
        r == if woken {
            Ok::<u64, IpcError>(sequence)
        } else {
            Err::<u64, IpcError>(IpcError::WakeFailed)
        },
{
    if woken {
        state.counters.receiver_wakeups = state.counters.receiver_wakeups.saturating_add(1);
        assert(state@.boxes =~= old(state)@.boxes);
        Ok(sequence)
    } else {
        let _ = state.set_waiting(receiver, true);
        Err(IpcError::WakeFailed)
    }
}

/// Where a receive stands: it is over, or the receiver is to be blocked, after which
/// `finish_receive` is owed.
#[derive(Clone, Copy)]
pub enum ReceiveStep {
    Done(Result<ReceiveOutcome, IpcError>),
    Block { receiver: u64 },
}

/// Takes the oldest message out of the mailbox of `receiver`, into `output`.
pub fn receive(
    state: &mut IpcState,
    receiver: u64,
    output: &mut [u8],
    block_when_empty: bool,
) -> (r: ReceiveStep)
    requires
        old(state).wf(),
    ensures
        final(state).wf(),
        ({
            let (after, answer) = old(state)@.received(receiver, old(output)@.len());
            match answer {
                Ok(letter) => {
                    &&& final(state)@ == after
                    &&& final(output)@ == letter.written_to(old(output)@)
                    &&& r == ReceiveStep::Done(Ok(ReceiveOutcome::Message(letter.delivery())))
                },
                Err(error) => {
                    let blocks = error == IpcError::QueueEmpty && block_when_empty;
                    &&& final(output)@ == old(output)@
                    &&& final(state)@ == if blocks {
                        after.marked(receiver, true)
                    } else {
                        after
                    }
                    &&& r == if blocks {
                        ReceiveStep::Block { receiver }
                    } else {
                        ReceiveStep::Done(Err(error))
                    }
                },
            }
        }),
{
    match state.receive(receiver, output) {
        Ok(delivery) => ReceiveStep::Done(Ok(ReceiveOutcome::Message(delivery))),
        Err(error) => {
            if error == IpcError::QueueEmpty && block_when_empty {
                match state.set_waiting(receiver, true) {
                    Err(missing) => ReceiveStep::Done(Err(missing)),
                    Ok(_) => ReceiveStep::Block { receiver },
                }
            } else {
                ReceiveStep::Done(Err(error))
            }
        },
    }
}

/// Ends a receive whose receiver was to be blocked; `blocked` says whether that worked.
pub fn finish_receive(state: &mut IpcState, receiver: u64, blocked: bool) -> (r: Result<
    ReceiveOutcome,
    IpcError,
>)
    requires
        old(state).wf(),
    ensures
        final(state).wf(),
        final(state)@ == if blocked {
            old(state)@.with_blocked_receive()
        } else {
            old(state)@.marked(receiver, false)
        },
        r == if blocked {
            Ok::<ReceiveOutcome, IpcError>(ReceiveOutcome::Blocked)
        } else {
            Err::<ReceiveOutcome, IpcError>(IpcError::BlockFailed)
        },
{
    if blocked {
        state.counters.blocked_receives = state.counters.blocked_receives.saturating_add(1);
        assert(state@.boxes =~= old(state)@.boxes);
        Ok(ReceiveOutcome::Blocked)
    } else {
        let _ = state.set_waiting(receiver, false);
        Err(IpcError::BlockFailed)
    }
}

/// What the mailboxes report of themselves.
pub fn snapshot(state: &IpcState) -> (r: Snapshot)
    requires
        state.wf(),
    ensures
        r == state@.report(),
{
    state.snapshot()
}

/// Tests the state, and runs one message through a set of mailboxes of its own.
pub fn selftest(state: &IpcState) -> (r: bool)
    requires
        state.wf(),
    ensures
        r == state@.initialized,
{
    state.invariants() && model_selftest()
}

pub open spec fn code_of(error: IpcError) -> u64 {
    match error {
        IpcError::NotInitialized => 1,
        IpcError::InvalidTask => 2,
        IpcError::EndpointCapacity => 3,
        IpcError::EndpointMissing => 4,
        IpcError::MessageTooLarge => 5,
        IpcError::QueueFull => 6,
        IpcError::QueueEmpty => 7,
        IpcError::BufferTooSmall => 8,
        IpcError::BlockFailed => 9,
        IpcError::WakeFailed => 10,
    }
}

/// The number of an error.
pub fn error_code(error: IpcError) -> (r: u64)
    ensures
        r == code_of(error),
{
    match error {
        IpcError::NotInitialized => 1,
        IpcError::InvalidTask => 2,
        IpcError::EndpointCapacity => 3,
        IpcError::EndpointMissing => 4,
        IpcError::MessageTooLarge => 5,
        IpcError::QueueFull => 6,
        IpcError::QueueEmpty => 7,
        IpcError::BufferTooSmall => 8,
        IpcError::BlockFailed => 9,
        IpcError::WakeFailed => 10,
    }
}

/// The name of an error.
pub fn error_name(error: IpcError) -> (r: &'static str)
    ensures
        r@ == match error {
            IpcError::NotInitialized => "not initialized"@,
            IpcError::InvalidTask => "invalid task"@,
            IpcError::EndpointCapacity => "endpoint capacity"@,
            IpcError::EndpointMissing => "endpoint missing"@,
            IpcError::MessageTooLarge => "message too large"@,
            IpcError::QueueFull => "queue full"@,
            IpcError::QueueEmpty => "queue empty"@,
            IpcError::BufferTooSmall => "buffer too small"@,
            IpcError::BlockFailed => "block failed"@,
            IpcError::WakeFailed => "wake failed"@,
        },
{
    match error {
        IpcError::NotInitialized => "not initialized",
        IpcError::InvalidTask => "invalid task",
        IpcError::EndpointCapacity => "endpoint capacity",
        IpcError::EndpointMissing => "endpoint missing",
        IpcError::MessageTooLarge => "message too large",
        IpcError::QueueFull => "queue full",
        IpcError::QueueEmpty => "queue empty",
        IpcError::BufferTooSmall => "buffer too small",
        IpcError::BlockFailed => "block failed",
        IpcError::WakeFailed => "wake failed",
    }
}

/// Sends `ping` from one task to another and looks at what arrives. The answer is yes.
fn model_selftest() -> (r: bool)
    ensures
        r,
{
    let mut state = IpcState::new();
    let ghost blank = state@;
    state.init();
    proof {
        reveal_with_fuel(ipc_model::slot_from, 4);
    }
    assert(state@.slot(1) is None && state@.slot(0) == Some(0int)) by {
        reveal_with_fuel(ipc_model::slot_from, 9);
    }
    let first: bool = state.register(1).is_ok();
    assert(state@.slot(2) is None && state@.slot(0) == Some(1int)) by {
        reveal_with_fuel(ipc_model::slot_from, 9);
    }
    let second: bool = state.register(2).is_ok();
    let registered: bool = first && second;
    let ping: [u8; 4] = [0x70, 0x69, 0x6e, 0x67];
    assert(state@.slot(1) == Some(0int) && state@.slot(2) == Some(1int));
    let sent = state.send(1, 2, &ping);
    assert(state@.slot(2) == Some(1int));
    assert(state@.boxes[1].queue[0].bytes == ping@);
    let mut output: [u8; MAX_MESSAGE_BYTES] = [0; MAX_MESSAGE_BYTES];
    let received = state.receive(2, &mut output);
    assert(output@.subrange(0, 4) =~= ping@);
    assert(state@.slot(1) == Some(0int));
    let arrived: bool = match received {
        Ok(delivery) => delivery.sender == 1 && delivery.length == 4 && delivery.sequence == 1,
        Err(_) => false,
    };
    let numbered: bool = match sent {
        Ok((sequence, waiting)) => sequence == 1 && !waiting,
        Err(_) => false,
    };
    let same: bool = text::same_bytes(&output[0..4], &ping);
    let gone: bool = state.unregister(1).is_ok();
    assert(state@.slot(2) == Some(1int));
    let left: bool = gone && state.unregister(2).is_ok();
    proof {
        assert(state@.boxes =~= blank.boxes);
        lemma_nothing_active(blank.boxes);
    }
    registered && numbered && arrived && same && left && state.snapshot().active_endpoints == 0
        && state.invariants()
}

proof fn lemma_nothing_active(boxes: Seq<Mailbox>)
    requires
        forall|i: int| 0 <= i < boxes.len() ==> (#[trigger] boxes[i]).owner == 0,
    ensures
        ipc_model::active(boxes) == 0,
    decreases boxes.len(),
{
    if boxes.len() > 0 {
        lemma_nothing_active(boxes.drop_last());
    }
}

} // verus!
