//! What the mailboxes of the kernel hold, and what each operation does to them.
use crate::bytes;
use crate::ipc::{Delivery, IpcError, Snapshot};
use vstd::prelude::*;

verus! {

/// A message on its way.
pub struct Letter {
    pub sender: u64,
    pub bytes: Seq<u8>,
    pub sequence: u64,
}

/// One endpoint: the task that owns it, zero where none does, the messages that wait in it,
/// oldest first, and whether its owner is blocked on it.
pub struct Mailbox {
    pub owner: u64,
    pub queue: Seq<Letter>,
    pub waiting: bool,
}

/// What is counted. Each number stops at the largest one it can hold.
#[derive(Clone, Copy, PartialEq, Eq, Structural)]
pub struct Counters {
    pub endpoints_created: u64,
    pub endpoints_destroyed: u64,
    pub messages_sent: u64,
    pub messages_received: u64,
    pub blocked_receives: u64,
    pub receiver_wakeups: u64,
    pub queue_full_events: u64,
    pub dropped_on_cleanup: u64,
}

/// All mailboxes.
pub struct Post {
    pub initialized: bool,
    pub boxes: Seq<Mailbox>,
    pub counters: Counters,
    pub next_sequence: u64,
    pub last_sequence: u64,
}

/// `count` and `more` together, or the largest number.
pub open spec fn bumped(count: u64, more: nat) -> u64 {
    if count + more > u64::MAX {
        u64::MAX
    } else {
        (count + more) as u64
    }
}

/// The first mailbox, from `from` on, that `task` owns.
pub open spec fn slot_from(boxes: Seq<Mailbox>, from: int, task: u64) -> Option<int>
    decreases boxes.len() - from,
{
    if from < 0 || from >= boxes.len() {
        None
    } else if boxes[from].owner == task {
        Some(from)
    } else {
        slot_from(boxes, from + 1, task)
    }
}

/// No two mailboxes have the same owner.
pub open spec fn owners_unique(boxes: Seq<Mailbox>) -> bool {
    forall|i: int, j: int|
        0 <= i < j < boxes.len() && (#[trigger] boxes[i]).owner != 0 ==> boxes[i].owner != (
        #[trigger] boxes[j]).owner
}

/// How many mailboxes have an owner.
pub open spec fn active(boxes: Seq<Mailbox>) -> nat
    decreases boxes.len(),
{
    if boxes.len() == 0 {
        0
    } else {
        active(boxes.drop_last()) + if boxes.last().owner != 0 {
            1nat
        } else {
            0nat
        }
    }
}

/// How many messages wait in mailboxes that have an owner.
pub open spec fn queued(boxes: Seq<Mailbox>) -> nat
    decreases boxes.len(),
{
    if boxes.len() == 0 {
        0
    } else {
        queued(boxes.drop_last()) + if boxes.last().owner != 0 {
            boxes.last().queue.len()
        } else {
            0
        }
    }
}

/// How many owners are blocked on their mailbox.
pub open spec fn waiting(boxes: Seq<Mailbox>) -> nat
    decreases boxes.len(),
{
    if boxes.len() == 0 {
        0
    } else {
        waiting(boxes.drop_last()) + if boxes.last().owner != 0 && boxes.last().waiting {
            1nat
        } else {
            0nat
        }
    }
}

/// A mailbox that nobody owns.
pub open spec fn vacant() -> Mailbox {
    Mailbox { owner: 0, queue: Seq::empty(), waiting: false }
}

/// The state before anything happened.
pub open spec fn blank_post() -> Post {
    Post {
        initialized: false,
        boxes: Seq::new(8, |i: int| vacant()),
        counters: Counters {
            endpoints_created: 0,
            endpoints_destroyed: 0,
            messages_sent: 0,
            messages_received: 0,
            blocked_receives: 0,
            receiver_wakeups: 0,
            queue_full_events: 0,
            dropped_on_cleanup: 0,
        },
        next_sequence: 1,
        last_sequence: 0,
    }
}

impl Post {
    /// There are eight mailboxes of at most eight messages of at most 64 bytes, and no task
    /// owns two.
    pub open spec fn inv(self) -> bool {
        &&& self.boxes.len() == 8
        &&& owners_unique(self.boxes)
        &&& forall|i: int| 0 <= i < 8 ==> (#[trigger] self.boxes[i]).queue.len() <= 8
        &&& forall|i: int, j: int|
            0 <= i < 8 && 0 <= j < self.boxes[i].queue.len() ==> (
            #[trigger] self.boxes[i].queue[j]).bytes.len() <= 64
    }

    /// The mailbox of `task`. For task zero, which owns none, that is the first vacant one.
    pub open spec fn slot(self, task: u64) -> Option<int> {
        slot_from(self.boxes, 0, task)
    }

    pub open spec fn with_box(self, index: int, mailbox: Mailbox) -> Post {
        Post { boxes: self.boxes.update(index, mailbox), ..self }
    }

    pub open spec fn started(self) -> Post {
        if self.initialized {
            self
        } else {
            Post { initialized: true, ..blank_post() }
        }
    }

    /// What giving `task` a mailbox makes of the state, and the answer.
    pub open spec fn registered(self, task: u64) -> (Post, Result<(), IpcError>) {
        if !self.initialized {
            (self, Err(IpcError::NotInitialized))
        } else if task == 0 {
            (self, Err(IpcError::InvalidTask))
        } else if self.slot(task) is Some {
            (self, Ok(()))
        } else {
            match self.slot(0) {
                None => (self, Err(IpcError::EndpointCapacity)),
                Some(index) => (
                    Post {
                        counters: Counters {
                            endpoints_created: bumped(self.counters.endpoints_created, 1),
                            ..self.counters
                        },
                        ..self.with_box(index, Mailbox { owner: task, ..vacant() })
                    },
                    Ok(()),
                ),
            }
        }
    }

    /// What taking the mailbox of `task` away makes of the state, and the answer: how many
    /// messages were lost.
    pub open spec fn unregistered(self, task: u64) -> (Post, Result<u64, IpcError>) {
        match self.slot(task) {
            None => (self, Err(IpcError::EndpointMissing)),
            Some(index) => {
                let dropped = self.boxes[index].queue.len();
                (
                    Post {
                        counters: Counters {
                            endpoints_destroyed: bumped(self.counters.endpoints_destroyed, 1),
                            dropped_on_cleanup: bumped(self.counters.dropped_on_cleanup, dropped),
                            ..self.counters
                        },
                        ..self.with_box(index, vacant())
                    },
                    Ok(dropped as u64),
                )
            },
        }
    }

    /// What sending makes of the state, and the answer: the number of the message, and whether
    /// the receiver was blocked and has to be woken.
    pub open spec fn sent(self, sender: u64, receiver: u64, bytes: Seq<u8>) -> (
        Post,
        Result<(u64, bool), IpcError>,
    ) {
        if !self.initialized {
            (self, Err(IpcError::NotInitialized))
        } else if bytes.len() > 64 {
            (self, Err(IpcError::MessageTooLarge))
        } else if self.slot(sender) is None || self.slot(receiver) is None {
            (self, Err(IpcError::EndpointMissing))
        } else {
            let index = self.slot(receiver)->0;
            let mailbox = self.boxes[index];
            if mailbox.queue.len() >= 8 {
                (
                    Post {
                        counters: Counters {
                            queue_full_events: bumped(self.counters.queue_full_events, 1),
                            ..self.counters
                        },
                        ..self
                    },
                    Err(IpcError::QueueFull),
                )
            } else {
                let letter = Letter { sender, bytes, sequence: self.next_sequence };
                (
                    Post {
                        counters: Counters {
                            messages_sent: bumped(self.counters.messages_sent, 1),
                            ..self.counters
                        },
                        next_sequence: bumped(self.next_sequence, 1),
                        last_sequence: self.next_sequence,
                        ..self.with_box(
                            index,
                            Mailbox {
                                queue: mailbox.queue.push(letter),
                                waiting: false,
                                ..mailbox
                            },
                        )
                    },
                    Ok((self.next_sequence, mailbox.waiting)),
                )
            }
        }
    }

    /// What receiving into a buffer of `room` bytes makes of the state, and the answer: the
    /// oldest message.
    pub open spec fn received(self, receiver: u64, room: nat) -> (Post, Result<Letter, IpcError>) {
        match self.slot(receiver) {
            None => (self, Err(IpcError::EndpointMissing)),
            Some(index) => {
                let mailbox = self.boxes[index];
                if mailbox.queue.len() == 0 {
                    (self, Err(IpcError::QueueEmpty))
                } else if room < mailbox.queue[0].bytes.len() {
                    (self, Err(IpcError::BufferTooSmall))
                } else {
                    (
                        Post {
                            counters: Counters {
                                messages_received: bumped(self.counters.messages_received, 1),
                                ..self.counters
                            },
                            ..self.with_box(
                                index,
                                Mailbox { queue: mailbox.queue.skip(1), ..mailbox },
                            )
                        },
                        Ok(mailbox.queue[0]),
                    )
                }
            },
        }
    }

    /// The state with `task` marked as blocked on its mailbox, or not.
    pub open spec fn marked(self, task: u64, waiting: bool) -> Post {
        match self.slot(task) {
            None => self,
            Some(index) => self.with_box(index, Mailbox { waiting, ..self.boxes[index] }),
        }
    }

    pub open spec fn with_wakeup(self) -> Post {
        Post {
            counters: Counters {
                receiver_wakeups: bumped(self.counters.receiver_wakeups, 1),
                ..self.counters
            },
            ..self
        }
    }

    pub open spec fn with_blocked_receive(self) -> Post {
        Post {
            counters: Counters {
                blocked_receives: bumped(self.counters.blocked_receives, 1),
                ..self.counters
            },
            ..self
        }
    }

    pub open spec fn report(self) -> Snapshot {
        Snapshot {
            initialized: self.initialized,
            endpoint_capacity: 8,
            active_endpoints: active(self.boxes) as u64,
            queue_depth: 8,
            max_message_bytes: 64,
            queued_messages: queued(self.boxes) as u64,
            waiting_receivers: waiting(self.boxes) as u64,
            endpoints_created: self.counters.endpoints_created,
            endpoints_destroyed: self.counters.endpoints_destroyed,
            messages_sent: self.counters.messages_sent,
            messages_received: self.counters.messages_received,
            blocked_receives: self.counters.blocked_receives,
            receiver_wakeups: self.counters.receiver_wakeups,
            queue_full_events: self.counters.queue_full_events,
            dropped_on_cleanup: self.counters.dropped_on_cleanup,
            last_sequence: self.last_sequence,
        }
    }
}

impl Letter {
    /// What the receiver is told of the message.
    pub open spec fn delivery(self) -> Delivery {
        Delivery {
            sender: self.sender,
            length: self.bytes.len() as u64,
            sequence: self.sequence,
        }
    }

    /// A buffer after the message was put into it.
    pub open spec fn written_to(self, buffer: Seq<u8>) -> Seq<u8> {
        bytes::overwrite(buffer, 0, self.bytes)
    }
}

/// A mailbox that was found has the owner that was looked for, and none before it has.
pub proof fn lemma_slot(boxes: Seq<Mailbox>, from: int, task: u64)
    requires
        0 <= from <= boxes.len(),
    ensures
        match slot_from(boxes, from, task) {
            Some(index) => from <= index < boxes.len() && boxes[index].owner == task && forall|
                i: int,
            |
                from <= i < index ==> (#[trigger] boxes[i]).owner != task,
            None => forall|i: int| from <= i < boxes.len() ==> (#[trigger] boxes[i]).owner != task,
        },
    decreases boxes.len() - from,
{
    if from < boxes.len() {
        lemma_slot(boxes, from + 1, task);
    }
}

} // verus!
