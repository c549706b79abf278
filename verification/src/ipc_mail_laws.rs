//! When each operation on the mailboxes succeeds, and what exactly it then changes.
use crate::ipc::IpcError;
use crate::ipc_laws as laws;
use crate::ipc_laws::Outgoing;
use crate::{ipc, ipc_model};
use crate::ipc_model::{Letter, Mailbox, Post};
use vstd::prelude::*;

verus! {

/// Mailbox `index` belongs to `task`.
pub open spec fn owns(post: Post, task: u64, index: int) -> bool {
    0 <= index < 8 && post.boxes[index].owner == task
}

/// `task` has a mailbox.
pub open spec fn has_mailbox(post: Post, task: u64) -> bool {
    exists|index: int| #[trigger] owns(post, task, index)
}

/// The two differ in mailbox `index` alone, where they are compared by their mailboxes.
pub open spec fn same_but(before: Post, after: Post, index: int) -> bool {
    &&& after.boxes.len() == before.boxes.len()
    &&& after.initialized == before.initialized
    &&& forall|i: int| 0 <= i < 8 && i != index ==> #[trigger] after.boxes[i] == before.boxes[i]
}

/// One more, or the largest number.
pub open spec fn one_more(count: u64) -> int {
    if count == u64::MAX {
        u64::MAX as int
    } else {
        count + 1
    }
}

proof fn lemma_owner(post: Post, task: u64)
    requires
        post.inv(),
    ensures
        has_mailbox(post, task) <==> post.slot(task) is Some,
        post.slot(task) is Some ==> owns(post, task, post.slot(task)->0),
        task != 0 ==> forall|index: int| #[trigger]
            owns(post, task, index) ==> post.slot(task) == Some(index),
{
    ipc_model::lemma_slot(post.boxes, 0, task);
    if post.slot(task) is Some {
        assert(owns(post, task, post.slot(task)->0));
    }
    if task != 0 {
        assert forall|index: int| #[trigger] owns(post, task, index) implies post.slot(task)
            == Some(index) by {
            let found = post.slot(task)->0;
            if found < index {
                assert(post.boxes[found].owner != post.boxes[index].owner);
            } else if index < found {
                assert(post.boxes[index].owner != post.boxes[found].owner);
            }
        }
    }
}

/// A receive from a mailbox that holds messages takes the oldest one out of it, whenever the
/// buffer has at least as many bytes as that message, and is told that the buffer is too small
/// for every shorter one. From an empty mailbox nothing is received. A receive that succeeds
/// changes the queue of that mailbox and the count of messages received, and nothing else.
pub proof fn law_receives_need_room_for_the_message(
    post: Post,
    receiver: u64,
    index: int,
    room: nat,
)
    requires
        post.inv(),
        receiver != 0,
        owns(post, receiver, index),
    ensures
        ({
            let (after, answer) = post.received(receiver, room);
            let queue = post.boxes[index].queue;
            &&& queue.len() == 0 <==> answer == Err::<Letter, IpcError>(IpcError::QueueEmpty)
            &&& queue.len() > 0 && room < queue[0].bytes.len() <==> answer == Err::<
                Letter,
                IpcError,
            >(IpcError::BufferTooSmall)
            &&& queue.len() > 0 && room >= queue[0].bytes.len() <==> answer is Ok
            &&& answer is Err ==> after == post
            &&& answer is Ok ==> {
                &&& answer->Ok_0 == queue[0]
                &&& queue == seq![queue[0]] + after.boxes[index].queue
                &&& after.boxes[index].owner == receiver
                &&& after.boxes[index].waiting == post.boxes[index].waiting
                &&& same_but(post, after, index)
                &&& after.counters.messages_received == one_more(post.counters.messages_received)
                &&& after.counters == (ipc_model::Counters {
                    messages_received: after.counters.messages_received,
                    ..post.counters
                })
                &&& after.next_sequence == post.next_sequence
                &&& after.last_sequence == post.last_sequence
            }
        }),
{
    lemma_owner(post, receiver);
    let queue = post.boxes[index].queue;
    if queue.len() > 0 {
        assert(queue =~= seq![queue[0]] + queue.skip(1));
    }
}

/// Without a mailbox nothing is received.
pub proof fn law_receives_need_a_mailbox(post: Post, receiver: u64, room: nat)
    requires
        post.inv(),
        !has_mailbox(post, receiver),
    ensures
        post.received(receiver, room) == (post, Err::<Letter, IpcError>(IpcError::EndpointMissing)),
{
    lemma_owner(post, receiver);
}

/// The state after `receiver` received once for each of `rooms`, into buffers of that many bytes.
pub open spec fn after_receives_into(post: Post, receiver: u64, rooms: Seq<nat>) -> Post
    decreases rooms.len(),
{
    if rooms.len() == 0 {
        post
    } else {
        after_receives_into(post, receiver, rooms.drop_last()).received(receiver, rooms.last()).0
    }
}

proof fn lemma_after_receives_into(post: Post, receiver: u64, index: int, rooms: Seq<nat>)
    requires
        post.inv(),
        receiver != 0,
        owns(post, receiver, index),
        rooms.len() <= post.boxes[index].queue.len(),
        forall|i: int|
            0 <= i < rooms.len() ==> #[trigger] rooms[i] >= post.boxes[index].queue[i].bytes.len(),
    ensures
        after_receives_into(post, receiver, rooms).inv(),
        owns(after_receives_into(post, receiver, rooms), receiver, index),
        after_receives_into(post, receiver, rooms).boxes[index].queue
            == post.boxes[index].queue.skip(rooms.len() as int),
    decreases rooms.len(),
{
    let queue = post.boxes[index].queue;
    if rooms.len() == 0 {
        assert(queue.skip(0) =~= queue);
    } else {
        let less = rooms.drop_last();
        assert forall|i: int| 0 <= i < less.len() implies #[trigger] less[i]
            >= queue[i].bytes.len() by {
            assert(rooms[i] >= queue[i].bytes.len());
        }
        lemma_after_receives_into(post, receiver, index, less);
        let before = after_receives_into(post, receiver, less);
        assert(rooms[rooms.len() - 1] >= queue[rooms.len() - 1].bytes.len());
        assert(before.boxes[index].queue[0] == queue[rooms.len() - 1]);
        law_receives_need_room_for_the_message(before, receiver, index, rooms.last());
        laws::law_bounds_are_kept(before, receiver, 0, Seq::empty(), rooms.last(), false);
        let after = after_receives_into(post, receiver, rooms);
        let rest = before.boxes[index].queue;
        assert((seq![rest[0]] + after.boxes[index].queue).skip(1) =~= after.boxes[index].queue);
        assert(rest.skip(1) =~= queue.skip(rooms.len() as int));
    }
}

/// What was sent is received, into buffers that hold just what is needed or more: behind a run of
/// messages that an empty mailbox accepted, receiving into buffers of which each has at least the
/// bytes of its message gives exactly those messages back, in the order in which they were sent.
/// A buffer that is shorter than the message whose turn it is is refused, at any point of the
/// run. This is for numbers that have not reached their end.
#[verifier::rlimit(40)]
pub proof fn law_runs_of_messages_fit_their_buffers(
    post: Post,
    receiver: u64,
    index: int,
    run: Seq<Outgoing>,
    rooms: Seq<nat>,
    room: nat,
)
    requires
        post.inv(),
        receiver != 0,
        owns(post, receiver, index),
        post.boxes[index].queue.len() == 0,
        laws::all_accepted(post, receiver, run),
        post.next_sequence + run.len() <= u64::MAX,
        rooms.len() <= run.len(),
        forall|i: int| 0 <= i < rooms.len() ==> #[trigger] rooms[i] >= run[i].bytes.len(),
    ensures
        ({
            let full = laws::after_sends(post, receiver, run);
            let count = rooms.len() as int;
            let answer = after_receives_into(full, receiver, rooms).received(receiver, room).1;
            &&& forall|i: int|
                0 <= i < count ==> (#[trigger] after_receives_into(
                    full,
                    receiver,
                    rooms.take(i),
                ).received(receiver, rooms[i])).1 == Ok::<Letter, IpcError>(
                    Letter {
                        sender: run[i].sender,
                        bytes: run[i].bytes,
                        sequence: laws::send_answer(post, receiver, run, i)->Ok_0.0,
                    },
                )
            &&& count == run.len() ==> answer == Err::<Letter, IpcError>(IpcError::QueueEmpty)
            &&& count < run.len() && room < run[count].bytes.len() ==> answer == Err::<
                Letter,
                IpcError,
            >(IpcError::BufferTooSmall)
            &&& count < run.len() && room >= run[count].bytes.len() ==> answer is Ok
                && answer->Ok_0.bytes == run[count].bytes && answer->Ok_0.sender
                == run[count].sender
        }),
{
    let full = laws::after_sends(post, receiver, run);
    let count = rooms.len() as int;
    lemma_owner(post, receiver);
    laws::law_runs_of_messages_arrive(post, receiver, run, 64);
    laws::lemma_after_sends(post, receiver, run);
    let queue = full.boxes[index].queue;
    lemma_owner(full, receiver);
    assert(owns(full, receiver, index));
    assert forall|i: int| 0 <= i < count implies #[trigger] rooms[i] >= queue[i].bytes.len() by {
        assert(queue[i].bytes == run[i].bytes);
    }
    assert forall|i: int| 0 <= i < count implies (#[trigger] after_receives_into(
        full,
        receiver,
        rooms.take(i),
    ).received(receiver, rooms[i])).1 == Ok::<Letter, IpcError>(
        Letter {
            sender: run[i].sender,
            bytes: run[i].bytes,
            sequence: laws::send_answer(post, receiver, run, i)->Ok_0.0,
        },
    ) by {
        let part = rooms.take(i);
        assert forall|j: int| 0 <= j < part.len() implies #[trigger] part[j]
            >= queue[j].bytes.len() by {
            assert(rooms[j] >= queue[j].bytes.len());
        }
        lemma_after_receives_into(full, receiver, index, part);
        let then = after_receives_into(full, receiver, part);
        law_receives_need_room_for_the_message(then, receiver, index, rooms[i]);
        assert(then.boxes[index].queue[0] == queue[i]);
        assert(rooms[i] >= queue[i].bytes.len());
        assert(laws::send_answer(post, receiver, run, i)->Ok_0.0 == post.next_sequence + i);
    }
    lemma_after_receives_into(full, receiver, index, rooms);
    law_receives_need_room_for_the_message(
        after_receives_into(full, receiver, rooms),
        receiver,
        index,
        room,
    );
}

/// A message is accepted exactly where mail is in use, it has at most 64 bytes, sender and
/// receiver have a mailbox, and fewer than eight messages wait in that of the receiver. It then
/// waits there as the newest one, with the next number; the receiver is not blocked any more, and
/// the answer says whether it was. Otherwise the first of these that does not hold decides the
/// answer.
#[verifier::rlimit(40)]
pub proof fn law_sends_need_room_in_the_mailbox(
    post: Post,
    sender: u64,
    receiver: u64,
    bytes: Seq<u8>,
    index: int,
)
    requires
        post.inv(),
        receiver != 0,
        owns(post, receiver, index),
    ensures
        ({
            let (after, answer) = post.sent(sender, receiver, bytes);
            let queue = post.boxes[index].queue;
            &&& !post.initialized <==> answer == Err::<(u64, bool), IpcError>(
                IpcError::NotInitialized,
            )
            &&& post.initialized && bytes.len() > 64 <==> answer == Err::<(u64, bool), IpcError>(
                IpcError::MessageTooLarge,
            )
            &&& post.initialized && bytes.len() <= 64 && !has_mailbox(post, sender) <==> answer
                == Err::<(u64, bool), IpcError>(IpcError::EndpointMissing)
            &&& post.initialized && bytes.len() <= 64 && has_mailbox(post, sender) && queue.len()
                == 8 <==> answer == Err::<(u64, bool), IpcError>(IpcError::QueueFull)
            &&& post.initialized && bytes.len() <= 64 && has_mailbox(post, sender) && queue.len()
                < 8 <==> answer is Ok
            &&& answer is Ok ==> {
                &&& answer->Ok_0 == (post.next_sequence, post.boxes[index].waiting)
                &&& after.boxes[index].queue.len() == queue.len() + 1
                &&& after.boxes[index].queue.drop_last() == queue
                &&& after.boxes[index].queue.last().sender == sender
                &&& after.boxes[index].queue.last().bytes == bytes
                &&& after.boxes[index].queue.last().sequence == post.next_sequence
                &&& after.boxes[index].owner == receiver
                &&& !after.boxes[index].waiting
                &&& same_but(post, after, index)
                &&& after.counters.messages_sent == one_more(post.counters.messages_sent)
                &&& after.counters == (ipc_model::Counters {
                    messages_sent: after.counters.messages_sent,
                    ..post.counters
                })
                &&& after.last_sequence == post.next_sequence
                &&& after.next_sequence == one_more(post.next_sequence)
            }
            &&& answer is Err ==> {
                let full = answer->Err_0 == IpcError::QueueFull;
                &&& after.boxes == post.boxes
                &&& after.initialized == post.initialized
                &&& after.next_sequence == post.next_sequence
                &&& after.last_sequence == post.last_sequence
                &&& after.counters.queue_full_events == if full {
                    one_more(post.counters.queue_full_events)
                } else {
                    post.counters.queue_full_events as int
                }
                &&& after.counters == (ipc_model::Counters {
                    queue_full_events: after.counters.queue_full_events,
                    ..post.counters
                })
            }
        }),
{
    lemma_owner(post, receiver);
    lemma_owner(post, sender);
    let after = post.sent(sender, receiver, bytes).0;
    if post.sent(sender, receiver, bytes).1 is Ok {
        assert(after.boxes[index].queue.drop_last() =~= post.boxes[index].queue);
    }
}

/// A message to a task without a mailbox is refused.
pub proof fn law_sends_need_a_receiver(post: Post, sender: u64, receiver: u64, bytes: Seq<u8>)
    requires
        post.inv(),
        post.initialized,
        bytes.len() <= 64,
        !has_mailbox(post, receiver),
    ensures
        post.sent(sender, receiver, bytes) == (
            post,
            Err::<(u64, bool), IpcError>(IpcError::EndpointMissing),
        ),
{
    lemma_owner(post, receiver);
}

/// A task is given a mailbox exactly where mail is in use, the task is not zero, and it has one
/// already or one is vacant. A new mailbox is empty and nobody is blocked on it; no other mailbox
/// changes, and the new one was vacant before.
#[verifier::rlimit(40)]
pub proof fn law_registering_gives_a_vacant_mailbox(post: Post, task: u64)
    requires
        post.inv(),
    ensures
        ({
            let (after, answer) = post.registered(task);
            let had = has_mailbox(post, task);
            &&& !post.initialized <==> answer == Err::<(), IpcError>(IpcError::NotInitialized)
            &&& post.initialized && task == 0 <==> answer == Err::<(), IpcError>(
                IpcError::InvalidTask,
            )
            &&& post.initialized && task != 0 && !had && !has_mailbox(post, 0) <==> answer == Err::<
                (),
                IpcError,
            >(IpcError::EndpointCapacity)
            &&& post.initialized && task != 0 && (had || has_mailbox(post, 0)) <==> answer is Ok
            &&& answer is Ok && had ==> after == post
            &&& answer is Ok ==> has_mailbox(after, task)
            &&& answer is Ok && !had ==> exists|index: int| #[trigger]
                owns(post, 0, index) && owns(after, task, index)
                    && after.boxes[index].queue.len() == 0 && !after.boxes[index].waiting
                    && same_but(post, after, index) && after.counters.endpoints_created == one_more(
                    post.counters.endpoints_created,
                ) && after.counters == (ipc_model::Counters {
                    endpoints_created: after.counters.endpoints_created,
                    ..post.counters
                }) && after.next_sequence == post.next_sequence && after.last_sequence
                    == post.last_sequence
        }),
{
    lemma_owner(post, task);
    lemma_owner(post, 0);
    let after = post.registered(task).0;
    if post.registered(task).1 is Ok {
        if has_mailbox(post, task) {
            assert(has_mailbox(after, task));
        } else {
            let index = post.slot(0)->0;
            assert(owns(post, 0, index));
            assert(owns(after, task, index));
            assert(same_but(post, after, index));
        }
    }
}

/// A task that has a mailbox can give it up: it becomes vacant, the messages in it are lost, and
/// the answer, like the count, says how many they were. No other mailbox changes, and the task
/// has none afterwards. A task without one is told so.
#[verifier::rlimit(40)]
pub proof fn law_unregistering_empties_the_mailbox(post: Post, task: u64, index: int)
    requires
        post.inv(),
        task != 0,
    ensures
        ({
            let (after, answer) = post.unregistered(task);
            let queue = post.boxes[index].queue;
            &&& !has_mailbox(post, task) ==> (after, answer) == (
                post,
                Err::<u64, IpcError>(IpcError::EndpointMissing),
            )
            &&& owns(post, task, index) ==> {
                &&& answer is Ok
                &&& answer->Ok_0 == queue.len()
                &&& !has_mailbox(after, task)
                &&& owns(after, 0, index)
                &&& after.boxes[index].queue.len() == 0
                &&& !after.boxes[index].waiting
                &&& same_but(post, after, index)
                &&& after.counters.endpoints_destroyed == one_more(
                    post.counters.endpoints_destroyed,
                )
                &&& post.counters.dropped_on_cleanup + queue.len() <= u64::MAX
                    ==> after.counters.dropped_on_cleanup == post.counters.dropped_on_cleanup
                    + queue.len()
                &&& post.counters.dropped_on_cleanup + queue.len() > u64::MAX
                    ==> after.counters.dropped_on_cleanup == u64::MAX
                &&& after.counters == (ipc_model::Counters {
                    endpoints_destroyed: after.counters.endpoints_destroyed,
                    dropped_on_cleanup: after.counters.dropped_on_cleanup,
                    ..post.counters
                })
                &&& after.next_sequence == post.next_sequence
                &&& after.last_sequence == post.last_sequence
            }
        }),
{
    lemma_owner(post, task);
    if owns(post, task, index) {
        let after = post.unregistered(task).0;
        laws::law_bounds_are_kept(post, task, 0, Seq::empty(), 0, false);
        assert(post.boxes[index].queue.len() <= 8);
        if has_mailbox(after, task) {
            let other = choose|other: int| #[trigger] owns(after, task, other);
            assert(other != index);
            assert(owns(post, task, other));
            assert(false);
        }
    }
}

/// Marking a task as blocked, or as not blocked, says so in its mailbox and changes nothing else;
/// a task without a mailbox is not marked at all.
pub proof fn law_marks_stand_in_the_mailbox(post: Post, task: u64, index: int, waiting: bool)
    requires
        post.inv(),
        task != 0,
    ensures
        ({
            let after = post.marked(task, waiting);
            &&& !has_mailbox(post, task) ==> after == post
            &&& owns(post, task, index) ==> {
                &&& after.boxes[index].waiting == waiting
                &&& after.boxes[index].owner == task
                &&& after.boxes[index].queue == post.boxes[index].queue
                &&& same_but(post, after, index)
                &&& after.counters == post.counters
                &&& after.next_sequence == post.next_sequence
                &&& after.last_sequence == post.last_sequence
            }
        }),
{
    lemma_owner(post, task);
}

/// One where `flag` holds, and nothing else.
pub open spec fn one_if(flag: bool) -> int {
    if flag {
        1
    } else {
        0
    }
}

/// How many messages wait in a mailbox that somebody owns.
pub open spec fn waiting_mail(mailbox: Mailbox) -> int {
    if mailbox.owner == 0 {
        0
    } else {
        mailbox.queue.len() as int
    }
}

/// The report counts the mailboxes that somebody owns, the messages in them, and the owners that
/// are blocked, and names the limits.
#[verifier::rlimit(40)]
pub proof fn law_reports_count_the_mailboxes(post: Post)
    requires
        post.inv(),
    ensures
        ({
            let report = post.report();
            let b = post.boxes;
            &&& report.active_endpoints == one_if(b[0].owner != 0) + one_if(b[1].owner != 0)
                + one_if(b[2].owner != 0) + one_if(b[3].owner != 0) + one_if(b[4].owner != 0)
                + one_if(b[5].owner != 0) + one_if(b[6].owner != 0) + one_if(b[7].owner != 0)
            &&& report.queued_messages == waiting_mail(b[0]) + waiting_mail(b[1]) + waiting_mail(
                b[2],
            ) + waiting_mail(b[3]) + waiting_mail(b[4]) + waiting_mail(b[5]) + waiting_mail(b[6])
                + waiting_mail(b[7])
            &&& report.waiting_receivers == one_if(b[0].owner != 0 && b[0].waiting) + one_if(
                b[1].owner != 0 && b[1].waiting,
            ) + one_if(b[2].owner != 0 && b[2].waiting) + one_if(b[3].owner != 0 && b[3].waiting)
                + one_if(b[4].owner != 0 && b[4].waiting) + one_if(
                b[5].owner != 0 && b[5].waiting,
            ) + one_if(b[6].owner != 0 && b[6].waiting) + one_if(b[7].owner != 0 && b[7].waiting)
            &&& report.endpoint_capacity == 8
            &&& report.queue_depth == 8
            &&& report.max_message_bytes == 64
            &&& report.initialized == post.initialized
            &&& report.last_sequence == post.last_sequence
        }),
{
    let b = post.boxes;
    let b7 = b.drop_last();
    let b6 = b7.drop_last();
    let b5 = b6.drop_last();
    let b4 = b5.drop_last();
    let b3 = b4.drop_last();
    let b2 = b3.drop_last();
    let b1 = b2.drop_last();
    assert(b1.drop_last().len() == 0);
    reveal_with_fuel(ipc_model::active, 9);
    reveal_with_fuel(ipc_model::queued, 9);
    reveal_with_fuel(ipc_model::waiting, 9);
    assert(forall|i: int| 0 <= i < 8 ==> (#[trigger] b[i]).queue.len() <= 8);
}

/// A wakeup and a blocked receive are each counted once, and change nothing else.
pub proof fn law_wakeups_and_blocks_are_counted(post: Post)
    ensures
        post.with_wakeup().counters.receiver_wakeups == one_more(post.counters.receiver_wakeups),
        post.with_wakeup() == (Post { counters: post.with_wakeup().counters, ..post }),
        post.with_wakeup().counters == (ipc_model::Counters {
            receiver_wakeups: post.with_wakeup().counters.receiver_wakeups,
            ..post.counters
        }),
        post.with_blocked_receive().counters.blocked_receives == one_more(
            post.counters.blocked_receives,
        ),
        post.with_blocked_receive() == (Post {
            counters: post.with_blocked_receive().counters,
            ..post
        }),
        post.with_blocked_receive().counters == (ipc_model::Counters {
            blocked_receives: post.with_blocked_receive().counters.blocked_receives,
            ..post.counters
        }),
{
}

/// Mail that is taken into use starts with eight vacant and empty mailboxes, no message counted
/// and one as the next number; mail that is in use already stays as it is.
pub proof fn law_mail_starts_empty(post: Post, task: u64)
    ensures
        post.initialized ==> post.started() == post,
        !post.initialized ==> {
            let fresh = post.started();
            &&& fresh.initialized
            &&& fresh.boxes.len() == 8
            &&& task != 0 ==> !has_mailbox(fresh, task)
            &&& forall|i: int|
                0 <= i < 8 ==> (#[trigger] fresh.boxes[i]).owner == 0 && fresh.boxes[i].queue.len()
                    == 0 && !fresh.boxes[i].waiting
            &&& fresh.next_sequence == 1
            &&& fresh.last_sequence == 0
            &&& fresh.counters.messages_sent == 0
            &&& fresh.counters.messages_received == 0
            &&& fresh.counters.endpoints_created == 0
            &&& fresh.counters.endpoints_destroyed == 0
            &&& fresh.counters.blocked_receives == 0
            &&& fresh.counters.receiver_wakeups == 0
            &&& fresh.counters.queue_full_events == 0
            &&& fresh.counters.dropped_on_cleanup == 0
        },
{
}

/// Each error has a number of its own, from one to ten.
pub proof fn law_error_numbers_are_unique(one: IpcError, two: IpcError)
    ensures
        1 <= ipc::code_of(one) <= 10,
        ipc::code_of(one) == ipc::code_of(two) <==> one == two,
{
}

/// What a receiver is told of a message is its sender, its length and its number.
pub proof fn law_deliveries_describe_the_message(letter: Letter)
    requires
        letter.bytes.len() <= 64,
    ensures
        letter.delivery().sender == letter.sender,
        letter.delivery().length == letter.bytes.len(),
        letter.delivery().sequence == letter.sequence,
{
}

} // verus!
