//! What holds of the mailboxes across operations.
use crate::ipc::IpcError;
use crate::ipc_model;
use crate::ipc_model::{Letter, Mailbox, Post};
use vstd::prelude::*;

verus! {

/// A mailbox that keeps its owner keeps everybody's place.
proof fn lemma_slot_kept(boxes: Seq<Mailbox>, index: int, mailbox: Mailbox, from: int, task: u64)
    requires
        0 <= index < boxes.len(),
        0 <= from,
        mailbox.owner == boxes[index].owner,
    ensures
        ipc_model::slot_from(boxes.update(index, mailbox), from, task) == ipc_model::slot_from(
            boxes,
            from,
            task,
        ),
    decreases boxes.len() - from,
{
    if from < boxes.len() {
        lemma_slot_kept(boxes, index, mailbox, from + 1, task);
    }
}

/// Nothing that can be done to the mailboxes breaks their bounds or gives a task two of them.
pub proof fn law_bounds_are_kept(
    post: Post,
    task: u64,
    other: u64,
    bytes: Seq<u8>,
    room: nat,
    waiting: bool,
)
    requires
        post.inv(),
    ensures
        post.started().inv(),
        post.registered(task).0.inv(),
        post.unregistered(task).0.inv(),
        post.sent(task, other, bytes).0.inv(),
        post.received(task, room).0.inv(),
        post.marked(task, waiting).inv(),
        post.with_wakeup().inv(),
        post.with_blocked_receive().inv(),
{
    ipc_model::lemma_slot(post.boxes, 0, task);
    ipc_model::lemma_slot(post.boxes, 0, other);
    ipc_model::lemma_slot(post.boxes, 0, 0);
}

/// An operation that is refused leaves everything as it was, but that a full mailbox is
/// counted.
pub proof fn law_refusals_change_nothing(
    post: Post,
    task: u64,
    other: u64,
    bytes: Seq<u8>,
    room: nat,
)
    ensures
        post.registered(task).1 is Err ==> post.registered(task).0 == post,
        post.unregistered(task).1 is Err ==> post.unregistered(task).0 == post,
        post.received(task, room).1 is Err ==> post.received(task, room).0 == post,
        post.sent(task, other, bytes).1 is Err ==> post.sent(task, other, bytes).0.boxes
            == post.boxes && post.sent(task, other, bytes).0.next_sequence == post.next_sequence,
        post.sent(task, other, bytes).1 is Err && post.sent(task, other, bytes).1->Err_0
            != IpcError::QueueFull ==> post.sent(task, other, bytes).0 == post,
{
}

/// The state after `count` messages were taken out of the mailbox of `receiver`.
pub open spec fn after_receives(post: Post, receiver: u64, count: nat) -> Post
    decreases count,
{
    if count == 0 {
        post
    } else {
        after_receives(post, receiver, (count - 1) as nat).received(receiver, 64).0
    }
}

proof fn lemma_after_receives(post: Post, receiver: u64, count: nat)
    requires
        post.inv(),
        post.slot(receiver) is Some,
        count <= post.boxes[post.slot(receiver)->0].queue.len(),
    ensures
        after_receives(post, receiver, count).inv(),
        after_receives(post, receiver, count).slot(receiver) == post.slot(receiver),
        after_receives(post, receiver, count).boxes[post.slot(receiver)->0].queue
            == post.boxes[post.slot(receiver)->0].queue.skip(count as int),
    decreases count,
{
    let index = post.slot(receiver)->0;
    let queue = post.boxes[index].queue;
    ipc_model::lemma_slot(post.boxes, 0, receiver);
    if count == 0 {
        assert(queue.skip(0) =~= queue);
    } else {
        let before = after_receives(post, receiver, (count - 1) as nat);
        lemma_after_receives(post, receiver, (count - 1) as nat);
        law_bounds_are_kept(before, receiver, 0, Seq::empty(), 64, false);
        let rest = before.boxes[index].queue;
        assert(rest.len() > 0);
        assert(rest[0].bytes.len() <= 64) by {
            assert(before.boxes[index].queue[0].bytes.len() <= 64);
        }
        lemma_slot_kept(
            before.boxes,
            index,
            Mailbox { queue: rest.skip(1), ..before.boxes[index] },
            0,
            receiver,
        );
        assert(rest.skip(1) =~= queue.skip(count as int));
    }
}

/// Messages arrive in the order in which they were sent: behind a message that was accepted,
/// the receiver first gets those that were there before it, and then the message itself, byte
/// for byte, with its sender and its number.
pub proof fn law_messages_arrive_in_order(post: Post, sender: u64, receiver: u64, bytes: Seq<u8>)
    requires
        post.inv(),
        post.sent(sender, receiver, bytes).1 is Ok,
    ensures
        ({
            let after = post.sent(sender, receiver, bytes).0;
            let earlier = post.boxes[post.slot(receiver)->0].queue;
            &&& forall|i: int|
                0 <= i < earlier.len() ==> #[trigger] after_receives(
                    after,
                    receiver,
                    i as nat,
                ).received(receiver, 64).1 == Ok::<Letter, IpcError>(earlier[i])
            &&& after_receives(after, receiver, earlier.len()).received(receiver, 64).1 == Ok::<
                Letter,
                IpcError,
            >(
                Letter {
                    sender,
                    bytes,
                    sequence: post.sent(sender, receiver, bytes).1->Ok_0.0,
                },
            )
        }),
{
    let index = post.slot(receiver)->0;
    let earlier = post.boxes[index].queue;
    let after = post.sent(sender, receiver, bytes).0;
    let letter = Letter { sender, bytes, sequence: post.next_sequence };
    ipc_model::lemma_slot(post.boxes, 0, receiver);
    law_bounds_are_kept(post, sender, receiver, bytes, 64, false);
    lemma_slot_kept(post.boxes, index, after.boxes[index], 0, receiver);
    assert(after.boxes[index].queue == earlier.push(letter));
    assert forall|i: int| 0 <= i <= earlier.len() implies #[trigger] after_receives(
        after,
        receiver,
        i as nat,
    ).received(receiver, 64).1 == Ok::<Letter, IpcError>(earlier.push(letter)[i]) by {
        lemma_after_receives(after, receiver, i as nat);
        let then = after_receives(after, receiver, i as nat);
        assert(then.boxes[index].queue[0] == earlier.push(letter)[i]);
        assert(then.boxes[index].queue[0].bytes.len() <= 64);
    }
    assert forall|i: int| 0 <= i < earlier.len() implies #[trigger] after_receives(
        after,
        receiver,
        i as nat,
    ).received(receiver, 64).1 == Ok::<Letter, IpcError>(earlier[i]) by {
        assert(earlier.push(letter)[i] == earlier[i]);
    }
    let last = earlier.len() as int;
    assert(last as nat == earlier.len());
    assert(after_receives(after, receiver, last as nat).received(receiver, 64).1 == Ok::<
        Letter,
        IpcError,
    >(earlier.push(letter)[last]));
    assert(earlier.push(letter)[last] == letter);
}

/// A message that is to be sent.
pub struct Outgoing {
    pub sender: u64,
    pub bytes: Seq<u8>,
}

/// The state after a run of messages was sent to `receiver`, one after the other.
pub open spec fn after_sends(post: Post, receiver: u64, run: Seq<Outgoing>) -> Post
    decreases run.len(),
{
    if run.len() == 0 {
        post
    } else {
        after_sends(post, receiver, run.drop_last()).sent(
            run.last().sender,
            receiver,
            run.last().bytes,
        ).0
    }
}

/// What message `i` of the run was answered when it was sent.
pub open spec fn send_answer(post: Post, receiver: u64, run: Seq<Outgoing>, i: int) -> Result<
    (u64, bool),
    IpcError,
> {
    after_sends(post, receiver, run.take(i)).sent(run[i].sender, receiver, run[i].bytes).1
}

/// Every message of the run was accepted.
pub open spec fn all_accepted(post: Post, receiver: u64, run: Seq<Outgoing>) -> bool {
    forall|i: int| 0 <= i < run.len() ==> (#[trigger] send_answer(post, receiver, run, i)) is Ok
}

/// Message `i` of the run, as it waits in the mailbox.
pub open spec fn numbered(post: Post, run: Seq<Outgoing>, i: int) -> Letter {
    Letter {
        sender: run[i].sender,
        bytes: run[i].bytes,
        sequence: (post.next_sequence + i) as u64,
    }
}

pub proof fn lemma_after_sends(post: Post, receiver: u64, run: Seq<Outgoing>)
    requires
        post.inv(),
        post.slot(receiver) is Some,
        post.boxes[post.slot(receiver)->0].queue.len() == 0,
        all_accepted(post, receiver, run),
        post.next_sequence + run.len() <= u64::MAX,
    ensures
        ({
            let after = after_sends(post, receiver, run);
            &&& after.inv()
            &&& after.slot(receiver) == post.slot(receiver)
            &&& after.next_sequence == post.next_sequence + run.len()
            &&& after.boxes[post.slot(receiver)->0].queue == Seq::new(
                run.len(),
                |i: int| numbered(post, run, i),
            )
        }),
    decreases run.len(),
{
    let index = post.slot(receiver)->0;
    let letters = Seq::new(run.len(), |i: int| numbered(post, run, i));
    ipc_model::lemma_slot(post.boxes, 0, receiver);
    if run.len() == 0 {
        assert(post.boxes[index].queue =~= letters);
    } else {
        let less = run.drop_last();
        let end = run.len() - 1;
        assert forall|i: int| 0 <= i < less.len() implies (#[trigger] send_answer(
            post,
            receiver,
            less,
            i,
        )) is Ok by {
            assert(less.take(i) =~= run.take(i));
            assert(send_answer(post, receiver, run, i) is Ok);
        }
        lemma_after_sends(post, receiver, less);
        let before = after_sends(post, receiver, less);
        assert(run.take(end) =~= less);
        assert(send_answer(post, receiver, run, end) is Ok);
        law_bounds_are_kept(before, run.last().sender, receiver, run.last().bytes, 64, false);
        let after = after_sends(post, receiver, run);
        lemma_slot_kept(before.boxes, index, after.boxes[index], 0, receiver);
        assert(after.boxes[index].queue =~= letters);
    }
}

/// What was sent is received: behind a run of messages that an empty mailbox accepted, as many
/// receives give exactly those messages back, in the order in which they were sent, each with its
/// sender and with the number that its send was answered; the numbers rise by one. The next
/// receive finds the mailbox empty. This is for numbers that have not reached their end.
pub proof fn law_runs_of_messages_arrive(
    post: Post,
    receiver: u64,
    run: Seq<Outgoing>,
    room: nat,
)
    requires
        post.inv(),
        post.slot(receiver) is Some,
        post.boxes[post.slot(receiver)->0].queue.len() == 0,
        all_accepted(post, receiver, run),
        post.next_sequence + run.len() <= u64::MAX,
        room >= 64,
    ensures
        run.len() <= 8,
        forall|i: int|
            0 <= i < run.len() ==> (#[trigger] send_answer(post, receiver, run, i)) is Ok
                && send_answer(post, receiver, run, i)->Ok_0.0 == post.next_sequence + i,
        forall|i: int|
            0 <= i < run.len() ==> #[trigger] after_receives(
                after_sends(post, receiver, run),
                receiver,
                i as nat,
            ).received(receiver, room).1 == Ok::<Letter, IpcError>(
                Letter {
                    sender: run[i].sender,
                    bytes: run[i].bytes,
                    sequence: send_answer(post, receiver, run, i)->Ok_0.0,
                },
            ),
        after_receives(after_sends(post, receiver, run), receiver, run.len()).received(
            receiver,
            room,
        ).1 == Err::<Letter, IpcError>(IpcError::QueueEmpty),
{
    let index = post.slot(receiver)->0;
    let after = after_sends(post, receiver, run);
    let letters = Seq::new(run.len(), |i: int| numbered(post, run, i));
    ipc_model::lemma_slot(post.boxes, 0, receiver);
    lemma_after_sends(post, receiver, run);
    assert(after.boxes[index].queue.len() <= 8);
    assert forall|i: int| 0 <= i < run.len() implies (#[trigger] send_answer(
        post,
        receiver,
        run,
        i,
    )) is Ok && send_answer(post, receiver, run, i)->Ok_0.0 == post.next_sequence + i by {
        let part = run.take(i);
        assert forall|j: int| 0 <= j < part.len() implies (#[trigger] send_answer(
            post,
            receiver,
            part,
            j,
        )) is Ok by {
            assert(part.take(j) =~= run.take(j));
            assert(send_answer(post, receiver, run, j) is Ok);
        }
        lemma_after_sends(post, receiver, part);
    }
    assert forall|i: int| 0 <= i < run.len() implies #[trigger] after_receives(
        after,
        receiver,
        i as nat,
    ).received(receiver, room).1 == Ok::<Letter, IpcError>(
        Letter {
            sender: run[i].sender,
            bytes: run[i].bytes,
            sequence: send_answer(post, receiver, run, i)->Ok_0.0,
        },
    ) by {
        lemma_after_receives(after, receiver, i as nat);
        let then = after_receives(after, receiver, i as nat);
        assert(then.boxes[index].queue[0] == letters[i]);
        assert(then.boxes[index].queue[0].bytes.len() <= 64);
        assert(send_answer(post, receiver, run, i)->Ok_0.0 == post.next_sequence + i);
    }
    lemma_after_receives(after, receiver, run.len());
}

/// A receiver's buffer starts with the message, and keeps what stands behind it.
pub proof fn law_messages_fill_the_start_of_the_buffer(letter: Letter, buffer: Seq<u8>)
    requires
        letter.bytes.len() <= buffer.len(),
    ensures
        letter.written_to(buffer).len() == buffer.len(),
        letter.written_to(buffer).take(letter.bytes.len() as int) == letter.bytes,
        letter.written_to(buffer).skip(letter.bytes.len() as int) == buffer.skip(
            letter.bytes.len() as int,
        ),
{
    assert(letter.written_to(buffer).take(letter.bytes.len() as int) =~= letter.bytes);
    assert(letter.written_to(buffer).skip(letter.bytes.len() as int) =~= buffer.skip(
        letter.bytes.len() as int,
    ));
}

/// Sending and receiving touch one mailbox and no other.
pub proof fn law_other_mailboxes_are_untouched(
    post: Post,
    sender: u64,
    receiver: u64,
    bytes: Seq<u8>,
    room: nat,
    index: int,
)
    requires
        post.inv(),
        0 <= index < 8,
        post.slot(receiver) != Some(index),
    ensures
        post.sent(sender, receiver, bytes).0.boxes[index] == post.boxes[index],
        post.received(receiver, room).0.boxes[index] == post.boxes[index],
{
    ipc_model::lemma_slot(post.boxes, 0, receiver);
}

/// A receiver that is marked as blocked is woken by the next message that is accepted for it,
/// and is then not blocked any more.
pub proof fn law_blocked_receivers_are_woken(
    post: Post,
    sender: u64,
    receiver: u64,
    bytes: Seq<u8>,
)
    requires
        post.inv(),
        post.marked(receiver, true).sent(sender, receiver, bytes).1 is Ok,
    ensures
        post.marked(receiver, true).sent(sender, receiver, bytes).1->Ok_0.1,
        ({
            let after = post.marked(receiver, true).sent(sender, receiver, bytes).0;
            after.slot(receiver) is Some && !after.boxes[after.slot(receiver)->0].waiting
        }),
{
    let blocked = post.marked(receiver, true);
    ipc_model::lemma_slot(post.boxes, 0, receiver);
    ipc_model::lemma_slot(blocked.boxes, 0, receiver);
    let index = blocked.slot(receiver)->0;
    let after = blocked.sent(sender, receiver, bytes).0;
    if post.slot(receiver) is Some {
        lemma_slot_kept(
            post.boxes,
            post.slot(receiver)->0,
            blocked.boxes[post.slot(receiver)->0],
            0,
            receiver,
        );
    }
    lemma_slot_kept(blocked.boxes, index, after.boxes[index], 0, receiver);
}

/// Each message that is accepted gets a higher number than all before it, as long as there are
/// higher numbers.
pub proof fn law_numbers_increase(post: Post, sender: u64, receiver: u64, bytes: Seq<u8>)
    requires
        post.sent(sender, receiver, bytes).1 is Ok,
        post.next_sequence < u64::MAX,
    ensures
        post.sent(sender, receiver, bytes).1->Ok_0.0 == post.next_sequence,
        post.sent(sender, receiver, bytes).0.last_sequence == post.next_sequence,
        post.sent(sender, receiver, bytes).0.next_sequence == post.next_sequence + 1,
{
}

/// A task that was given a mailbox has one, and is given no second one.
pub proof fn law_registering_twice_is_registering_once(post: Post, task: u64)
    requires
        post.inv(),
        post.registered(task).1 is Ok,
    ensures
        post.registered(task).0.slot(task) is Some,
        post.registered(task).0.registered(task) == (
            post.registered(task).0,
            Ok::<(), IpcError>(()),
        ),
{
    let after = post.registered(task).0;
    ipc_model::lemma_slot(post.boxes, 0, task);
    ipc_model::lemma_slot(post.boxes, 0, 0);
    ipc_model::lemma_slot(after.boxes, 0, task);
    if post.slot(task) is None {
        let index = post.slot(0)->0;
        assert(after.boxes[index].owner == task);
    }
}

/// A task whose mailbox was taken away can neither send nor be sent to.
pub proof fn law_unregistered_tasks_are_unreachable(
    post: Post,
    task: u64,
    other: u64,
    bytes: Seq<u8>,
)
    requires
        post.inv(),
        post.initialized,
        task != 0,
        post.unregistered(task).1 is Ok,
        bytes.len() <= 64,
    ensures
        post.unregistered(task).0.sent(other, task, bytes).1 == Err::<(u64, bool), IpcError>(
            IpcError::EndpointMissing,
        ),
        post.unregistered(task).0.sent(task, other, bytes).1 == Err::<(u64, bool), IpcError>(
            IpcError::EndpointMissing,
        ),
{
    let after = post.unregistered(task).0;
    let index = post.slot(task)->0;
    ipc_model::lemma_slot(post.boxes, 0, task);
    ipc_model::lemma_slot(after.boxes, 0, task);
    if after.slot(task) is Some {
        let found = after.slot(task)->0;
        assert(found != index);
        assert(post.boxes[found].owner == post.boxes[index].owner);
        if found < index {
            assert(post.boxes[found].owner != post.boxes[index].owner);
        } else {
            assert(post.boxes[index].owner != post.boxes[found].owner);
        }
    }
}

/// The messages that were sent and neither received nor lost with their mailbox, less those
/// that wait.
pub open spec fn unaccounted(post: Post) -> int {
    post.counters.messages_sent - post.counters.messages_received
        - post.counters.dropped_on_cleanup - ipc_model::queued(post.boxes)
}

/// The weight of one mailbox in the number of waiting messages.
spec fn load(mailbox: Mailbox) -> nat {
    if mailbox.owner != 0 {
        mailbox.queue.len()
    } else {
        0
    }
}

proof fn lemma_queued_update(boxes: Seq<Mailbox>, index: int, mailbox: Mailbox)
    requires
        0 <= index < boxes.len(),
    ensures
        ipc_model::queued(boxes.update(index, mailbox)) == ipc_model::queued(boxes) - load(
            boxes[index],
        ) + load(mailbox),
    decreases boxes.len(),
{
    let changed = boxes.update(index, mailbox);
    if index == boxes.len() - 1 {
        assert(changed.drop_last() =~= boxes.drop_last());
    } else {
        assert(changed.drop_last() =~= boxes.drop_last().update(index, mailbox));
        lemma_queued_update(boxes.drop_last(), index, mailbox);
    }
}

/// No message gets lost uncounted or appears from nowhere: each one that was sent waits, or was
/// received, or was dropped with its mailbox. This is for tasks with a number and for counters
/// that have not reached their end.
pub proof fn law_messages_are_accounted_for(
    post: Post,
    task: u64,
    sender: u64,
    bytes: Seq<u8>,
    room: nat,
    waiting: bool,
)
    requires
        post.inv(),
        task != 0,
        post.counters.messages_sent < u64::MAX,
        post.counters.messages_received < u64::MAX,
        post.counters.dropped_on_cleanup + 8 <= u64::MAX,
    ensures
        unaccounted(post.registered(task).0) == unaccounted(post),
        unaccounted(post.unregistered(task).0) == unaccounted(post),
        unaccounted(post.sent(sender, task, bytes).0) == unaccounted(post),
        unaccounted(post.received(task, room).0) == unaccounted(post),
        unaccounted(post.marked(task, waiting)) == unaccounted(post),
{
    ipc_model::lemma_slot(post.boxes, 0, task);
    ipc_model::lemma_slot(post.boxes, 0, 0);
    if post.slot(task) is Some {
        let index = post.slot(task)->0;
        let mailbox = post.boxes[index];
        let letter = Letter { sender, bytes, sequence: post.next_sequence };
        lemma_queued_update(post.boxes, index, ipc_model::vacant());
        lemma_queued_update(
            post.boxes,
            index,
            Mailbox { queue: mailbox.queue.push(letter), waiting: false, ..mailbox },
        );
        lemma_queued_update(
            post.boxes,
            index,
            Mailbox { queue: mailbox.queue.skip(1), ..mailbox },
        );
        lemma_queued_update(post.boxes, index, Mailbox { waiting, ..mailbox });
    } else if post.slot(0) is Some {
        lemma_queued_update(
            post.boxes,
            post.slot(0)->0,
            Mailbox { owner: task, ..ipc_model::vacant() },
        );
    }
}

} // verus!
