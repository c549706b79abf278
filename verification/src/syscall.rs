//! The system calls: a table of them, and what a call does.
use vstd::prelude::*;

verus! {

pub const SYSCALL_LOG: u64 = 1;

pub const SYSCALL_UPTIME: u64 = 2;

pub const SYSCALL_EXIT: u64 = 3;

pub const SYSCALL_YIELD: u64 = 4;

pub const RET_OK: u64 = 0;

pub const RET_UNKNOWN_SYSCALL: u64 = 0xffff_ffff_ffff_ffff;

/// What serves a system call.
#[derive(Clone, Copy, PartialEq, Eq, Structural)]
pub enum SyscallHandler {
    Log,
    Uptime,
    Exit,
    Yield,
}

#[derive(Clone, Copy, PartialEq, Eq, Structural)]
pub enum ReturnCode {
    Zero,
    Dynamic,
    Never,
}

#[derive(Clone, Copy)]
pub struct SyscallEntry {
    pub number: u64,
    pub name: &'static str,
    pub arg_count: u8,
    pub return_code: ReturnCode,
    pub logging: bool,
    pub handler: SyscallHandler,
}

#[derive(Clone, Copy, PartialEq, Eq, Structural)]
pub struct Snapshot {
    pub initialized: bool,
    pub entries: u64,
    pub dispatches: u64,
    pub unknown_syscalls: u64,
    pub last_number: u64,
    pub last_return: u64,
}

/// The registers of the caller that a system call may change.
#[derive(Clone, Copy, PartialEq, Eq, Structural)]
pub struct SyscallFrame {
    pub rax: u64,
}

/// What is remembered of the calls so far.
#[derive(Clone, Copy, PartialEq, Eq, Structural)]
pub struct SyscallState {
    pub initialized: bool,
    pub dispatches: u64,
    pub unknown_syscalls: u64,
    pub last_number: u64,
    pub last_return: u64,
}

/// What a call asks for outside of this module.
#[derive(Clone, Copy, PartialEq, Eq, Structural)]
pub enum SyscallAction {
    /// Nothing: there is no such call, and the caller has its answer.
    Refused,
    /// Write the number to the log.
    Log { id: u64 },
    /// Read the clock.
    ReadClock,
    /// End the program with this code. The call does not return.
    Exit { code: u64 },
    /// Let other tasks run.
    Yield,
}

/// What came of an action. Ending a program has no answer.
#[derive(Clone, Copy, PartialEq, Eq, Structural)]
pub enum SyscallAnswer {
    Logged,
    Clock { ticks: u64 },
    Yielded,
}

/// The table of calls.
pub open spec fn syscalls() -> Seq<SyscallEntry> {
    seq![
        SyscallEntry {
            number: 1,
            name: "log",
            arg_count: 1,
            return_code: ReturnCode::Zero,
            logging: true,
            handler: SyscallHandler::Log,
        },
        SyscallEntry {
            number: 2,
            name: "uptime",
            arg_count: 0,
            return_code: ReturnCode::Dynamic,
            logging: true,
            handler: SyscallHandler::Uptime,
        },
        SyscallEntry {
            number: 3,
            name: "exit",
            arg_count: 1,
            return_code: ReturnCode::Never,
            logging: true,
            handler: SyscallHandler::Exit,
        },
        SyscallEntry {
            number: 4,
            name: "yield",
            arg_count: 0,
            return_code: ReturnCode::Zero,
            logging: true,
            handler: SyscallHandler::Yield,
        },
    ]
}

fn table() -> (r: [SyscallEntry; 4])
    ensures
        r@ == syscalls(),
{
    let entries = [
        SyscallEntry {
            number: SYSCALL_LOG,
            name: "log",
            arg_count: 1,
            return_code: ReturnCode::Zero,
            logging: true,
            handler: SyscallHandler::Log,
        },
        SyscallEntry {
            number: SYSCALL_UPTIME,
            name: "uptime",
            arg_count: 0,
            return_code: ReturnCode::Dynamic,
            logging: true,
            handler: SyscallHandler::Uptime,
        },
        SyscallEntry {
            number: SYSCALL_EXIT,
            name: "exit",
            arg_count: 1,
            return_code: ReturnCode::Never,
            logging: true,
            handler: SyscallHandler::Exit,
        },
        SyscallEntry {
            number: SYSCALL_YIELD,
            name: "yield",
            arg_count: 0,
            return_code: ReturnCode::Zero,
            logging: true,
            handler: SyscallHandler::Yield,
        },
    ];
    assert(entries@ =~= syscalls());
    entries
}

impl SyscallState {
    pub fn new() -> (r: Self)
        ensures
            r == (SyscallState {
                initialized: false,
                dispatches: 0,
                unknown_syscalls: 0,
                last_number: 0,
                last_return: 0,
            }),
    {
        SyscallState {
            initialized: false,
            dispatches: 0,
            unknown_syscalls: 0,
            last_number: 0,
            last_return: 0,
        }
    }

    pub open spec fn report(self) -> Snapshot {
        Snapshot {
            initialized: self.initialized,
            entries: 4,
            dispatches: self.dispatches,
            unknown_syscalls: self.unknown_syscalls,
            last_number: self.last_number,
            last_return: self.last_return,
        }
    }

    /// The state after a call of `number` was taken in.
    pub open spec fn dispatched(self, number: u64) -> SyscallState {
        SyscallState {
            dispatches: counted(self.dispatches),
            last_number: number,
            unknown_syscalls: if entry_for(number) is None {
                counted(self.unknown_syscalls)
            } else {
                self.unknown_syscalls
            },
            last_return: match entry_for(number) {
                None => RET_UNKNOWN_SYSCALL,
                Some(entry) => if entry.return_code == ReturnCode::Never {
                    RET_OK
                } else {
                    self.last_return
                },
            },
            ..self
        }
    }
}

/// One more; behind the largest number comes zero.
pub open spec fn counted(count: u64) -> u64 {
    if count == u64::MAX {
        0
    } else {
        (count + 1) as u64
    }
}

/// The entry of the table with this number.
pub open spec fn entry_for(number: u64) -> Option<SyscallEntry> {
    if 1 <= number <= 4 {
        Some(syscalls()[number - 1])
    } else {
        None
    }
}

/// What a call of `number` asks for.
pub open spec fn action_for(number: u64, arg0: u64) -> SyscallAction {
    if number == SYSCALL_LOG {
        SyscallAction::Log { id: arg0 }
    } else if number == SYSCALL_UPTIME {
        SyscallAction::ReadClock
    } else if number == SYSCALL_EXIT {
        SyscallAction::Exit { code: arg0 }
    } else if number == SYSCALL_YIELD {
        SyscallAction::Yield
    } else {
        SyscallAction::Refused
    }
}

/// What the caller gets for an answer.
pub open spec fn return_value(answer: SyscallAnswer) -> u64 {
    match answer {
        SyscallAnswer::Clock { ticks } => ticks,
        _ => RET_OK,
    }
}

/// Marks the table as ready.
pub fn init(state: &mut SyscallState) -> (r: Snapshot)
    ensures
        *final(state) == (SyscallState { initialized: true, ..*old(state) }),
        r == final(state).report(),
{
    state.initialized = true;
    snapshot(state)
}

/// Takes a call in: counts it, refuses it where there is no such call, and says what it asks
/// for. Unless that is nothing or the end of the program, `complete_dispatch` is owed.
pub fn dispatch(state: &mut SyscallState, number: u64, arg0: u64, frame: &mut SyscallFrame) -> (r:
    SyscallAction)
    ensures
        *final(state) == old(state).dispatched(number),
        r == action_for(number, arg0),
        final(frame).rax == if entry_for(number) is None {
            RET_UNKNOWN_SYSCALL
        } else {
            old(frame).rax
        },
{
    state.dispatches = state.dispatches.wrapping_add(1);
    state.last_number = number;
    let entry: SyscallEntry = match lookup(number) {
        None => {
            state.unknown_syscalls = state.unknown_syscalls.wrapping_add(1);
            state.last_return = RET_UNKNOWN_SYSCALL;
            frame.rax = RET_UNKNOWN_SYSCALL;
            return SyscallAction::Refused;
        },
        Some(entry) => entry,
    };
    if entry.return_code == ReturnCode::Never {
        state.last_return = RET_OK;
    }
    match entry.handler {
        SyscallHandler::Log => SyscallAction::Log { id: arg0 },
        SyscallHandler::Uptime => SyscallAction::ReadClock,
        SyscallHandler::Exit => SyscallAction::Exit { code: arg0 },
        SyscallHandler::Yield => SyscallAction::Yield,
    }
}

/// Ends a call that is served, and hands its answer to the caller.
pub fn complete_dispatch(
    state: &mut SyscallState,
    answer: SyscallAnswer,
    frame: &mut SyscallFrame,
)
    ensures
        *final(state) == (SyscallState { last_return: return_value(answer), ..*old(state) }),
        final(frame).rax == return_value(answer),
{
    let value: u64 = match answer {
        SyscallAnswer::Logged => RET_OK,
        SyscallAnswer::Clock { ticks } => ticks,
        SyscallAnswer::Yielded => RET_OK,
    };
    frame.rax = value;
    state.last_return = value;
}

/// What is remembered of the calls so far.
pub fn snapshot(state: &SyscallState) -> (r: Snapshot)
    ensures
        r == state.report(),
{
    Snapshot {
        initialized: state.initialized,
        entries: table_len() as u64,
        dispatches: state.dispatches,
        unknown_syscalls: state.unknown_syscalls,
        last_number: state.last_number,
        last_return: state.last_return,
    }
}

/// How many calls there are.
pub fn table_len() -> (r: usize)
    ensures
        r == syscalls().len(),
{
    4
}

/// One line of the table.
pub fn table_entry(index: usize) -> (r: Option<SyscallEntry>)
    ensures
        r == if index < syscalls().len() {
            Some(syscalls()[index as int])
        } else {
            None
        },
{
    if index >= table_len() {
        return None;
    }
    Some(table()[index])
}

/// The entry of the table with this number.
pub fn lookup(number: u64) -> (r: Option<SyscallEntry>)
    ensures
        r == entry_for(number),
{
    let entries: [SyscallEntry; 4] = table();
    let mut index: usize = 0;
    while index < 4
        invariant
            index <= 4,
            entries@ == syscalls(),
            forall|i: int| 0 <= i < index ==> (#[trigger] entries@[i]).number != number,
        decreases 4 - index,
    {
        assert(syscalls()[index as int].number == index + 1);
        if entries[index].number == number {
            return Some(entries[index]);
        }
        index = index + 1;
    }
    assert(entries@[0].number == 1 && entries@[1].number == 2);
    assert(entries@[2].number == 3 && entries@[3].number == 4);
    None
}

/// Tests the table. All that is left to be seen is whether it was marked as ready.
pub fn selftest(state: &SyscallState) -> (r: bool)
    ensures
        r == state.initialized,
{
    let entries: [SyscallEntry; 4] = table();
    assert(syscalls()[0].arg_count == 1 && syscalls()[1].arg_count == 0);
    assert(syscalls()[2].return_code == ReturnCode::Never);
    assert(syscalls()[3].return_code == ReturnCode::Zero);
    state.initialized && table_len() == 4 && lookup(SYSCALL_LOG).is_some() && lookup(
        SYSCALL_UPTIME,
    ).is_some() && lookup(SYSCALL_EXIT).is_some() && lookup(SYSCALL_YIELD).is_some()
        && table_numbers_unique() && entries[0].arg_count == 1 && entries[1].arg_count == 0
        && entries[2].return_code == ReturnCode::Never && entries[3].return_code
        == ReturnCode::Zero
}

/// A word for what a call returns.
pub fn return_code_name(code: ReturnCode) -> (r: &'static str)
    ensures
        r@ == match code {
            ReturnCode::Zero => "zero"@,
            ReturnCode::Dynamic => "dynamic"@,
            ReturnCode::Never => "never"@,
        },
{
    match code {
        ReturnCode::Zero => "zero",
        ReturnCode::Dynamic => "dynamic",
        ReturnCode::Never => "never",
    }
}

/// Whether no number stands in the table twice. None does.
fn table_numbers_unique() -> (r: bool)
    ensures
        r,
{
    let entries: [SyscallEntry; 4] = table();
    let mut left: usize = 0;
    while left < 4
        invariant
            left <= 4,
            entries@ == syscalls(),
        decreases 4 - left,
    {
        let mut right: usize = left + 1;
        while right < 4
            invariant
                left < right <= 4,
                entries@ == syscalls(),
            decreases 4 - right,
        {
            assert(syscalls()[left as int].number == left + 1);
            assert(syscalls()[right as int].number == right + 1);
            if entries[left].number == entries[right].number {
                return false;
            }
            right = right + 1;
        }
        left = left + 1;
    }
    true
}

/// No number stands in the table twice, and each one that stands there is found.
pub proof fn law_numbers_are_unique(left: int, right: int)
    requires
        0 <= left < syscalls().len(),
        0 <= right < syscalls().len(),
    ensures
        syscalls()[left].number == syscalls()[right].number ==> left == right,
        entry_for(syscalls()[left].number) == Some(syscalls()[left]),
{
}

/// A call that does not exist is answered with the largest number, is counted as such, and asks
/// for nothing. A call that exists is not counted among those.
pub proof fn law_unknown_calls_are_refused(state: SyscallState, number: u64, arg0: u64)
    ensures
        (action_for(number, arg0) == SyscallAction::Refused) == (entry_for(number) is None),
        entry_for(number) is None ==> state.dispatched(number).last_return == RET_UNKNOWN_SYSCALL
            && state.dispatched(number).unknown_syscalls == counted(state.unknown_syscalls),
        entry_for(number) is Some ==> state.dispatched(number).unknown_syscalls
            == state.unknown_syscalls,
{
}

/// What each call asks for and what it is in the table: 1 logs its argument, 2 reads the clock, 3
/// ends the program with its argument, 4 yields, and no other number is a call. Only the end of
/// the program never returns, and only the clock's answer varies.
pub proof fn law_calls_do_what_they_say(number: u64, arg0: u64)
    ensures
        action_for(1, arg0) == (SyscallAction::Log { id: arg0 }),
        action_for(2, arg0) == SyscallAction::ReadClock,
        action_for(3, arg0) == (SyscallAction::Exit { code: arg0 }),
        action_for(4, arg0) == SyscallAction::Yield,
        number == 0 || number > 4 ==> action_for(number, arg0) == SyscallAction::Refused
            && entry_for(number) is None,
        entry_for(number) matches Some(entry) ==> {
            &&& entry.number == number
            &&& entry.handler is Log <==> action_for(number, arg0) is Log
            &&& entry.handler is Uptime <==> action_for(number, arg0) is ReadClock
            &&& entry.handler is Exit <==> action_for(number, arg0) is Exit
            &&& entry.handler is Yield <==> action_for(number, arg0) is Yield
            &&& entry.return_code == ReturnCode::Never <==> entry.handler is Exit
            &&& entry.return_code == ReturnCode::Dynamic <==> entry.handler is Uptime
            &&& entry.arg_count == if entry.handler is Log || entry.handler is Exit {
                1int
            } else {
                0
            }
        },
{
}

/// Every call counts, and is remembered as the last one. A call that is refused is answered with
/// the largest number, the end of a program with zero, and any other leaves the last answer as it
/// is until its own is there.
pub proof fn law_calls_are_counted(state: SyscallState, number: u64)
    ensures
        ({
            let after = state.dispatched(number);
            &&& after.dispatches == (state.dispatches + 1) % 0x1_0000_0000_0000_0000
            &&& after.last_number == number
            &&& 1 <= number <= 4 ==> after.unknown_syscalls == state.unknown_syscalls
            &&& !(1 <= number <= 4) ==> after.unknown_syscalls == (state.unknown_syscalls + 1)
                % 0x1_0000_0000_0000_0000 && after.last_return == u64::MAX
            &&& number == 3 ==> after.last_return == 0
            &&& number == 1 || number == 2 || number == 4 ==> after.last_return
                == state.last_return
            &&& after.initialized == state.initialized
        }),
        forall|ticks: u64| #[trigger] return_value(SyscallAnswer::Clock { ticks }) == ticks,
        return_value(SyscallAnswer::Logged) == 0,
        return_value(SyscallAnswer::Yielded) == 0,
{
}

} // verus!
