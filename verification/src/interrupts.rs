//! Interrupts: the table of gates, the interrupt controllers and the timer, and what a handler
//! decides.
use crate::paniclog;
use crate::ports::PortWrite;
use vstd::prelude::*;

verus! {

pub const IDT_ENTRIES: usize = 256;

const INTERRUPT_GATE: u16 = 0x8e00;

const INTERRUPT_GATE_DPL3: u16 = 0xee00;

const PIC_1_COMMAND: u16 = 0x20;

const PIC_1_DATA: u16 = 0x21;

const PIC_2_COMMAND: u16 = 0xa0;

const PIC_2_DATA: u16 = 0xa1;

const PIC_EOI: u8 = 0x20;

const PIC_1_OFFSET: u8 = 32;

const PIC_2_OFFSET: u8 = 40;

pub const TIMER_IRQ: u8 = 0;

pub const KEYBOARD_IRQ: u8 = 1;

pub const TIMER_VECTOR: usize = 32;

pub const KEYBOARD_VECTOR: usize = 33;

pub const SYSCALL_VECTOR: usize = 0x80;

const PIT_COMMAND_PORT: u16 = 0x43;

const PIT_CHANNEL_0_PORT: u16 = 0x40;

const PIT_MODE_3_BINARY: u8 = 0x36;

const PIT_DIVISOR_18HZ: u16 = 65535;

/// What the processor leaves behind an exception.
#[derive(Clone, Copy, PartialEq, Eq, Structural)]
pub struct ExceptionContext {
    pub vector: u64,
    pub error_code: u64,
    pub instruction_pointer: u64,
    pub code_segment: u64,
    pub cpu_flags: u64,
}

/// The registers of what the timer interrupted.
#[derive(Clone, Copy, PartialEq, Eq, Structural)]
pub struct TimerContext {
    pub gs: u64,
    pub fs: u64,
    pub es: u64,
    pub ds: u64,
    pub r15: u64,
    pub r14: u64,
    pub r13: u64,
    pub r12: u64,
    pub r11: u64,
    pub r10: u64,
    pub r9: u64,
    pub r8: u64,
    pub rbp: u64,
    pub rdi: u64,
    pub rsi: u64,
    pub rdx: u64,
    pub rcx: u64,
    pub rbx: u64,
    pub rax: u64,
    pub instruction_pointer: u64,
    pub code_segment: u64,
    pub cpu_flags: u64,
    pub stack_pointer: u64,
    pub stack_segment: u64,
}

/// The code segment is one of user programs: its two lowest bits are set.
pub open spec fn is_user_segment(code_segment: u64) -> bool {
    code_segment % 4 == 3
}

impl TimerContext {
    pub fn empty() -> (r: Self)
        ensures
            r == (TimerContext {
                gs: 0,
                fs: 0,
                es: 0,
                ds: 0,
                r15: 0,
                r14: 0,
                r13: 0,
                r12: 0,
                r11: 0,
                r10: 0,
                r9: 0,
                r8: 0,
                rbp: 0,
                rdi: 0,
                rsi: 0,
                rdx: 0,
                rcx: 0,
                rbx: 0,
                rax: 0,
                instruction_pointer: 0,
                code_segment: 0,
                cpu_flags: 0,
                stack_pointer: 0,
                stack_segment: 0,
            }),
    {
        TimerContext {
            gs: 0,
            fs: 0,
            es: 0,
            ds: 0,
            r15: 0,
            r14: 0,
            r13: 0,
            r12: 0,
            r11: 0,
            r10: 0,
            r9: 0,
            r8: 0,
            rbp: 0,
            rdi: 0,
            rsi: 0,
            rdx: 0,
            rcx: 0,
            rbx: 0,
            rax: 0,
            instruction_pointer: 0,
            code_segment: 0,
            cpu_flags: 0,
            stack_pointer: 0,
            stack_segment: 0,
        }
    }

    /// Whether a user program was interrupted.
    pub fn from_user(&self) -> (r: bool)
        ensures
            r == is_user_segment(self.code_segment),
    {
        exception_from_user(self.code_segment)
    }
}

#[derive(Clone, Copy, PartialEq, Eq, Structural)]
pub struct AbiSnapshot {
    pub idt_entry_bytes: u64,
    pub exception_context_bytes: u64,
    pub timer_context_bytes: u64,
    pub syscall_frame_bytes: u64,
    pub timer_gate_present: bool,
    pub keyboard_gate_present: bool,
    pub syscall_gate_present: bool,
    pub syscall_gate_dpl3: bool,
    pub double_fault_ist: bool,
    pub pic_timer_vector: u64,
    pub pic_keyboard_vector: u64,
    pub syscall_vector: u64,
}

/// One entry of the table: where an interrupt goes, and who may cause it.
#[derive(Clone, Copy, PartialEq, Eq, Structural)]
pub struct IdtEntry {
    pub offset_low: u16,
    pub selector: u16,
    pub options: u16,
    pub offset_mid: u16,
    pub offset_high: u32,
    pub reserved: u32,
}

/// An entry that leads to the handler at `address`.
pub open spec fn gate(address: u64, selector: u16, options: u16) -> IdtEntry {
    IdtEntry {
        offset_low: (address % 0x1_0000) as u16,
        selector,
        options,
        offset_mid: (address / 0x1_0000 % 0x1_0000) as u16,
        offset_high: (address / 0x1_0000_0000) as u32,
        reserved: 0,
    }
}

/// An entry that leads nowhere.
pub open spec fn missing_gate() -> IdtEntry {
    IdtEntry {
        offset_low: 0,
        selector: 0,
        options: 0,
        offset_mid: 0,
        offset_high: 0,
        reserved: 0,
    }
}

impl IdtEntry {
    /// The address that the three parts of the offset make up.
    pub open spec fn target(self) -> int {
        self.offset_low + 0x1_0000 * self.offset_mid + 0x1_0000_0000 * self.offset_high
    }

    pub fn missing() -> (r: Self)
        ensures
            r == missing_gate(),
    {
        IdtEntry {
            offset_low: 0,
            selector: 0,
            options: 0,
            offset_mid: 0,
            offset_high: 0,
            reserved: 0,
        }
    }

    /// Points the entry at a handler that runs on the stack in use.
    pub fn set_handler(&mut self, address: u64, selector: u16)
        ensures
            *final(self) == gate(address, selector, 0x8e00),
    {
        self.set_handler_with_ist(address, selector, 0);
    }

    /// Points the entry at a handler that runs on the stack with the number `ist_index`.
    pub fn set_handler_with_ist(&mut self, address: u64, selector: u16, ist_index: u16)
        ensures
            *final(self) == gate(address, selector, (0x8e00 + ist_index % 8) as u16),
    {
        assert(0x8e00u16 | (ist_index & 0x0007) == 0x8e00 + ist_index % 8) by (bit_vector);
        self.set_handler_with_options(address, selector, INTERRUPT_GATE | (ist_index & 0x0007));
    }

    /// Points the entry at a handler that user programs may call.
    pub fn set_user_handler(&mut self, address: u64, selector: u16)
        ensures
            *final(self) == gate(address, selector, 0xee00),
    {
        self.set_handler_with_options(address, selector, INTERRUPT_GATE_DPL3);
    }

    pub fn set_handler_with_options(&mut self, address: u64, selector: u16, options: u16)
        ensures
            *final(self) == gate(address, selector, options),
    {
        self.offset_low = (address % 0x1_0000) as u16;
        self.selector = selector;
        self.options = options;
        self.offset_mid = (address / 0x1_0000 % 0x1_0000) as u16;
        self.offset_high = (address / 0x1_0000_0000) as u32;
        self.reserved = 0;
    }
}

/// The addresses of the handlers. Those for exceptions stand at their vectors.
pub struct Stubs {
    pub timer: u64,
    pub keyboard: u64,
    pub syscall: u64,
    pub default_irq: u64,
    pub default_interrupt: u64,
    pub exceptions: [u64; 31],
}

/// The exceptions that have a handler of their own.
pub open spec fn has_own_stub(vector: int) -> bool {
    0 <= vector <= 8 || 10 <= vector <= 14 || 16 <= vector <= 21 || 28 <= vector <= 30
}

/// Where an interrupt goes.
pub open spec fn handler_of(stubs: &Stubs, vector: int) -> u64 {
    if vector == SYSCALL_VECTOR {
        stubs.syscall
    } else if vector == TIMER_VECTOR {
        stubs.timer
    } else if vector == KEYBOARD_VECTOR {
        stubs.keyboard
    } else if 32 <= vector < 48 {
        stubs.default_irq
    } else if has_own_stub(vector) {
        stubs.exceptions@[vector]
    } else {
        stubs.default_interrupt
    }
}

/// The options of a gate: user programs may cause system calls only, and a double fault gets a
/// stack of its own.
pub open spec fn options_of(vector: int, double_fault_ist: u16) -> u16 {
    if vector == SYSCALL_VECTOR {
        0xee00
    } else if vector == 8 {
        (0x8e00 + double_fault_ist % 8) as u16
    } else {
        0x8e00
    }
}

/// All gates.
pub open spec fn gates(stubs: &Stubs, selector: u16, double_fault_ist: u16) -> Seq<IdtEntry> {
    Seq::new(
        256,
        |vector: int|
            gate(handler_of(stubs, vector), selector, options_of(vector, double_fault_ist)),
    )
}

/// The table of gates and what goes with it.
pub struct InterruptState {
    pub idt: [IdtEntry; IDT_ENTRIES],
    pub ticks: u64,
    pub syscall_gate_ready: bool,
}

impl InterruptState {
    pub fn new() -> (r: Self)
        ensures
            r.idt@ == Seq::new(256, |i: int| missing_gate()),
            r.ticks == 0,
            !r.syscall_gate_ready,
    {
        let idt: [IdtEntry; IDT_ENTRIES] = [IdtEntry::missing(); IDT_ENTRIES];
        assert(idt@ =~= Seq::new(256, |i: int| missing_gate()));
        InterruptState { idt, ticks: 0, syscall_gate_ready: false }
    }
}

/// Fills the table of gates, and lists the writes that set up the interrupt controllers and the
/// timer. The table is to be loaded before the writes are made, with no interrupt between.
pub fn init(state: &mut InterruptState, stubs: &Stubs, selector: u16, double_fault_ist: u16) -> (r:
    Vec<PortWrite>)
    ensures
        final(state).idt@ == gates(stubs, selector, double_fault_ist),
        final(state).syscall_gate_ready,
        final(state).ticks == old(state).ticks,
        r@ == pic_writes() + pit_writes(),
{
    init_idt(state, stubs, selector, double_fault_ist);
    let pic: [PortWrite; 18] = remap_pic();
    let pit: [PortWrite; 3] = init_pit();
    let mut writes: Vec<PortWrite> = Vec::new();
    let mut index: usize = 0;
    while index < 18
        invariant
            index <= 18,
            pic@ == pic_writes(),
            writes@ == pic@.take(index as int),
        decreases 18 - index,
    {
        writes.push(pic[index]);
        index = index + 1;
        assert(writes@ =~= pic@.take(index as int));
    }
    writes.push(pit[0]);
    writes.push(pit[1]);
    writes.push(pit[2]);
    assert(writes@ =~= pic_writes() + pit_writes());
    writes
}

/// Fills the table of gates.
pub fn init_idt(state: &mut InterruptState, stubs: &Stubs, selector: u16, double_fault_ist: u16)
    ensures
        final(state).idt@ == gates(stubs, selector, double_fault_ist),
        final(state).syscall_gate_ready,
        final(state).ticks == old(state).ticks,
{
    let mut idt: [IdtEntry; IDT_ENTRIES] = state.idt;
    let mut vector: usize = 0;
    while vector < IDT_ENTRIES
        invariant
            vector <= 256,
            forall|i: int|
                0 <= i < vector ==> #[trigger] idt@[i] == gate(
                    handler_of(stubs, i),
                    selector,
                    options_of(i, double_fault_ist),
                ),
        decreases 256 - vector,
    {
        let mut entry: IdtEntry = IdtEntry::missing();
        if vector == SYSCALL_VECTOR {
            entry.set_user_handler(stubs.syscall, selector);
        } else if vector == TIMER_VECTOR {
            entry.set_handler(stubs.timer, selector);
        } else if vector == KEYBOARD_VECTOR {
            entry.set_handler(stubs.keyboard, selector);
        } else if PIC_1_OFFSET as usize <= vector && vector < PIC_2_OFFSET as usize + 8 {
            entry.set_handler(stubs.default_irq, selector);
        } else if vector == 8 {
            entry.set_handler_with_ist(stubs.exceptions[vector], selector, double_fault_ist);
        } else if vector < 8 || (10 <= vector && vector <= 14) || (16 <= vector && vector <= 21)
            || (28 <= vector && vector <= 30) {
            entry.set_handler(stubs.exceptions[vector], selector);
        } else {
            entry.set_handler(stubs.default_interrupt, selector);
        }
        idt[vector] = entry;
        vector = vector + 1;
    }
    assert(idt@ =~= gates(stubs, selector, double_fault_ist));
    state.idt = idt;
    state.syscall_gate_ready = true;
}

/// The writes that move the interrupts of the controllers to vectors 32 to 47 and leave the
/// timer and the keyboard unmasked, with a short wait behind each step.
pub open spec fn pic_writes() -> Seq<PortWrite> {
    seq![
        PortWrite { port: 0x20, value: 0x11 },
        PortWrite { port: 0x80, value: 0x00 },
        PortWrite { port: 0xa0, value: 0x11 },
        PortWrite { port: 0x80, value: 0x00 },
        PortWrite { port: 0x21, value: 0x20 },
        PortWrite { port: 0x80, value: 0x00 },
        PortWrite { port: 0xa1, value: 0x28 },
        PortWrite { port: 0x80, value: 0x00 },
        PortWrite { port: 0x21, value: 0x04 },
        PortWrite { port: 0x80, value: 0x00 },
        PortWrite { port: 0xa1, value: 0x02 },
        PortWrite { port: 0x80, value: 0x00 },
        PortWrite { port: 0x21, value: 0x01 },
        PortWrite { port: 0x80, value: 0x00 },
        PortWrite { port: 0xa1, value: 0x01 },
        PortWrite { port: 0x80, value: 0x00 },
        PortWrite { port: 0x21, value: 0xfc },
        PortWrite { port: 0xa1, value: 0xff },
    ]
}

/// The writes that start the timer at its slowest.
pub open spec fn pit_writes() -> Seq<PortWrite> {
    seq![
        PortWrite { port: 0x43, value: 0x36 },
        PortWrite { port: 0x40, value: 0xff },
        PortWrite { port: 0x40, value: 0xff },
    ]
}

/// The writes that set up the interrupt controllers.
pub fn remap_pic() -> (r: [PortWrite; 18])
    ensures
        r@ == pic_writes(),
{
    let writes = [
        PortWrite { port: PIC_1_COMMAND, value: 0x11 },
        io_wait(),
        PortWrite { port: PIC_2_COMMAND, value: 0x11 },
        io_wait(),
        PortWrite { port: PIC_1_DATA, value: PIC_1_OFFSET },
        io_wait(),
        PortWrite { port: PIC_2_DATA, value: PIC_2_OFFSET },
        io_wait(),
        PortWrite { port: PIC_1_DATA, value: 0x04 },
        io_wait(),
        PortWrite { port: PIC_2_DATA, value: 0x02 },
        io_wait(),
        PortWrite { port: PIC_1_DATA, value: 0x01 },
        io_wait(),
        PortWrite { port: PIC_2_DATA, value: 0x01 },
        io_wait(),
        PortWrite { port: PIC_1_DATA, value: 0xfc },
        PortWrite { port: PIC_2_DATA, value: 0xff },
    ];
    assert(writes@ =~= pic_writes());
    writes
}

/// The writes that set up the timer.
pub fn init_pit() -> (r: [PortWrite; 3])
    ensures
        r@ == pit_writes(),
{
    let divisor: u16 = PIT_DIVISOR_18HZ;
    let writes = [
        PortWrite { port: PIT_COMMAND_PORT, value: PIT_MODE_3_BINARY },
        PortWrite { port: PIT_CHANNEL_0_PORT, value: (divisor % 256) as u8 },
        PortWrite { port: PIT_CHANNEL_0_PORT, value: (divisor / 256) as u8 },
    ];
    assert(writes@ =~= pit_writes());
    writes
}

/// The write that passes a little time.
fn io_wait() -> (r: PortWrite)
    ensures
        r == (PortWrite { port: 0x80, value: 0 }),
{
    PortWrite { port: 0x80, value: 0 }
}

/// The writes that tell the controllers that an interrupt is over: the second controller where
/// it came from there, and then the first.
pub open spec fn eoi_writes(irq: u8) -> Seq<PortWrite> {
    if irq >= 8 {
        seq![PortWrite { port: 0xa0, value: 0x20 }, PortWrite { port: 0x20, value: 0x20 }]
    } else {
        seq![PortWrite { port: 0x20, value: 0x20 }]
    }
}

/// The writes that tell the controllers that an interrupt is over.
pub fn send_eoi(irq: u8) -> (r: Vec<PortWrite>)
    ensures
        r@ == eoi_writes(irq),
{
    let mut writes: Vec<PortWrite> = Vec::new();
    if irq >= 8 {
        writes.push(PortWrite { port: PIC_2_COMMAND, value: PIC_EOI });
    }
    writes.push(PortWrite { port: PIC_1_COMMAND, value: PIC_EOI });
    assert(writes@ =~= eoi_writes(irq));
    writes
}

/// How often the timer has fired.
pub fn ticks(state: &InterruptState) -> (r: u64)
    ensures
        r == state.ticks,
{
    state.ticks
}

/// Whether user programs can call the kernel.
pub fn syscall_gate_ready(state: &InterruptState) -> (r: bool)
    ensures
        r == state.syscall_gate_ready,
{
    state.syscall_gate_ready
}

/// An entry with these options leads somewhere: bit 15.
pub open spec fn is_present(options: u16) -> bool {
    options / 0x8000 == 1
}

/// Who may cause the interrupt: bits 13 and 14.
pub open spec fn privilege(options: u16) -> u16 {
    options / 0x2000 % 4
}

/// The number of the stack to switch to: bits 0 to 2.
pub open spec fn stack_number(options: u16) -> u16 {
    options % 8
}

/// How many bytes the structures take up that the handlers in assembler rely on.
#[derive(Clone, Copy, PartialEq, Eq, Structural)]
pub struct FrameSizes {
    pub idt_entry: u64,
    pub exception_context: u64,
    pub timer_context: u64,
    pub syscall_frame: u64,
}

/// What is known of the layout that the handlers in assembler rely on. `sizes` are those of the
/// structures in use, `double_fault_ist` is the stack meant for double faults.
pub fn abi_snapshot(state: &InterruptState, sizes: &FrameSizes, double_fault_ist: u16) -> (r:
    AbiSnapshot)
    ensures
        r == (AbiSnapshot {
            idt_entry_bytes: sizes.idt_entry,
            exception_context_bytes: sizes.exception_context,
            timer_context_bytes: sizes.timer_context,
            syscall_frame_bytes: sizes.syscall_frame,
            timer_gate_present: is_present(state.idt@[32].options),
            keyboard_gate_present: is_present(state.idt@[33].options),
            syscall_gate_present: is_present(state.idt@[0x80].options),
            syscall_gate_dpl3: privilege(state.idt@[0x80].options) == 3,
            double_fault_ist: stack_number(state.idt@[8].options) == double_fault_ist,
            pic_timer_vector: 32,
            pic_keyboard_vector: 33,
            syscall_vector: 0x80,
        }),
{
    let timer: u16 = state.idt[TIMER_VECTOR].options;
    let keyboard: u16 = state.idt[KEYBOARD_VECTOR].options;
    let syscall: u16 = state.idt[SYSCALL_VECTOR].options;
    let double_fault: u16 = state.idt[8].options;
    AbiSnapshot {
        idt_entry_bytes: sizes.idt_entry,
        exception_context_bytes: sizes.exception_context,
        timer_context_bytes: sizes.timer_context,
        syscall_frame_bytes: sizes.syscall_frame,
        timer_gate_present: gate_present(timer),
        keyboard_gate_present: gate_present(keyboard),
        syscall_gate_present: gate_present(syscall),
        syscall_gate_dpl3: gate_dpl(syscall) == 3,
        double_fault_ist: gate_ist(double_fault) == double_fault_ist,
        pic_timer_vector: TIMER_VECTOR as u64,
        pic_keyboard_vector: KEYBOARD_VECTOR as u64,
        syscall_vector: SYSCALL_VECTOR as u64,
    }
}

fn gate_present(options: u16) -> (r: bool)
    ensures
        r == is_present(options),
{
    assert((options & 0x8000 != 0) == (options / 0x8000 == 1)) by (bit_vector);
    options & 0x8000 != 0
}

fn gate_dpl(options: u16) -> (r: u16)
    ensures
        r == privilege(options),
{
    assert((options >> 13) & 0x0003 == options / 0x2000 % 4) by (bit_vector);
    (options >> 13) & 0x0003
}

fn gate_ist(options: u16) -> (r: u16)
    ensures
        r == stack_number(options),
{
    assert(options & 0x0007 == options % 8) by (bit_vector);
    options & 0x0007
}

/// What the scheduler wants done behind a tick.
#[derive(Clone, Copy, PartialEq, Eq, Structural)]
pub enum TimerAction {
    Continue,
    Switch(u64),
    Stop(u64),
}

/// How the handler of the timer ends: it returns a value, zero or the root of the address space
/// to switch to, or it ends the program that was running.
#[derive(Clone, Copy, PartialEq, Eq, Structural)]
pub enum TimerEnd {
    Return(u64),
    ExitToKernel(u64),
}

/// Takes a tick in, and says whether the scheduler is to be asked what to do: only where a user
/// program was interrupted. After that `finish_timer_interrupt` is owed.
pub fn timer_interrupt_handler(state: &mut InterruptState, context: Option<&TimerContext>) -> (r:
    bool)
    ensures
        final(state).idt == old(state).idt,
        final(state).syscall_gate_ready == old(state).syscall_gate_ready,
        final(state).ticks == if old(state).ticks == u64::MAX {
            0
        } else {
            (old(state).ticks + 1) as u64
        },
        r == match context {
            Some(interrupted) => is_user_segment(interrupted.code_segment),
            None => false,
        },
{
    state.ticks = state.ticks.wrapping_add(1);
    match context {
        None => false,
        Some(interrupted) => interrupted.from_user(),
    }
}

/// Ends a tick: the writes to make, and then what to do. Where the scheduler was not asked, the
/// action is to continue.
pub fn finish_timer_interrupt(action: TimerAction) -> (r: (Vec<PortWrite>, TimerEnd))
    ensures
        r.0@ == eoi_writes(TIMER_IRQ),
        r.1 == match action {
            TimerAction::Continue => TimerEnd::Return(0),
            TimerAction::Switch(root) => TimerEnd::Return(root),
            TimerAction::Stop(exit_code) => TimerEnd::ExitToKernel(exit_code),
        },
{
    let end = match action {
        TimerAction::Continue => TimerEnd::Return(0),
        TimerAction::Switch(root) => TimerEnd::Return(root),
        TimerAction::Stop(exit_code) => TimerEnd::ExitToKernel(exit_code),
    };
    (send_eoi(TIMER_IRQ), end)
}

/// The writes behind an interrupt of the keyboard.
pub fn keyboard_interrupt_handler() -> (r: Vec<PortWrite>)
    ensures
        r@ == eoi_writes(KEYBOARD_IRQ),
{
    send_eoi(KEYBOARD_IRQ)
}

/// The writes behind an interrupt of any other device.
pub fn default_irq_handler() -> (r: Vec<PortWrite>)
    ensures
        r@ == eoi_writes(TIMER_IRQ),
{
    send_eoi(TIMER_IRQ)
}

/// What the error code of a page fault says.
#[derive(Clone, Copy, PartialEq, Eq, Structural)]
pub struct PageFaultBits {
    pub present: bool,
    pub write: bool,
    pub user: bool,
    pub reserved: bool,
    pub instruction: bool,
}

pub open spec fn fault_bits(error_code: u64) -> PageFaultBits {
    PageFaultBits {
        present: error_code % 2 == 1,
        write: error_code / 2 % 2 == 1,
        user: error_code / 4 % 2 == 1,
        reserved: error_code / 8 % 2 == 1,
        instruction: error_code / 16 % 2 == 1,
    }
}

/// What the error code of a page fault says.
pub fn page_fault_bits(error_code: u64) -> (r: PageFaultBits)
    ensures
        r == fault_bits(error_code),
{
    PageFaultBits {
        present: error_code % 2 == 1,
        write: error_code / 2 % 2 == 1,
        user: error_code / 4 % 2 == 1,
        reserved: error_code / 8 % 2 == 1,
        instruction: error_code / 16 % 2 == 1,
    }
}

/// What is made of an exception. One that a user program caused ends that program; any other one
/// stops the kernel.
#[derive(Clone, Copy)]
pub struct ExceptionReport {
    pub name: &'static str,
    pub from_user: bool,
    pub fault_address: u64,
    pub page_fault: Option<PageFaultBits>,
}

/// Looks at an exception. `faulting` is the address that the processor holds ready behind a page
/// fault. An exception in the kernel goes into the log of what went wrong; `ticks` is the time.
pub fn exception_dispatch_handler(
    context: &ExceptionContext,
    faulting: u64,
    log: &mut paniclog::Snapshot,
    ticks: u64,
) -> (r: ExceptionReport)
    ensures
        r.name@ == name_of(context.vector),
        r.from_user == is_user_segment(context.code_segment),
        r.fault_address == if context.vector == 14 {
            faulting
        } else {
            0
        },
        r.page_fault == if context.vector == 14 {
            Some(fault_bits(context.error_code))
        } else {
            None
        },
        r.from_user ==> *final(log) == *old(log),
        !r.from_user ==> final(log).wf() && final(log)@ == (paniclog::Record {
            present: true,
            tick: ticks,
            vector: context.vector,
            error_code: context.error_code,
            instruction_pointer: context.instruction_pointer,
            fault_address: r.fault_address,
            cpu_flags: context.cpu_flags,
            kind: paniclog::fitted(vstd::utf8::encode_utf8(name_of(context.vector)), 32),
            detail: paniclog::fitted(vstd::utf8::encode_utf8("CPU exception captured"@), 96),
        }),
{
    let page_fault: bool = context.vector == 14;
    let fault_address: u64 = if page_fault {
        faulting
    } else {
        0
    };
    let name: &'static str = exception_name(context.vector);
    let from_user: bool = exception_from_user(context.code_segment);
    if !from_user {
        paniclog::record_exception(
            log,
            name,
            context.vector,
            context.error_code,
            context.instruction_pointer,
            fault_address,
            context.cpu_flags,
            ticks,
        );
    }
    ExceptionReport {
        name,
        from_user,
        fault_address,
        page_fault: if page_fault {
            Some(page_fault_bits(context.error_code))
        } else {
            None
        },
    }
}

/// The name of the exception with this vector.
pub open spec fn name_of(vector: u64) -> Seq<char> {
    match vector {
        0 => "Divide Error"@,
        1 => "Debug Exception"@,
        2 => "Non-Maskable Interrupt"@,
        3 => "Breakpoint"@,
        4 => "Overflow"@,
        5 => "BOUND Range Exceeded"@,
        6 => "Invalid Opcode"@,
        7 => "Device Not Available"@,
        8 => "Double Fault"@,
        10 => "Invalid TSS"@,
        11 => "Segment Not Present"@,
        12 => "Stack Segment Fault"@,
        13 => "General Protection Fault"@,
        14 => "Page Fault"@,
        16 => "x87 Floating-Point Exception"@,
        17 => "Alignment Check"@,
        18 => "Machine Check"@,
        19 => "SIMD Floating-Point Exception"@,
        20 => "Virtualization Exception"@,
        21 => "Control Protection Exception"@,
        28 => "Hypervisor Injection Exception"@,
        29 => "VMM Communication Exception"@,
        30 => "Security Exception"@,
        254 => "CPU Exception With Error Code"@,
        255 => "Unknown CPU Interrupt"@,
        _ => "CPU Exception"@,
    }
}

/// The name of the exception with this vector.
pub fn exception_name(vector: u64) -> (r: &'static str)
    ensures
        r@ == name_of(vector),
{
    match vector {
        0 => "Divide Error",
        1 => "Debug Exception",
        2 => "Non-Maskable Interrupt",
        3 => "Breakpoint",
        4 => "Overflow",
        5 => "BOUND Range Exceeded",
        6 => "Invalid Opcode",
        7 => "Device Not Available",
        8 => "Double Fault",
        10 => "Invalid TSS",
        11 => "Segment Not Present",
        12 => "Stack Segment Fault",
        13 => "General Protection Fault",
        14 => "Page Fault",
        16 => "x87 Floating-Point Exception",
        17 => "Alignment Check",
        18 => "Machine Check",
        19 => "SIMD Floating-Point Exception",
        20 => "Virtualization Exception",
        21 => "Control Protection Exception",
        28 => "Hypervisor Injection Exception",
        29 => "VMM Communication Exception",
        30 => "Security Exception",
        254 => "CPU Exception With Error Code",
        255 => "Unknown CPU Interrupt",
        _ => "CPU Exception",
    }
}

/// Whether a user program was running, going by its code segment.
pub fn exception_from_user(code_segment: u64) -> (r: bool)
    ensures
        r == is_user_segment(code_segment),
{
    assert((code_segment & 0x3 == 0x3) == (code_segment % 4 == 3)) by (bit_vector);
    code_segment & 0x3 == 0x3
}

/// The parts of an offset make up the address they were cut from.
proof fn lemma_gate_target(address: u64, selector: u16, options: u16)
    ensures
        gate(address, selector, options).target() == address,
{
    let low = address as int % 0x1_0000;
    let rest = address as int / 0x1_0000;
    assert(address == 0x1_0000 * rest + low);
    assert(rest == 0x1_0000 * (rest / 0x1_0000) + rest % 0x1_0000);
    assert(rest / 0x1_0000 == address as int / 0x1_0000_0000);
}

proof fn lemma_options_present(vector: int, double_fault_ist: u16)
    ensures
        is_present(options_of(vector, double_fault_ist)),
{
}

/// Every interrupt leads to its handler, through a gate that is present.
pub proof fn law_gates_lead_to_their_handlers(
    stubs: &Stubs,
    selector: u16,
    double_fault_ist: u16,
    vector: int,
)
    requires
        0 <= vector < 256,
    ensures
        gates(stubs, selector, double_fault_ist)[vector].target() == handler_of(stubs, vector),
        gates(stubs, selector, double_fault_ist)[vector].selector == selector,
        is_present(gates(stubs, selector, double_fault_ist)[vector].options),
{
    lemma_gate_target(
        handler_of(stubs, vector),
        selector,
        options_of(vector, double_fault_ist),
    );
    lemma_options_present(vector, double_fault_ist);
}

/// User programs can cause one interrupt and no other: the system call.
pub proof fn law_users_reach_system_calls_only(
    stubs: &Stubs,
    selector: u16,
    double_fault_ist: u16,
    vector: int,
)
    requires
        0 <= vector < 256,
    ensures
        privilege(gates(stubs, selector, double_fault_ist)[vector].options) == if vector
            == SYSCALL_VECTOR {
            3
        } else {
            0u16
        },
{
}

/// A double fault has a stack of its own, whatever state the kernel's stack is in, where the
/// stack has one of the seven numbers that a gate can hold.
pub proof fn law_double_faults_have_their_own_stack(
    stubs: &Stubs,
    selector: u16,
    double_fault_ist: u16,
    vector: int,
)
    requires
        0 <= vector < 256,
        double_fault_ist < 8,
    ensures
        stack_number(gates(stubs, selector, double_fault_ist)[vector].options) == if vector == 8 {
            double_fault_ist
        } else {
            0
        },
{
}

/// Which handler an interrupt goes to: the timer at 32, the keyboard at 33, system calls at 128,
/// the other devices from 34 to 47 share one, the exceptions below 32 that are in use each have
/// their own, and the rest share one.
pub proof fn law_interrupts_have_their_handlers(stubs: &Stubs, vector: int)
    requires
        0 <= vector < 256,
    ensures
        vector == 32 ==> handler_of(stubs, vector) == stubs.timer,
        vector == 33 ==> handler_of(stubs, vector) == stubs.keyboard,
        vector == 128 ==> handler_of(stubs, vector) == stubs.syscall,
        34 <= vector <= 47 ==> handler_of(stubs, vector) == stubs.default_irq,
        vector >= 48 && vector != 128 ==> handler_of(stubs, vector) == stubs.default_interrupt,
        vector < 32 && (vector == 9 || vector == 15 || 22 <= vector <= 27 || vector == 31)
            ==> handler_of(stubs, vector) == stubs.default_interrupt,
        vector < 32 && !(vector == 9 || vector == 15 || 22 <= vector <= 27 || vector == 31)
            ==> handler_of(stubs, vector) == stubs.exceptions@[vector],
{
}

proof fn lemma_gate_bits(options: u16, ist: u16)
    by (bit_vector)
    ensures
        options & 0x8000 != 0 <==> options / 0x8000 == 1,
        (options >> 13) & 3 == options / 0x2000 % 4,
        options & 7 == options % 8,
        0x8e00u16 | (ist & 7) == 0x8e00 + ist % 8,
        0x8e00u16 | (ist & 7) <= 0x8e07,
{
}

/// A gate's parts make up what it was made from: the address in three pieces, the selector, and
/// options of which bit 15 says that it is present, bits 13 and 14 who may use it, and bits 0 to 2
/// which stack it switches to. Gates are present; only that for system calls is open to user
/// programs; and only that for double faults switches stacks, to the one it was given.
#[verifier::rlimit(40)]
pub proof fn law_gates_say_what_they_are(
    stubs: &Stubs,
    selector: u16,
    double_fault_ist: u16,
    vector: int,
)
    requires
        0 <= vector < 256,
    ensures
        ({
            let entry = gates(stubs, selector, double_fault_ist)[vector];
            &&& gates(stubs, selector, double_fault_ist).len() == 256
            &&& entry.offset_low + 0x1_0000 * entry.offset_mid + 0x1_0000_0000 * entry.offset_high
                == handler_of(stubs, vector)
            &&& entry.selector == selector
            &&& entry.reserved == 0
            &&& entry.options & 0x8000 != 0
            &&& (entry.options >> 13) & 3 == if vector == 128 {
                3int
            } else {
                0
            }
            &&& entry.options & 7 == if vector == 8 {
                double_fault_ist & 7
            } else {
                0
            }
        }),
{
    let entry = gates(stubs, selector, double_fault_ist)[vector];
    lemma_gate_target(handler_of(stubs, vector), selector, options_of(vector, double_fault_ist));
    lemma_gate_bits(entry.options, double_fault_ist);
    lemma_gate_bits(double_fault_ist, double_fault_ist);
}

/// The end of an interrupt is told to the controller it came through: always to the first, and
/// before that to the second for the eight devices that hang on it.
pub proof fn law_ends_of_interrupts_reach_their_controllers(irq: u8)
    ensures
        ({
            let writes = eoi_writes(irq);
            &&& writes.len() == if irq < 8 {
                1int
            } else {
                2
            }
            &&& writes.last() == (PortWrite { port: 0x20, value: 0x20 })
            &&& irq >= 8 ==> writes[0] == (PortWrite { port: 0xa0, value: 0x20 })
        }),
{
}

proof fn lemma_code_bits(code: u64)
    by (bit_vector)
    ensures
        code & 1 != 0 <==> code % 2 == 1,
        code & 2 != 0 <==> code / 2 % 2 == 1,
        code & 4 != 0 <==> code / 4 % 2 == 1,
        code & 8 != 0 <==> code / 8 % 2 == 1,
        code & 16 != 0 <==> code / 16 % 2 == 1,
        code & 3 == 3 <==> code % 4 == 3,
{
}

/// The five lowest bits of a page fault's error code each say one thing, in this order; and code
/// runs for the user where the two lowest bits of its segment are set.
pub proof fn law_error_codes_are_read_by_the_bit(code: u64)
    ensures
        fault_bits(code).present <==> code & 1 != 0,
        fault_bits(code).write <==> code & 2 != 0,
        fault_bits(code).user <==> code & 4 != 0,
        fault_bits(code).reserved <==> code & 8 != 0,
        fault_bits(code).instruction <==> code & 16 != 0,
        is_user_segment(code) <==> code & 3 == 3,
{
    lemma_code_bits(code);
}

} // verus!
