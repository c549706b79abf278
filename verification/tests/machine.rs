use tobacco_kernel::bits;
use tobacco_kernel::interrupts;
use tobacco_kernel::interrupts::{
    ExceptionContext, FrameSizes, InterruptState, Stubs, TimerAction, TimerContext, TimerEnd,
};
use tobacco_kernel::paging;
use tobacco_kernel::paging::{BootTables, PagingState};
use tobacco_kernel::paniclog;
use tobacco_kernel::ports::PortWrite;
use tobacco_kernel::syscall;
use tobacco_kernel::syscall::{
    ReturnCode, SyscallAction, SyscallAnswer, SyscallFrame, SyscallState,
};

fn stubs() -> Stubs {
    let mut exceptions = [0u64; 31];
    for vector in 0..31u64 {
        exceptions[vector as usize] = 0xffff_8000_1234_0000 + vector;
    }
    Stubs {
        timer: 0x1111_2222_3333_4444,
        keyboard: 0x20_0000,
        syscall: 0x30_0000,
        default_irq: 0x40_0000,
        default_interrupt: 0x50_0000,
        exceptions,
    }
}

fn started() -> (InterruptState, Vec<PortWrite>) {
    let mut state = InterruptState::new();
    assert!(!interrupts::syscall_gate_ready(&state));
    let writes = interrupts::init(&mut state, &stubs(), 8, 1);
    (state, writes)
}

fn address(state: &InterruptState, vector: usize) -> u64 {
    let entry = state.idt[vector];
    entry.offset_low as u64 | (entry.offset_mid as u64) << 16 | (entry.offset_high as u64) << 32
}

#[test]
fn gates_lead_to_their_handlers() {
    let (state, _) = started();
    assert_eq!(address(&state, 32), 0x1111_2222_3333_4444);
    assert_eq!(address(&state, 33), 0x20_0000);
    assert_eq!(address(&state, 0x80), 0x30_0000);
    for vector in [34usize, 40, 47] {
        assert_eq!(address(&state, vector), 0x40_0000);
    }
    for vector in [9usize, 15, 22, 27, 31, 48, 255] {
        assert_eq!(address(&state, vector), 0x50_0000);
    }
    for vector in [0usize, 8, 10, 14, 16, 21, 28, 30] {
        assert_eq!(address(&state, vector), 0xffff_8000_1234_0000 + vector as u64);
    }
    for vector in 0..256usize {
        assert_eq!(state.idt[vector].selector, 8);
        let options = match vector {
            8 => 0x8e01,
            0x80 => 0xee00,
            _ => 0x8e00,
        };
        assert_eq!(state.idt[vector].options, options);
    }
    assert!(interrupts::syscall_gate_ready(&state));
}

#[test]
fn abi_report_sees_the_gates() {
    let (state, _) = started();
    let sizes = FrameSizes {
        idt_entry: std::mem::size_of::<interrupts::IdtEntry>() as u64,
        exception_context: std::mem::size_of::<ExceptionContext>() as u64,
        timer_context: std::mem::size_of::<TimerContext>() as u64,
        syscall_frame: 136,
    };
    let report = interrupts::abi_snapshot(&state, &sizes, 1);
    assert_eq!(report.idt_entry_bytes, 16);
    assert_eq!(report.exception_context_bytes, 40);
    assert_eq!(report.timer_context_bytes, 192);
    assert_eq!(report.syscall_frame_bytes, 136);
    assert!(report.timer_gate_present && report.keyboard_gate_present);
    assert!(report.syscall_gate_present && report.syscall_gate_dpl3);
    assert!(report.double_fault_ist);
    assert_eq!(report.pic_timer_vector, 32);
    assert_eq!(report.pic_keyboard_vector, 33);
    assert_eq!(report.syscall_vector, 128);
    let blank = interrupts::abi_snapshot(&InterruptState::new(), &sizes, 1);
    assert!(!blank.timer_gate_present && !blank.syscall_gate_dpl3 && !blank.double_fault_ist);
}

#[test]
fn controllers_and_timer_are_set_up() {
    let (_, writes) = started();
    assert_eq!(writes.len(), 21);
    assert!(writes[0] == PortWrite { port: 0x20, value: 0x11 });
    assert!(writes[1] == PortWrite { port: 0x80, value: 0 });
    assert!(writes[4] == PortWrite { port: 0x21, value: 32 });
    assert!(writes[6] == PortWrite { port: 0xa1, value: 40 });
    assert!(writes[16] == PortWrite { port: 0x21, value: 0xfc });
    assert!(writes[17] == PortWrite { port: 0xa1, value: 0xff });
    assert!(writes[18] == PortWrite { port: 0x43, value: 0x36 });
    assert!(writes[20] == PortWrite { port: 0x40, value: 0xff });
    assert_eq!(interrupts::send_eoi(7).len(), 1);
    let both = interrupts::send_eoi(8);
    assert!(both[0] == PortWrite { port: 0xa0, value: 0x20 });
    assert!(both[1] == PortWrite { port: 0x20, value: 0x20 });
    assert!(interrupts::keyboard_interrupt_handler() == interrupts::send_eoi(1));
    assert!(interrupts::default_irq_handler() == interrupts::send_eoi(0));
}

#[test]
fn ticks_ask_the_scheduler_for_user_programs_only() {
    let (mut state, _) = started();
    assert!(!interrupts::timer_interrupt_handler(&mut state, None));
    let mut context = TimerContext::empty();
    context.code_segment = 8;
    assert!(!interrupts::timer_interrupt_handler(&mut state, Some(&context)));
    context.code_segment = 0x23;
    assert!(context.from_user());
    assert!(interrupts::timer_interrupt_handler(&mut state, Some(&context)));
    assert_eq!(interrupts::ticks(&state), 3);
    let (writes, end) = interrupts::finish_timer_interrupt(TimerAction::Continue);
    assert_eq!(writes.len(), 1);
    assert!(end == TimerEnd::Return(0));
    let (_, end) = interrupts::finish_timer_interrupt(TimerAction::Switch(0x7000));
    assert!(end == TimerEnd::Return(0x7000));
    let (_, end) = interrupts::finish_timer_interrupt(TimerAction::Stop(3));
    assert!(end == TimerEnd::ExitToKernel(3));
}

#[test]
fn exceptions_are_looked_at() {
    let mut log = paniclog::Snapshot::empty();
    let mut context = ExceptionContext {
        vector: 14,
        error_code: 0b10101,
        instruction_pointer: 0x1234,
        code_segment: 0x23,
        cpu_flags: 0x202,
    };
    let report = interrupts::exception_dispatch_handler(&context, 0xdead, &mut log, 5);
    assert_eq!(report.name, "Page Fault");
    assert!(report.from_user);
    assert_eq!(report.fault_address, 0xdead);
    let bits = report.page_fault.unwrap();
    assert!(bits.present && !bits.write && bits.user && !bits.reserved && bits.instruction);
    assert!(!log.present);
    context.code_segment = 8;
    context.vector = 13;
    let report = interrupts::exception_dispatch_handler(&context, 0xdead, &mut log, 6);
    assert!(!report.from_user && report.page_fault.is_none());
    assert_eq!(report.fault_address, 0);
    assert!(log.present);
    assert_eq!(log.kind(), b"General Protection Fault");
    assert_eq!(log.tick, 6);
    assert_eq!(log.instruction_pointer, 0x1234);
    assert_eq!(interrupts::exception_name(9), "CPU Exception");
    assert_eq!(interrupts::exception_name(254), "CPU Exception With Error Code");
    assert_eq!(interrupts::exception_name(255), "Unknown CPU Interrupt");
}

#[test]
fn system_calls_are_served() {
    let mut state = SyscallState::new();
    assert!(!syscall::selftest(&state));
    let report = syscall::init(&mut state);
    assert_eq!(report.entries, 4);
    assert!(syscall::selftest(&state));
    let mut frame = SyscallFrame { rax: 9 };
    let action = syscall::dispatch(&mut state, syscall::SYSCALL_LOG, 77, &mut frame);
    assert!(action == SyscallAction::Log { id: 77 });
    syscall::complete_dispatch(&mut state, SyscallAnswer::Logged, &mut frame);
    assert_eq!(frame.rax, 0);
    let action = syscall::dispatch(&mut state, syscall::SYSCALL_UPTIME, 0, &mut frame);
    assert!(action == SyscallAction::ReadClock);
    syscall::complete_dispatch(&mut state, SyscallAnswer::Clock { ticks: 1234 }, &mut frame);
    assert_eq!(frame.rax, 1234);
    assert_eq!(syscall::snapshot(&state).last_return, 1234);
    let action = syscall::dispatch(&mut state, syscall::SYSCALL_YIELD, 0, &mut frame);
    assert!(action == SyscallAction::Yield);
    syscall::complete_dispatch(&mut state, SyscallAnswer::Yielded, &mut frame);
    assert_eq!(frame.rax, 0);
    let action = syscall::dispatch(&mut state, syscall::SYSCALL_EXIT, 42, &mut frame);
    assert!(action == SyscallAction::Exit { code: 42 });
    let action = syscall::dispatch(&mut state, 99, 0, &mut frame);
    assert!(action == SyscallAction::Refused);
    assert_eq!(frame.rax, u64::MAX);
    let report = syscall::snapshot(&state);
    assert_eq!(report.dispatches, 5);
    assert_eq!(report.unknown_syscalls, 1);
    assert_eq!(report.last_number, 99);
    assert_eq!(report.last_return, u64::MAX);
}

#[test]
fn system_call_table_is_known() {
    assert_eq!(syscall::table_len(), 4);
    assert_eq!(syscall::table_entry(0).unwrap().name, "log");
    assert_eq!(syscall::table_entry(3).unwrap().name, "yield");
    assert!(syscall::table_entry(4).is_none());
    let exit = syscall::lookup(3).unwrap();
    assert_eq!(exit.name, "exit");
    assert_eq!(exit.arg_count, 1);
    assert!(exit.return_code == ReturnCode::Never);
    assert!(syscall::lookup(0).is_none());
    assert!(syscall::lookup(5).is_none());
    assert_eq!(syscall::return_code_name(ReturnCode::Dynamic), "dynamic");
}

#[test]
fn addresses_are_translated() {
    let mut p4 = [0u64; 512];
    let mut p3 = [0u64; 512];
    let mut p2 = [0u64; 512];
    p4[0] = 0x2003;
    p3[0] = 0x3003;
    for index in 0..512usize {
        p2[index] = (index as u64 * 0x20_0000) | 0x83;
    }
    p2[5] = 0;
    p2[6] = 0x7000 | 1;
    let tables =
        BootTables { p4_addr: 0x1000, p3_addr: 0x2000, p2_addr: 0x3000, p4: &p4, p3: &p3, p2: &p2 };
    let found = paging::translate(&tables, 0x1234_5678);
    assert!(found.mapped && found.huge_page);
    assert_eq!(found.phys, 0x1234_5678);
    assert_eq!(found.page_size, 0x20_0000);
    assert!(!paging::translate(&tables, 0xa0_0000).mapped);
    let small = paging::translate(&tables, 0xc0_0123);
    assert!(small.mapped && !small.huge_page);
    assert_eq!(small.phys, 0x7123);
    assert!(!paging::translate(&tables, 0x4000_0000).mapped);
    assert!(!paging::translate(&tables, 0x80_0000_0000).mapped);
    let mut state = PagingState { initialized: false };
    let report = paging::init(&mut state, &tables, 0x1000);
    assert!(report.initialized && state.initialized);
    assert_eq!(report.p4_present_entries, 1);
    assert_eq!(report.p2_present_entries, 511);
    assert_eq!(report.huge_pages, 510);
    assert_eq!(report.identity_mapped_bytes, 510 * 0x20_0000);
    assert_eq!(report.page_table_bytes, 12288);
}

#[test]
fn alignment_rounds_as_it_should() {
    assert_eq!(bits::align_down(0x1fff, 4096), 0x1000);
    assert_eq!(bits::align_up(0x1001, 4096), 0x2000);
    assert_eq!(bits::align_up(0x2000, 4096), 0x2000);
    assert_eq!(bits::align_up(u64::MAX, 4096), u64::MAX - 4095);
    assert!(bits::is_power_of_two(4096));
    assert!(!bits::is_power_of_two(0));
    assert!(!bits::is_power_of_two(24));
}
