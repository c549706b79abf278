use tobacco_kernel::memory;
use tobacco_kernel::paniclog;
use tobacco_kernel::ports::PortWrite;
use tobacco_kernel::serial;
use tobacco_kernel::shell;
use tobacco_kernel::shell::{Shell, ShellAction};

#[test]
fn line_feeds_take_a_carriage_return() {
    assert_eq!(serial::serial_print("a\nb"), b"a\r\nb");
    assert_eq!(serial::serial_print_bytes(b"\n\n"), b"\r\n\r\n");
    assert_eq!(serial::serial_println("ok"), b"ok\r\n");
    assert_eq!(serial::write_byte(b'x'), b"x");
    assert_eq!(serial::serial_print("é"), "é".as_bytes());
}

#[test]
fn serial_line_is_set_up_in_order() {
    let writes = serial::init();
    assert!(writes[0] == PortWrite { port: 0x3f9, value: 0 });
    assert!(writes[1] == PortWrite { port: 0x3fb, value: 0x80 });
    assert!(writes[2] == PortWrite { port: 0x3f8, value: 3 });
    assert!(writes[6] == PortWrite { port: 0x3fc, value: 0x0b });
    assert!(serial::transmitter_ready(0x60));
    assert!(!serial::transmitter_ready(0x5f));
}

#[test]
fn clearing_blanks_every_cell() {
    let writes = memory::clear_screen();
    assert_eq!(writes.len(), 2000);
    for (index, write) in writes.iter().enumerate() {
        assert_eq!(write.offset, index);
        assert_eq!(write.cell.ascii_character, b' ');
        assert_eq!(write.cell.color_code, 0x1f);
    }
}

#[test]
fn texts_stay_in_their_row() {
    let writes = memory::write_string_at(2, 78, "abc");
    assert_eq!(writes.len(), 2);
    assert_eq!(writes[0].offset, 238);
    assert_eq!(writes[0].cell.ascii_character, b'a');
    assert_eq!(writes[1].offset, 239);
    assert!(memory::write_string_at(25, 0, "abc").is_empty());
    assert!(memory::write_string_at(0, 80, "abc").is_empty());
    let centered = memory::write_centered(1, "a—é");
    assert_eq!(centered.len(), 3);
    assert_eq!(centered[0].offset, 118);
    assert_eq!(centered[1].cell.ascii_character, 0xc4);
    assert_eq!(centered[2].cell.ascii_character, b'?');
    let long = "x".repeat(100);
    let writes = memory::write_centered(0, &long);
    assert_eq!(writes.len(), 80);
    assert_eq!(writes[79].offset, 79);
}

#[test]
fn panics_are_recorded_printable_and_cut() {
    let mut last = paniclog::Snapshot::empty();
    assert!(!last.present);
    paniclog::record_rust_panic(&mut last, "tab\there", 77);
    let report = paniclog::snapshot(&last);
    assert!(report.present);
    assert_eq!(report.tick, 77);
    assert_eq!(report.kind(), b"Rust panic");
    assert_eq!(report.detail(), b"tab?here");
    let long = "y".repeat(200);
    paniclog::record_exception(&mut last, &long, 14, 2, 0x1000, 0x2000, 0x202, 78);
    assert_eq!(last.kind().len(), 32);
    assert_eq!(last.detail(), b"CPU exception captured");
    assert_eq!(last.vector, 14);
    assert_eq!(last.error_code, 2);
    assert_eq!(last.instruction_pointer, 0x1000);
    assert_eq!(last.fault_address, 0x2000);
    assert_eq!(last.cpu_flags, 0x202);
}

fn type_line(shell: &mut Shell, line: &str) {
    for byte in line.bytes() {
        shell::run(shell, Some(byte));
    }
}

#[test]
fn keys_edit_the_line() {
    let mut shell = Shell::new();
    type_line(&mut shell, "ab\tc");
    assert_eq!(shell.line(), b"ab c");
    let actions = shell::run(&mut shell, Some(8));
    assert_eq!(shell.line(), b"ab ");
    assert_eq!(actions.len(), 3);
    assert!(matches!(actions[0], ShellAction::EnableInterrupts));
    assert!(matches!(actions[1], ShellAction::SerialPrint("\x08 \x08")));
    assert!(matches!(actions[2], ShellAction::RenderInput));
    assert_eq!(shell::run(&mut shell, Some(0x1b)).len(), 1);
    assert!(matches!(
        shell::run(&mut shell, None)[..],
        [ShellAction::EnableInterruptsAndHalt]
    ));
    type_line(&mut shell, &"z".repeat(600));
    assert_eq!(shell.line().len(), 512);
    assert_eq!(shell::run(&mut shell, Some(b'q')).len(), 1);
    let mut fresh = Shell::new();
    assert_eq!(shell::run(&mut fresh, Some(8)).len(), 1);
    assert_eq!(fresh.line(), b"");
}

#[test]
fn lines_run_their_command() {
    let mut shell = Shell::new();
    type_line(&mut shell, "  version ");
    let actions = shell::run(&mut shell, Some(b'\n'));
    assert_eq!(shell.line(), b"");
    assert_eq!(actions.len(), 7);
    assert!(matches!(actions[1], ShellAction::SerialPrintln("")));
    assert!(matches!(actions[2], ShellAction::ScreenByte(b'\n')));
    assert!(matches!(actions[3], ShellAction::ScreenLine("CloudOS v0.0.2")));
    assert!(matches!(actions[4], ShellAction::SerialPrintln("CloudOS v0.0.2")));
    assert!(matches!(actions[5], ShellAction::SerialPrint("> ")));
    assert!(matches!(actions[6], ShellAction::StartPrompt));
}

#[test]
fn commands_have_their_output() {
    assert!(shell::execute(b" \t ").is_empty());
    assert!(matches!(
        shell::execute(b"help")[0],
        ShellAction::ScreenLine("help clear version about")
    ));
    let clear = shell::execute(b"clear");
    assert!(matches!(clear[0], ShellAction::SerialPrintln("clear")));
    assert!(matches!(clear[1], ShellAction::ShowSplash));
    assert!(matches!(
        shell::execute(b"about")[1],
        ShellAction::SerialPrintln(
            "CloudOS: Sistem operasi untuk semua, tanpa perlu perangkat mahal."
        )
    ));
    assert!(matches!(
        shell::execute(b"halp")[0],
        ShellAction::ScreenLine("Perintah tidak dikenal. Ketik help.")
    ));
    assert_eq!(shell::prompt().len(), 2);
    assert_eq!(shell::trim_ascii(b"\t a b \t"), b"a b");
}
