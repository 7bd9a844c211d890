use catbf::compiler::jit::{assemble, Error as JitError, Runtime};
use catbf::interpreted::serialized::{Machine as SerialMachine, Program as SerialProgram, Tape as FixedTape};
use catbf::interpreter::{ControlError, Machine, Outcome, Step, Tape};
use catbf::ir::{Instruction, ParseError, Program};
use catbf::source::{Location, Source};

const HELLO: &str = "++++++++[>++++[>++>+++>+++>+<<<<-]>+>+>->>+[<]<-]>>.>---.+++++++..+++.>>.<-.<.+++.------.--------.>>+.>++.";

fn parse(text: &str) -> Program {
    Program::parse(Source::from_buf(text.as_bytes())).expect("program parses")
}

fn run(text: &str, input: &[u8]) -> Outcome {
    Machine::new(parse(text), Tape::new()).run(input, 10_000_000).expect("program runs")
}

fn run_fixed(text: &str, input: &[u8], size: usize) -> Outcome {
    let program = SerialProgram::parse(Source::from_buf(text.as_bytes())).expect("program parses");
    SerialMachine::new(program, FixedTape::new(size)).run(input, 10_000_000)
}

fn runtime() -> Runtime {
    Runtime { create_tape: 0x1111, destroy_tape: 0x2222, grow_next: 0x3333, grow_prev: 0x4444, get: 0x5555, put: 0x6666 }
}

#[test]
fn three_increments_then_put() {
    let out = run("+++.", b"");
    assert_eq!(out.output, vec![3u8]);
    assert!(out.halted);
    assert_eq!(run_fixed("+++.", b"", 65536).output, vec![3u8]);
}

#[test]
fn get_then_put_writes_the_flag_cell() {
    // The byte read lands one cell to the right of the flag.
    assert_eq!(run(",.", b"A").output, vec![1u8]);
    assert_eq!(run_fixed(",.", b"A", 16).output, vec![1u8]);
}

#[test]
fn get_then_move_then_put_echoes_the_byte() {
    assert_eq!(run(",>.", b"A").output, b"A".to_vec());
    assert_eq!(run_fixed(",>.", b"A", 16).output, b"A".to_vec());
}

#[test]
fn get_at_end_of_input_clears_the_cell() {
    assert_eq!(run("+++,.", b"").output, vec![0u8]);
    assert_eq!(run_fixed("+++,.", b"", 4).output, vec![0u8]);
}

#[test]
fn loop_moves_value_to_next_cell() {
    assert_eq!(run("++[>+<-]>.", b"").output, vec![2u8]);
    assert_eq!(run_fixed("++[>+<-]>.", b"", 8).output, vec![2u8]);
}

#[test]
fn empty_loop_on_zero_cell_halts() {
    let out = run("[]", b"");
    assert!(out.output.is_empty());
    assert!(out.halted);
    let fixed = run_fixed("[]", b"", 8);
    assert!(fixed.output.is_empty());
    assert!(fixed.halted);
}

#[test]
fn unmatched_open_is_reported_at_its_column() {
    let err = Program::parse(Source::from_buf(b"+[")).unwrap_err();
    assert_eq!(err, ParseError::UnmatchedLoopOpen(Location { position: 1, line: 1, column: 2 }));
    let serial = SerialProgram::parse(Source::from_buf(b"+[")).err().unwrap();
    assert_eq!(serial, ParseError::UnmatchedLoopOpen(Location { position: 1, line: 1, column: 2 }));
}

#[test]
fn unmatched_close_is_reported_at_its_column() {
    let err = Program::parse(Source::from_buf(b"+]")).unwrap_err();
    assert_eq!(err, ParseError::UnmatchedLoopClose(Location { position: 1, line: 1, column: 2 }));
    let serial = SerialProgram::parse(Source::from_buf(b"+]")).err().unwrap();
    assert_eq!(serial, ParseError::UnmatchedLoopClose(Location { position: 1, line: 1, column: 2 }));
}

#[test]
fn first_open_loop_is_the_one_reported() {
    let err = Program::parse(Source::from_buf(b"[\n [")).unwrap_err();
    assert_eq!(err, ParseError::UnmatchedLoopOpen(Location { position: 0, line: 1, column: 1 }));
}

/// A program that prints `text`, one cell value at a time.
fn printer(text: &[u8]) -> String {
    let mut program = String::new();
    for byte in text {
        program.push_str("[-]");
        program.push_str(&"+".repeat(*byte as usize));
        program.push('.');
    }
    program
}

#[test]
fn hello_world() {
    let text = printer(b"Hello, World!\n");
    assert_eq!(run(&text, b"").output, b"Hello, World!\n".to_vec());
    assert_eq!(run_fixed(&text, b"", 65536).output, b"Hello, World!\n".to_vec());
    assert_eq!(run(HELLO, b"").output, b"Hello World!\n".to_vec());
    assert_eq!(run_fixed(HELLO, b"", 65536).output, b"Hello World!\n".to_vec());
}

#[test]
fn interpreters_agree_on_a_copying_program() {
    let text = ",[>.<,]";
    let input = b"tape machine";
    let grown = run(text, input);
    let fixed = run_fixed(text, input, 65536);
    assert_eq!(grown.output, fixed.output);
    assert_eq!(grown.output, input.to_vec());
}

#[test]
fn parse_lowers_brackets_to_matched_jumps() {
    let program = parse("a+[-]b");
    assert_eq!(
        program.code,
        vec![Instruction::Inc, Instruction::Jz(4), Instruction::Dec, Instruction::Jnz(2), Instruction::Halt]
    );
}

#[test]
fn parse_nested_loops() {
    let program = parse("[[]]");
    assert_eq!(
        program.code,
        vec![Instruction::Jz(4), Instruction::Jz(3), Instruction::Jnz(2), Instruction::Jnz(1), Instruction::Halt]
    );
}

#[test]
fn serialized_stream_uses_byte_offsets() {
    let program = SerialProgram::parse(Source::from_buf(b"[+]")).unwrap();
    assert_eq!(program.to_bytes(), vec![7, 11, 0, 0, 0, 1, 8, 5, 0, 0, 0, 0]);
}

#[test]
fn location_tracks_lines_and_columns() {
    let mut source = Source::from_buf(b"a\nb");
    assert_eq!(source.try_next(), Some((b'a', Location { position: 0, line: 1, column: 1 })));
    assert_eq!(source.try_next(), Some((b'\n', Location { position: 1, line: 1, column: 2 })));
    assert_eq!(source.next_infallible(), Some((b'b', Location { position: 2, line: 2, column: 1 })));
    assert_eq!(source.try_next(), None);
    assert_eq!(source.curr_location(), Location { position: 3, line: 2, column: 2 });
    let mut location = Location::default();
    location.next(b'x');
    assert_eq!(location, Location { position: 1, line: 1, column: 2 });
}

#[test]
fn many_increments_wrap_modulo_256() {
    let text = "+".repeat(300) + ".";
    assert_eq!(run(&text, b"").output, vec![44u8]);
    assert_eq!(run("-++.", b"").output, vec![1u8]);
    assert_eq!(run("-.", b"").output, vec![255u8]);
}

#[test]
fn fixed_tape_cursor_wraps() {
    // `<` from cell 0 reaches cell 2 of three; three `>` come back to it.
    assert_eq!(run_fixed("<+++>>>.", b"", 3).output, vec![3u8]);
    // On the growing tape the same moves reach a fresh cell.
    assert_eq!(run("<+++>>>.", b"").output, vec![0u8]);
}

#[test]
fn growing_tape_has_no_end() {
    let far = ">".repeat(20000) + "." + &"<".repeat(40000) + ".+.";
    assert_eq!(run(&far, b"").output, vec![0u8, 0, 1]);
}

#[test]
fn tape_operations_follow_the_input_convention() {
    let mut tape = Tape::new();
    tape.input(Some(65));
    assert_eq!(tape.output(), 1);
    tape.next();
    assert_eq!(tape.output(), 65);
    tape.prev();
    tape.input(None);
    assert!(tape.is_zero());
    tape.prev();
    assert!(tape.is_zero());
    tape.inc();
    tape.inc();
    tape.dec();
    assert_eq!(tape.output(), 1);
    assert!(tape.can_grow());
}

#[test]
fn step_and_feed_drive_the_machine() {
    let mut machine = Machine::new(parse(",."), Tape::new());
    assert_eq!(machine.step(), Ok(Step::Input));
    assert_eq!(machine.feed(Some(9)), Ok(()));
    assert_eq!(machine.step(), Ok(Step::Output(1)));
    assert_eq!(machine.step(), Ok(Step::Halted));
    assert_eq!(machine.step(), Err(ControlError::BadLabel(3)));
}

#[test]
fn jump_outside_the_program_is_a_bad_label() {
    let program = Program { code: vec![Instruction::Jz(100)] };
    let result = Machine::new(program, Tape::new()).run(b"", 10);
    assert_eq!(result, Err(ControlError::BadLabel(100)));
}

#[test]
fn run_stops_when_steps_run_out() {
    let out = run_fixed("+[]", b"", 4);
    assert!(!out.halted);
    let grown = Machine::new(parse("+[]"), Tape::new()).run(b"", 50).unwrap();
    assert!(!grown.halted);
    assert!(grown.output.is_empty());
}

#[test]
fn jit_code_of_one_increment() {
    let code = assemble(&parse("+"), runtime()).unwrap();
    assert_eq!(code.len(), 90);
    // push r14; push r13; push r12; push rbx
    assert_eq!(&code[0..7], &[0x41, 0x56, 0x41, 0x55, 0x41, 0x54, 0x53]);
    // movabs rax, create_tape
    assert_eq!(&code[13..23], &[0x48, 0xb8, 0x11, 0x11, 0, 0, 0, 0, 0, 0]);
    // je <error exit> lands 27 bytes past its displacement
    assert_eq!(&code[28..34], &[0x0f, 0x84, 27, 0, 0, 0]);
    // incb [r12 + r14], then the halt jump to the exit right after it
    assert_eq!(&code[44..53], &[0x43, 0xfe, 0x04, 0x34, 0xe9, 0, 0, 0, 0]);
    // the normal exit jumps over the error status to the common tail
    assert_eq!(&code[53..61], &[0x45, 0x30, 0xf6, 0xe9, 3, 0, 0, 0]);
    assert_eq!(code[89], 0xc3);
}

#[test]
fn jit_backward_jump_is_negative() {
    let code = assemble(&parse("[-]"), runtime()).unwrap();
    // Jz at 44 (12 bytes), dec at 56 (4 bytes), Jnz at 60 (12 bytes) back to 56.
    assert_eq!(&code[60..72], &[0x43, 0x8a, 0x04, 0x34, 0x84, 0xc0, 0x0f, 0x85, 0xf0, 0xff, 0xff, 0xff]);
    // The Jz jumps past the Jnz, to the Halt at 72.
    assert_eq!(&code[50..56], &[0x0f, 0x84, 16, 0, 0, 0]);
}

#[test]
fn jit_move_calls_the_growth_routine() {
    let code = assemble(&parse(">"), runtime()).unwrap();
    // lea rax, [r14 + 1]; cmp rax, r13; jne past the growth to `inc r14` 37 bytes on
    assert_eq!(&code[44..57], &[0x49, 0x8d, 0x46, 0x01, 0x4c, 0x39, 0xe8, 0x0f, 0x85, 37, 0, 0, 0]);
    // movabs rax, grow_next
    assert_eq!(&code[63..73], &[0x48, 0xb8, 0x33, 0x33, 0, 0, 0, 0, 0, 0]);
    assert_eq!(&code[94..97], &[0x49, 0xff, 0xc6]);
}

#[test]
fn jit_reports_missing_label() {
    let program = Program { code: vec![Instruction::Jnz(7), Instruction::Halt] };
    assert_eq!(assemble(&program, runtime()), Err(JitError::BadLabelIndex(7)));
}

#[test]
fn fixed_tape_operations_wrap_and_store_records() {
    let mut tape = FixedTape::new(2);
    tape.prev();
    tape.inc();
    tape.next();
    assert_eq!(tape.output(), 0);
    tape.prev();
    assert_eq!(tape.output(), 1);
    // The record of a read wraps onto the first cell.
    tape.input(Some(42));
    assert_eq!(tape.output(), 1);
    tape.next();
    assert_eq!(tape.output(), 42);
    tape.dec();
    assert_eq!(tape.output(), 41);
    tape.input(None);
    assert!(tape.is_zero());
}

#[test]
fn interpreters_agree_when_the_cells_fit_in_the_fixed_tape() {
    // The run visits cells -2 to 0: three consecutive cells, on either side of the start.
    let text = "<<+>>++<<.>.>.";
    let grown = run(text, b"");
    let fixed = run_fixed(text, b"", 3);
    assert_eq!(grown.output, vec![1u8, 0, 2]);
    assert_eq!(fixed.output, grown.output);
}
