use catbf::compiler::aot::{generate_prog_asm, Templates};
use catbf::compiler::jit::{assemble, Compiler, Runtime};
use catbf::interpreted::serialized::{count_commands, Decoder, Encoder, Program as SerialProgram};
use catbf::interpreter::{Control, ControlError};
use catbf::ir::{Instruction, Program};
use catbf::source::Source;

fn text(s: &str) -> Vec<u8> {
    s.as_bytes().to_vec()
}

fn templates() -> Templates {
    Templates {
        preamble: text("P\n"),
        enter: text("E\n"),
        leave: text("L\n"),
        halt: text("H\n"),
        inc: text("I\n"),
        dec: text("D\n"),
        next: text("N .n\n"),
        prev: text("V .p .p\n"),
        get: text("G .g\n"),
        put: text("O\n"),
        jz: text("Z .z\n"),
        jnz: text("W .w\n"),
        next_marker: text(".n"),
        prev_marker: text(".p"),
        get_marker: text(".g"),
        jz_marker: text(".z"),
        jnz_marker: text(".w"),
    }
}

fn parse(source: &str) -> Program {
    Program::parse(Source::from_buf(source.as_bytes())).unwrap()
}

#[test]
fn asm_labels_every_instruction_and_the_end() {
    let listing = generate_prog_asm(&parse("[>]"), &templates());
    let expected = "P\nE\n.label_0:\nZ .label_3\n.label_1:\nN .n_1\n.label_2:\nW .label_1\n.label_3:\nH\n.label_4:\nL\n";
    assert_eq!(String::from_utf8(listing).unwrap(), expected);
}

#[test]
fn asm_local_labels_are_unique_per_site() {
    let listing = String::from_utf8(generate_prog_asm(&parse("<,.-<"), &templates())).unwrap();
    let expected = [
        "P\nE\n",
        ".label_0:\nV .p_0 .p_0\n",
        ".label_1:\nG .g_1\n",
        ".label_2:\nO\n",
        ".label_3:\nD\n",
        ".label_4:\nV .p_4 .p_4\n",
        ".label_5:\nH\n",
        ".label_6:\nL\n",
    ]
    .concat();
    assert_eq!(listing, expected);
}

#[test]
fn asm_numbers_labels_in_decimal() {
    let listing = String::from_utf8(generate_prog_asm(&parse(&"+".repeat(11)), &templates())).unwrap();
    assert!(listing.contains(".label_10:\nI\n.label_11:\nH\n.label_12:\nL\n"));
}

#[test]
fn encoder_patches_a_jump_in_place() {
    let mut encoder = Encoder::new();
    encoder.encode_instr(0, Instruction::Jz(0));
    assert_eq!(encoder.ip(), 5);
    encoder.encode_instr(5, Instruction::Inc);
    encoder.encode_instr(6, Instruction::Jnz(5));
    let end = encoder.ip();
    encoder.encode_instr(0, Instruction::Jz(end));
    assert_eq!(encoder.ip(), 11);
    assert_eq!(encoder.finish(), vec![7, 11, 0, 0, 0, 1, 8, 5, 0, 0, 0]);
}

#[test]
fn encoder_writes_labels_little_endian() {
    let mut encoder = Encoder::new();
    encoder.encode_instr(0, Instruction::Jnz(0x0102_0304));
    assert_eq!(encoder.finish(), vec![8, 4, 3, 2, 1]);
}

#[test]
fn decoder_reads_back_byte_offsets() {
    let program = SerialProgram::parse(Source::from_buf(b"[+]")).unwrap();
    let mut decoder = Decoder::new(program);
    assert_eq!(decoder.decode_instr(), Instruction::Jz(11));
    assert_eq!(decoder.decode_instr(), Instruction::Inc);
    assert_eq!(decoder.decode_instr(), Instruction::Jnz(5));
    decoder.jump(5);
    assert_eq!(decoder.decode_instr(), Instruction::Inc);
    decoder.jump(11);
    assert_eq!(decoder.decode_instr(), Instruction::Halt);
}

#[test]
fn control_fetches_and_jumps() {
    let mut control = Control::new(parse("+-"));
    assert_eq!(control.fetch(), Ok(Instruction::Inc));
    assert_eq!(control.fetch(), Ok(Instruction::Dec));
    assert_eq!(control.fetch(), Ok(Instruction::Halt));
    assert_eq!(control.fetch(), Err(ControlError::BadLabel(3)));
    control.jump(1);
    assert_eq!(control.fetch(), Ok(Instruction::Dec));
}

#[test]
fn compiler_placeholders_resolve_in_second_pass() {
    let rt = Runtime { create_tape: 1, destroy_tape: 2, grow_next: 3, grow_prev: 4, get: 5, put: 6 };
    let program = parse(",.");
    let mut compiler = Compiler::new();
    compiler.first_pass(&program, rt);
    assert_eq!(compiler.second_pass(), Ok(()));
    let code = assemble(&program, rt).unwrap();
    // enter 44, get 83, put 32, halt 5, leave 37
    assert_eq!(code.len(), 44 + 83 + 32 + 5 + 37);
    // The guard grows the tape when the cell after the cursor is past its end.
    assert_eq!(&code[44..53], &[0x49, 0x8d, 0x46, 0x01, 0x4c, 0x39, 0xe8, 0x0f, 0x85]);
    // The get routine's call: movabs rax, 5; call rax
    assert_eq!(&code[44 + 53..44 + 65], &[0x48, 0xb8, 5, 0, 0, 0, 0, 0, 0, 0, 0xff, 0xd0]);
    // ror ax, 8; mov [r12 + r14], ax
    assert_eq!(&code[44 + 74..44 + 83], &[0x66, 0xc1, 0xc8, 0x08, 0x66, 0x43, 0x89, 0x04, 0x34]);
}

#[test]
fn jit_code_for_a_program_beyond_one_chunk() {
    let rt = Runtime { create_tape: 1, destroy_tape: 2, grow_next: 3, grow_prev: 4, get: 5, put: 6 };
    let source = ">".repeat(9000) + "+.";
    let code = assemble(&parse(&source), rt).unwrap();
    assert_eq!(code.len(), 44 + 9000 * 53 + 4 + 32 + 5 + 37);
}

#[test]
fn only_command_bytes_are_counted() {
    assert_eq!(count_commands(b"a+b-c[d]e<f>g,h.i\n"), 8);
    assert_eq!(count_commands(b"no commands here"), 0);
    // Comments do not count towards the size of the stream.
    let source = "comment ".repeat(1000) + "+.";
    let program = SerialProgram::parse(Source::from_buf(source.as_bytes())).unwrap();
    assert_eq!(program.to_bytes(), vec![1, 5, 0]);
}
