use brainfuck_jit::compiler::{CompileError, Compiler, CODE_AREA_SIZE};
use brainfuck_jit::encoding::HostRoutines;
use brainfuck_jit::parser::{Instruction, ParseError};

const HOST: HostRoutines =
    HostRoutines { putchar: 0x1122_3344_5566_7788, readchar: 0x0102_0304_0506_0708 };

const PROLOGUE: [u8; 12] = [0x55, 0x48, 0x89, 0xe5, 0x53, 0x48, 0x89, 0xfb, 0x48, 0x83, 0xc4, 0xf8];
const EPILOGUE: [u8; 10] = [0x48, 0x83, 0xc4, 0x08, 0x5b, 0x48, 0x89, 0xec, 0x5d, 0xc3];

fn framed(body: &[u8]) -> Vec<u8> {
    let mut code = PROLOGUE.to_vec();
    code.extend_from_slice(body);
    code.extend_from_slice(&EPILOGUE);
    code
}

fn compiled(program: &str) -> Vec<u8> {
    let mut compiler = Compiler::new(program, HOST).unwrap();
    assert_eq!(compiler.compile(), Ok(()));
    compiler.code().clone()
}

#[test]
fn empty_program_is_prologue_and_epilogue() {
    assert_eq!(compiled(""), framed(&[]));
}

#[test]
fn commentary_compiles_to_nothing() {
    assert_eq!(compiled("hello, world!".replace(',', " ").as_str()), framed(&[]));
}

#[test]
fn new_keeps_the_parsed_instructions() {
    let compiler = Compiler::new("+[-]", HOST).unwrap();
    assert_eq!(
        compiler.instructions(),
        &vec![
            Instruction::ValueIncrement(1),
            Instruction::LoopStart { end: 3 },
            Instruction::ValueDecrement(1),
            Instruction::LoopEnd { start: 1 },
            Instruction::End,
        ]
    );
    assert!(compiler.code().is_empty());
    assert_eq!(compiler.host(), HOST);
}

#[test]
fn new_turns_down_unbalanced_programs() {
    assert_eq!(Compiler::new("]", HOST).err(), Some(ParseError::UnmatchedLoopEnd));
    assert_eq!(Compiler::new("[[]", HOST).err(), Some(ParseError::UnclosedLoopStart));
}

#[test]
fn pointer_motion_is_an_add_to_rbx() {
    assert_eq!(compiled(">>>"), framed(&[0x48, 0x81, 0xc3, 3, 0, 0, 0]));
    assert_eq!(compiled("<<"), framed(&[0x48, 0x81, 0xc3, 0xfe, 0xff, 0xff, 0xff]));
}

#[test]
fn value_change_is_a_byte_add() {
    assert_eq!(compiled("+++++"), framed(&[0x80, 0x03, 5]));
    assert_eq!(compiled("---"), framed(&[0x80, 0x03, 0xfd]));
}

#[test]
fn value_counts_wrap_modulo_256() {
    let program = "+".repeat(258);
    assert_eq!(compiled(&program), framed(&[0x80, 0x03, 2]));
    let program = "-".repeat(256);
    assert_eq!(compiled(&program), framed(&[0x80, 0x03, 0]));
}

#[test]
fn putchar_loads_the_cell_and_calls_the_host() {
    assert_eq!(
        compiled("."),
        framed(&[
            0x40, 0x8a, 0x3b, 0x49, 0xba, 0x88, 0x77, 0x66, 0x55, 0x44, 0x33, 0x22, 0x11, 0x41,
            0xff, 0xd2,
        ])
    );
}

#[test]
fn readchar_calls_the_host_and_stores_the_byte() {
    assert_eq!(
        compiled(","),
        framed(&[
            0x49, 0xba, 0x08, 0x07, 0x06, 0x05, 0x04, 0x03, 0x02, 0x01, 0x41, 0xff, 0xd2, 0x88,
            0x03,
        ])
    );
}

#[test]
fn loop_branches_reach_past_each_other() {
    // [-]: the opening's forward branch skips the body (3 bytes) and the closing
    // (9 bytes); the closing's backward branch returns to the start of the body.
    assert_eq!(
        compiled("[-]"),
        framed(&[
            0x80, 0x3b, 0x00, 0x0f, 0x84, 12, 0, 0, 0, // cmp; je +12
            0x80, 0x03, 0xff, // add byte [rbx], -1
            0x80, 0x3b, 0x00, 0x0f, 0x85, 0xf4, 0xff, 0xff, 0xff, // cmp; jne -12
        ])
    );
}

#[test]
fn nested_loops_are_patched_innermost_first() {
    // [[]] : inner pair is 18 bytes, outer body is the inner pair.
    assert_eq!(
        compiled("[[]]"),
        framed(&[
            0x80, 0x3b, 0x00, 0x0f, 0x84, 27, 0, 0, 0, // outer je +27
            0x80, 0x3b, 0x00, 0x0f, 0x84, 9, 0, 0, 0, // inner je +9
            0x80, 0x3b, 0x00, 0x0f, 0x85, 0xf7, 0xff, 0xff, 0xff, // inner jne -9
            0x80, 0x3b, 0x00, 0x0f, 0x85, 0xe5, 0xff, 0xff, 0xff, // outer jne -27
        ])
    );
}

#[test]
fn counted_loop_program_compiles_to_its_function() {
    let mut body: Vec<u8> = Vec::new();
    body.extend_from_slice(&[0x80, 0x03, 4]); // ++++
    body.extend_from_slice(&[0x80, 0x3b, 0x00, 0x0f, 0x84, 29, 0, 0, 0]); // [
    body.extend_from_slice(&[0x48, 0x81, 0xc3, 1, 0, 0, 0]); // >
    body.extend_from_slice(&[0x80, 0x03, 4]); // ++++
    body.extend_from_slice(&[0x48, 0x81, 0xc3, 0xff, 0xff, 0xff, 0xff]); // <
    body.extend_from_slice(&[0x80, 0x03, 0xff]); // -
    body.extend_from_slice(&[0x80, 0x3b, 0x00, 0x0f, 0x85, 0xe3, 0xff, 0xff, 0xff]); // ]
    body.extend_from_slice(&[0x48, 0x81, 0xc3, 1, 0, 0, 0]); // >
    body.extend_from_slice(&[
        0x40, 0x8a, 0x3b, 0x49, 0xba, 0x88, 0x77, 0x66, 0x55, 0x44, 0x33, 0x22, 0x11, 0x41, 0xff,
        0xd2,
    ]); // .
    assert_eq!(compiled("++++[>++++<-]>."), framed(&body));
}

#[test]
fn pointer_increment_beyond_i32_is_unsupported() {
    let mut compiler = Compiler::from_instructions(
        vec![Instruction::PointerIncrement(0x8000_0000), Instruction::End],
        HOST,
    )
    .unwrap();
    assert_eq!(compiler.compile(), Err(CompileError::UnsupportedPointerMotion));
    assert_eq!(compiler.code().as_slice(), &PROLOGUE);
}

#[test]
fn unsupported_motion_leaves_earlier_code_whole() {
    let mut compiler = Compiler::from_instructions(
        vec![
            Instruction::ValueIncrement(7),
            Instruction::PointerDecrement(0x8000_0001),
            Instruction::PutChar,
            Instruction::End,
        ],
        HOST,
    )
    .unwrap();
    assert_eq!(compiler.compile(), Err(CompileError::UnsupportedPointerMotion));
    let mut expected = PROLOGUE.to_vec();
    expected.extend_from_slice(&[0x80, 0x03, 7]);
    assert_eq!(compiler.code(), &expected);
}

#[test]
fn pointer_decrement_beyond_i32_is_unsupported() {
    for count in [0x8000_0000u32, 0x8000_0001, u32::MAX] {
        let mut compiler = Compiler::from_instructions(
            vec![Instruction::PointerDecrement(count), Instruction::End],
            HOST,
        )
        .unwrap();
        assert_eq!(compiler.compile(), Err(CompileError::UnsupportedPointerMotion));
        assert_eq!(compiler.code().as_slice(), &PROLOGUE);
    }
}

#[test]
fn every_count_above_i32_max_is_unsupported_in_both_directions() {
    for count in [0x8000_0000u32, 0x8000_0001, 0xffff_ffff] {
        let mut forward = Compiler::from_instructions(
            vec![Instruction::PutChar, Instruction::PointerIncrement(count), Instruction::End],
            HOST,
        )
        .unwrap();
        assert_eq!(forward.compile(), Err(CompileError::UnsupportedPointerMotion));
        assert_eq!(forward.code().len(), 12 + 16);
        let mut backward = Compiler::from_instructions(
            vec![Instruction::PutChar, Instruction::PointerDecrement(count), Instruction::End],
            HOST,
        )
        .unwrap();
        assert_eq!(backward.compile(), Err(CompileError::UnsupportedPointerMotion));
        assert_eq!(backward.code(), forward.code());
    }
}

#[test]
fn largest_pointer_motions_are_encoded() {
    let mut compiler = Compiler::from_instructions(
        vec![
            Instruction::PointerIncrement(0x7fff_ffff),
            Instruction::PointerDecrement(0x7fff_ffff),
            Instruction::End,
        ],
        HOST,
    )
    .unwrap();
    assert_eq!(compiler.compile(), Ok(()));
    assert_eq!(
        compiler.code(),
        &framed(&[
            0x48, 0x81, 0xc3, 0xff, 0xff, 0xff, 0x7f, 0x48, 0x81, 0xc3, 0x01, 0x00, 0x00, 0x80,
        ])
    );
}

#[test]
fn code_area_can_be_filled_to_the_last_byte() {
    // 12 + 3 * 21831 + 7 * 3 + 10 == 65536
    let mut program = "+-".repeat(10915);
    program.push_str("+><>");
    let mut compiler = Compiler::new(&program, HOST).unwrap();
    assert_eq!(compiler.compile(), Ok(()));
    assert_eq!(compiler.code().len(), CODE_AREA_SIZE);
}

#[test]
fn code_area_exhaustion_stops_before_the_piece_that_does_not_fit() {
    let program = "+-".repeat(20000);
    let mut compiler = Compiler::new(&program, HOST).unwrap();
    assert_eq!(compiler.compile(), Err(CompileError::CodeAreaExhausted));
    // 12 bytes of prologue and 21841 whole instructions of 3 bytes fit.
    assert_eq!(compiler.code().len(), 12 + 3 * 21841);
    assert!(compiler.code().len() <= CODE_AREA_SIZE);
}

#[test]
fn epilogue_that_does_not_fit_exhausts_the_code_area() {
    // 12 + 3 * 21838 = 65526: the instructions fit, the 10 bytes after them fit
    // exactly; one more instruction and they do not.
    let fits = "+-".repeat(10919);
    let mut compiler = Compiler::new(&fits, HOST).unwrap();
    assert_eq!(compiler.compile(), Ok(()));
    assert_eq!(compiler.code().len(), 65536);
    let mut too_long = fits.clone();
    too_long.push('+');
    let mut compiler = Compiler::new(&too_long, HOST).unwrap();
    assert_eq!(compiler.compile(), Err(CompileError::CodeAreaExhausted));
    assert_eq!(compiler.code().len(), 12 + 3 * 21839);
}

#[test]
fn compiling_again_appends_a_second_copy() {
    let mut compiler = Compiler::new("+", HOST).unwrap();
    assert_eq!(compiler.compile(), Ok(()));
    assert_eq!(compiler.compile(), Ok(()));
    let once = framed(&[0x80, 0x03, 1]);
    let mut twice = once.clone();
    twice.extend_from_slice(&once);
    assert_eq!(compiler.code(), &twice);
}

#[test]
fn from_instructions_turns_down_malformed_sequences() {
    let malformed: Vec<Vec<Instruction>> = vec![
        vec![],
        vec![Instruction::PutChar],
        vec![Instruction::End, Instruction::End],
        vec![Instruction::End, Instruction::PutChar],
        vec![Instruction::LoopStart { end: 1 }, Instruction::End],
        vec![Instruction::LoopEnd { start: 0 }, Instruction::End],
        vec![Instruction::LoopStart { end: 0 }, Instruction::LoopEnd { start: 0 }, Instruction::End],
        vec![Instruction::LoopStart { end: 1 }, Instruction::LoopEnd { start: 1 }, Instruction::End],
        vec![Instruction::LoopStart { end: 5 }, Instruction::LoopEnd { start: 0 }, Instruction::End],
        // crossing loops: 0 with 2, 1 with 3
        vec![
            Instruction::LoopStart { end: 2 },
            Instruction::LoopStart { end: 3 },
            Instruction::LoopEnd { start: 0 },
            Instruction::LoopEnd { start: 1 },
            Instruction::End,
        ],
    ];
    for instructions in malformed {
        assert!(Compiler::from_instructions(instructions, HOST).is_none());
    }
}

#[test]
fn from_instructions_takes_what_the_parser_hands_out() {
    let instructions = brainfuck_jit::parser::parser("+[>[-]<-].,").unwrap();
    assert!(brainfuck_jit::parser::is_well_formed(&instructions));
    let mut compiler = Compiler::from_instructions(instructions, HOST).unwrap();
    assert_eq!(compiler.compile(), Ok(()));
    assert_eq!(compiler.code(), &compiled("+[>[-]<-].,"));
}
