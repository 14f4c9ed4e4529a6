use brainfuck_jit::interpreter::{RunEnd, Runtime, Step};
use brainfuck_jit::machine::Machine;
use brainfuck_jit::parser::{Instruction, ParseError};
use brainfuck_jit::tape::MEMORY_SIZE;

const HELLO: &str = "++++++++[>++++[>++>+++>+++>+<<<<-]>+>+>->>+[<]<-]>>.>---.+++++++..+++.\
    >>.<-.<.+++.------.--------.>>+.>++.";

/// Runs `program` on the interpreter and on the machine with the same input and
/// holds both to the same end, output and tape.
fn both(program: &str, input: &[u8], max_steps: usize) -> (Vec<u8>, RunEnd) {
    let mut runtime = Runtime::new(program);
    let direct = runtime.run(input, max_steps);
    let mut machine = Machine::new(program).unwrap();
    let folded = machine.run(input, max_steps);
    assert_eq!(folded, direct);
    assert_eq!(machine.memory(), runtime.memory());
    assert_eq!(machine.cursor(), runtime.cursor());
    direct
}

#[test]
fn machine_starts_on_a_fresh_tape() {
    let machine = Machine::new("+").unwrap();
    assert_eq!(machine.instructions(), &vec![Instruction::ValueIncrement(1), Instruction::End]);
    assert_eq!(machine.memory().len(), MEMORY_SIZE);
    assert!(machine.memory().iter().all(|&cell| cell == 0));
    assert_eq!(machine.cursor(), MEMORY_SIZE / 2);
}

#[test]
fn machine_turns_down_unbalanced_programs() {
    assert_eq!(Machine::new("]").err(), Some(ParseError::UnmatchedLoopEnd));
    assert_eq!(Machine::new("[").err(), Some(ParseError::UnclosedLoopStart));
    assert!(Machine::from_instructions(vec![Instruction::LoopStart { end: 7 }, Instruction::End])
        .is_none());
    assert!(Machine::from_instructions(vec![]).is_none());
}

#[test]
fn counted_loop_program_writes_sixteen_on_the_machine() {
    let mut machine = Machine::new("++++[>++++<-]>.").unwrap();
    let (output, end) = machine.run(&[], 1000);
    assert_eq!(end, RunEnd::Finished);
    assert_eq!(output, vec![16]);
    assert_eq!(machine.cursor(), MEMORY_SIZE / 2 + 1);
    assert_eq!(machine.memory()[MEMORY_SIZE / 2 + 1], 16);
}

#[test]
fn echo_writes_the_byte_it_read_on_the_machine() {
    let mut machine = Machine::new(",.").unwrap();
    let (output, end) = machine.run(&[0x41], 100);
    assert_eq!(end, RunEnd::Finished);
    assert_eq!(output, vec![0x41]);
}

#[test]
fn machine_steps_one_instruction_at_a_time() {
    let mut machine = Machine::new("+++.,.").unwrap();
    assert_eq!(machine.step(), Step::Continue);
    assert_eq!(machine.memory()[MEMORY_SIZE / 2], 3);
    assert_eq!(machine.step(), Step::Output(3));
    assert_eq!(machine.step(), Step::Input);
    assert!(machine.feed(200));
    assert!(!machine.feed(1));
    assert_eq!(machine.step(), Step::Output(200));
    assert_eq!(machine.step(), Step::Halt);
    assert_eq!(machine.step(), Step::Halt);
}

#[test]
fn folded_pointer_motion_off_the_tape_is_not_carried_out() {
    let program = ">".repeat(MEMORY_SIZE / 2);
    let mut machine = Machine::new(&program).unwrap();
    assert_eq!(machine.run(&[], 10).1, RunEnd::CursorOutOfRange);
    assert_eq!(machine.cursor(), MEMORY_SIZE / 2);
    let program = "<".repeat(MEMORY_SIZE / 2 + 1);
    let mut machine = Machine::new(&program).unwrap();
    assert_eq!(machine.run(&[], 10).1, RunEnd::CursorOutOfRange);
    let program = "<".repeat(MEMORY_SIZE / 2);
    let mut machine = Machine::new(&program).unwrap();
    assert_eq!(machine.run(&[], 10).1, RunEnd::Finished);
    assert_eq!(machine.cursor(), 0);
}

#[test]
fn a_folded_run_does_what_its_unit_steps_do() {
    let mut folded =
        Machine::from_instructions(vec![Instruction::ValueIncrement(5), Instruction::End]).unwrap();
    folded.run(&[], 10);
    let mut unfolded = Machine::from_instructions(vec![
        Instruction::ValueIncrement(1),
        Instruction::ValueIncrement(1),
        Instruction::ValueIncrement(1),
        Instruction::ValueIncrement(1),
        Instruction::ValueIncrement(1),
        Instruction::End,
    ])
    .unwrap();
    unfolded.run(&[], 10);
    assert_eq!(folded.memory(), unfolded.memory());
    assert_eq!(folded.memory()[MEMORY_SIZE / 2], 5);

    let mut folded = Machine::from_instructions(vec![
        Instruction::PointerDecrement(3),
        Instruction::ValueDecrement(2),
        Instruction::End,
    ])
    .unwrap();
    folded.run(&[], 10);
    let mut unfolded = Machine::from_instructions(vec![
        Instruction::PointerDecrement(1),
        Instruction::PointerDecrement(1),
        Instruction::PointerDecrement(1),
        Instruction::ValueDecrement(1),
        Instruction::ValueDecrement(1),
        Instruction::End,
    ])
    .unwrap();
    unfolded.run(&[], 10);
    assert_eq!(folded.memory(), unfolded.memory());
    assert_eq!(folded.cursor(), unfolded.cursor());
    assert_eq!(folded.memory()[MEMORY_SIZE / 2 - 3], 254);
}

#[test]
fn a_count_of_zero_changes_nothing() {
    let mut machine = Machine::from_instructions(vec![
        Instruction::ValueIncrement(0),
        Instruction::PointerIncrement(0),
        Instruction::End,
    ])
    .unwrap();
    assert_eq!(machine.run(&[], 10).1, RunEnd::Finished);
    assert!(machine.memory().iter().all(|&cell| cell == 0));
    assert_eq!(machine.cursor(), MEMORY_SIZE / 2);
}

#[test]
fn interpreter_and_machine_agree_on_hello_world() {
    let (output, end) = both(HELLO, &[], 1_000_000);
    assert_eq!(end, RunEnd::Finished);
    assert_eq!(output, b"Hello World!\n".to_vec());
}

#[test]
fn interpreter_and_machine_agree_on_small_programs() {
    assert_eq!(both("++++[>++++<-]>.", &[], 1000), (vec![16], RunEnd::Finished));
    assert_eq!(both(",.", &[0x41], 1000), (vec![0x41], RunEnd::Finished));
    assert_eq!(both("only commentary", &[7], 1000), (vec![], RunEnd::Finished));
    assert_eq!(both("", &[], 1), (vec![], RunEnd::Finished));
}

#[test]
fn interpreter_and_machine_agree_on_input_driven_programs() {
    // Reverse the input up to a zero byte.
    let reverse = ">,[>,]<[.<]";
    assert_eq!(both(reverse, &[1, 2, 3, 0], 10_000), (vec![3, 2, 1], RunEnd::Finished));
    // Add two bytes.
    assert_eq!(both(",>,[<+>-]<.", &[100, 200], 10_000), (vec![44], RunEnd::Finished));
    // Echo until the input runs out.
    let (output, end) = both("+[,.]", &[5, 6, 7], 10_000);
    assert_eq!(output, vec![5, 6, 7]);
    assert_eq!(end, RunEnd::InputExhausted);
}

#[test]
fn interpreter_and_machine_agree_on_wrapping_runs() {
    let program = format!("{}.{}.", "+".repeat(300), "-".repeat(600));
    assert_eq!(both(&program, &[], 10_000), (vec![44, 212], RunEnd::Finished));
    let program = format!("{}{}+.", ">".repeat(1000), "<".repeat(2000));
    assert_eq!(both(&program, &[], 10_000), (vec![1], RunEnd::Finished));
}

#[test]
fn interpreter_and_machine_agree_on_nested_and_skipped_loops() {
    assert_eq!(both("[[.]+[.]].+[[-]>+<]>.", &[], 10_000), (vec![0, 1], RunEnd::Finished));
    assert_eq!(
        both("+++[>++[>+++<-]<-]>>.", &[], 10_000),
        (vec![18], RunEnd::Finished)
    );
}

#[test]
fn machine_run_counted_tells_how_much_input_was_read() {
    let mut machine = Machine::new(",.,.,.").unwrap();
    assert_eq!(machine.run_counted(&[10, 20], 100), (vec![10, 20], 2, RunEnd::InputExhausted));
    let mut machine = Machine::new(",.,.").unwrap();
    assert_eq!(machine.run_counted(&[1, 2, 3], 3), (vec![1], 2, RunEnd::OutOfSteps));
}

#[test]
fn a_machine_run_cut_off_by_the_step_bound_is_taken_up_where_it_stopped() {
    let program = "+++[>,.<-]";
    let input = [7u8, 8, 9];
    let mut whole = Machine::new(program).unwrap();
    let (all, read, end) = whole.run_counted(&input, 1000);
    assert_eq!((all.clone(), read, end), (vec![7, 8, 9], 3, RunEnd::Finished));
    for cut in 0..25 {
        let mut machine = Machine::new(program).unwrap();
        let (first, consumed, _) = machine.run_counted(&input, cut);
        let (second, more, end) = machine.run_counted(&input[consumed..], 1000);
        assert_eq!(end, RunEnd::Finished);
        assert_eq!(consumed + more, 3);
        let mut joined = first;
        joined.extend_from_slice(&second);
        assert_eq!(joined, all);
        assert_eq!(machine.memory(), whole.memory());
    }
}

#[test]
fn the_machine_has_written_what_the_interpreter_has_in_no_more_steps() {
    // An endless program: after every number of interpreter steps, some number of
    // machine steps that is no greater has written and read the same.
    let program = "+[>+++.<,]";
    let input = [1u8, 1, 1, 1, 1, 1, 1, 1];
    for steps in 0..60 {
        let mut runtime = Runtime::new(program);
        let (written, read, _) = runtime.run_counted(&input, steps);
        let found = (0..=steps).any(|taken| {
            let mut machine = Machine::new(program).unwrap();
            let (folded, consumed, _) = machine.run_counted(&input, taken);
            folded == written && consumed == read
        });
        assert!(found);
    }
}
