use brainfuck_jit::interpreter::{RunEnd, Runtime, Step, MEMORY_SIZE};

#[test]
fn new_keeps_only_the_symbols_and_starts_on_a_fresh_tape() {
    let runtime = Runtime::new("a+b[c-d]e");
    assert_eq!(runtime.instructions(), &vec!['+', '[', '-', ']']);
    assert_eq!(runtime.memory().len(), MEMORY_SIZE);
    assert!(runtime.memory().iter().all(|&cell| cell == 0));
    assert_eq!(runtime.cursor(), MEMORY_SIZE / 2);
    assert_eq!(MEMORY_SIZE, 30000);
}

#[test]
fn counted_loop_program_writes_sixteen() {
    let mut runtime = Runtime::new("++++[>++++<-]>.");
    let (output, end) = runtime.run(&[], 10_000);
    assert_eq!(end, RunEnd::Finished);
    assert_eq!(output, vec![16]);
    assert_eq!(runtime.cursor(), MEMORY_SIZE / 2 + 1);
    assert_eq!(runtime.memory()[MEMORY_SIZE / 2], 0);
    assert_eq!(runtime.memory()[MEMORY_SIZE / 2 + 1], 16);
}

#[test]
fn echo_writes_the_byte_it_read() {
    let mut runtime = Runtime::new(",.");
    let (output, end) = runtime.run(&[0x41], 100);
    assert_eq!(end, RunEnd::Finished);
    assert_eq!(output, vec![0x41]);
}

#[test]
fn commentary_does_nothing() {
    let mut runtime = Runtime::new("no symbols here at all");
    let (output, end) = runtime.run(&[1, 2, 3], 100);
    assert_eq!(end, RunEnd::Finished);
    assert!(output.is_empty());
    assert!(runtime.memory().iter().all(|&cell| cell == 0));
    assert_eq!(runtime.cursor(), MEMORY_SIZE / 2);
}

#[test]
fn reading_without_input_ends_the_run() {
    let mut runtime = Runtime::new("+.,.");
    let (output, end) = runtime.run(&[], 100);
    assert_eq!(end, RunEnd::InputExhausted);
    assert_eq!(output, vec![1]);
}

#[test]
fn endless_loop_runs_out_of_steps() {
    let mut runtime = Runtime::new("+[]");
    let (output, end) = runtime.run(&[], 1000);
    assert_eq!(end, RunEnd::OutOfSteps);
    assert!(output.is_empty());
}

#[test]
fn zero_steps_change_nothing() {
    let mut runtime = Runtime::new("+.");
    let (output, end) = runtime.run(&[], 0);
    assert_eq!(end, RunEnd::OutOfSteps);
    assert!(output.is_empty());
    assert_eq!(runtime.memory()[MEMORY_SIZE / 2], 0);
}

#[test]
fn cells_wrap_modulo_256() {
    let mut runtime = Runtime::new("-.");
    let (output, end) = runtime.run(&[], 100);
    assert_eq!(end, RunEnd::Finished);
    assert_eq!(output, vec![255]);
    let program = format!("{}.", "+".repeat(257));
    let mut runtime = Runtime::new(&program);
    let (output, _) = runtime.run(&[], 1000);
    assert_eq!(output, vec![1]);
}

#[test]
fn skipped_loop_body_is_not_run() {
    let mut runtime = Runtime::new("[+[.].]+.");
    let (output, end) = runtime.run(&[], 100);
    assert_eq!(end, RunEnd::Finished);
    assert_eq!(output, vec![1]);
}

#[test]
fn moving_off_either_end_of_the_tape_ends_the_run() {
    let program = ">".repeat(MEMORY_SIZE / 2);
    let mut runtime = Runtime::new(&program);
    let (_, end) = runtime.run(&[], 100_000);
    assert_eq!(end, RunEnd::CursorOutOfRange);
    assert_eq!(runtime.cursor(), MEMORY_SIZE - 1);
    let program = "<".repeat(MEMORY_SIZE / 2 + 1);
    let mut runtime = Runtime::new(&program);
    let (_, end) = runtime.run(&[], 100_000);
    assert_eq!(end, RunEnd::CursorOutOfRange);
    assert_eq!(runtime.cursor(), 0);
}

#[test]
fn unbalanced_loops_end_the_run() {
    let mut runtime = Runtime::new("+]");
    assert_eq!(runtime.run(&[], 100).1, RunEnd::UnbalancedLoop);
    let mut runtime = Runtime::new("[");
    assert_eq!(runtime.run(&[], 100).1, RunEnd::UnbalancedLoop);
    // A closing with nothing open is passed when the cell is zero.
    let mut runtime = Runtime::new("]+.");
    let (output, end) = runtime.run(&[], 100);
    assert_eq!(end, RunEnd::Finished);
    assert_eq!(output, vec![1]);
}

#[test]
fn step_hands_out_one_event_at_a_time() {
    let mut runtime = Runtime::new("+.,.");
    assert_eq!(runtime.step(), Step::Continue);
    assert_eq!(runtime.step(), Step::Output(1));
    assert_eq!(runtime.step(), Step::Input);
    assert_eq!(runtime.step(), Step::Input);
    assert!(runtime.feed(9));
    assert!(!runtime.feed(10));
    assert_eq!(runtime.step(), Step::Output(9));
    assert_eq!(runtime.step(), Step::Halt);
    assert_eq!(runtime.step(), Step::Halt);
}

#[test]
fn hello_world_runs() {
    let program = "++++++++[>++++[>++>+++>+++>+<<<<-]>+>+>->>+[<]<-]>>.>---.+++++++..+++.\
        >>.<-.<.+++.------.--------.>>+.>++.";
    let mut runtime = Runtime::new(program);
    let (output, end) = runtime.run(&[], 1_000_000);
    assert_eq!(end, RunEnd::Finished);
    assert_eq!(output, b"Hello World!\n".to_vec());
}

#[test]
fn run_counted_tells_how_much_input_was_read() {
    let mut runtime = Runtime::new(",.,.,.");
    let (output, consumed, end) = runtime.run_counted(&[10, 20], 100);
    assert_eq!(output, vec![10, 20]);
    assert_eq!(consumed, 2);
    assert_eq!(end, RunEnd::InputExhausted);

    let mut runtime = Runtime::new("+.");
    assert_eq!(runtime.run_counted(&[1, 2, 3], 100), (vec![1], 0, RunEnd::Finished));
}

#[test]
fn a_run_cut_off_by_the_step_bound_is_taken_up_where_it_stopped() {
    let program = ",.,.,.";
    let input = [7u8, 8, 9];
    let mut whole = Runtime::new(program);
    let (all, read, end) = whole.run_counted(&input, 100);
    assert_eq!((all.clone(), read, end), (vec![7, 8, 9], 3, RunEnd::Finished));

    for cut in 0..8 {
        let mut runtime = Runtime::new(program);
        let (first, consumed, end) = runtime.run_counted(&input, cut);
        if cut < 7 {
            assert_eq!(end, RunEnd::OutOfSteps);
        }
        let (second, more, end) = runtime.run_counted(&input[consumed..], 100);
        assert_eq!(end, RunEnd::Finished);
        assert_eq!(consumed + more, 3);
        let mut joined = first;
        joined.extend_from_slice(&second);
        assert_eq!(joined, all);
        assert_eq!(runtime.memory(), whole.memory());
        assert_eq!(runtime.cursor(), whole.cursor());
    }
}

#[test]
fn three_steps_of_an_echo_read_two_bytes_and_write_one() {
    let mut runtime = Runtime::new(",.,.");
    assert_eq!(runtime.run_counted(&[1, 2, 3], 3), (vec![1], 2, RunEnd::OutOfSteps));
}
