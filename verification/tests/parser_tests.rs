use brainfuck_jit::parser::{parser, Instruction, ParseError};

#[test]
fn folds_and_resolves_a_counted_loop() {
    let instrs = parser("++++[>++++<-]>.").unwrap();
    assert_eq!(
        instrs,
        vec![
            Instruction::ValueIncrement(4),
            Instruction::LoopStart { end: 6 },
            Instruction::PointerIncrement(1),
            Instruction::ValueIncrement(4),
            Instruction::PointerDecrement(1),
            Instruction::ValueDecrement(1),
            Instruction::LoopEnd { start: 1 },
            Instruction::PointerIncrement(1),
            Instruction::PutChar,
            Instruction::End,
        ]
    );
}

#[test]
fn lone_loop_end_is_unbalanced() {
    assert_eq!(parser("]"), Err(ParseError::UnmatchedLoopEnd));
}

#[test]
fn unclosed_loop_start_is_unbalanced() {
    assert_eq!(parser("["), Err(ParseError::UnclosedLoopStart));
    assert_eq!(parser("+[[-]"), Err(ParseError::UnclosedLoopStart));
}

#[test]
fn loop_end_before_its_start_is_unmatched_even_if_counts_agree() {
    assert_eq!(parser("]["), Err(ParseError::UnmatchedLoopEnd));
    assert_eq!(parser("[]]["), Err(ParseError::UnmatchedLoopEnd));
}

#[test]
fn empty_text_is_just_end() {
    assert_eq!(parser(""), Ok(vec![Instruction::End]));
}

#[test]
fn commentary_is_passed_over() {
    assert_eq!(parser("abc \n\t 123 {}()"), Ok(vec![Instruction::End]));
    assert_eq!(
        parser("+ comment + more +"),
        Ok(vec![Instruction::ValueIncrement(3), Instruction::End])
    );
}

#[test]
fn runs_fold_only_with_the_same_symbol() {
    assert_eq!(
        parser("++--+>><<>"),
        Ok(vec![
            Instruction::ValueIncrement(2),
            Instruction::ValueDecrement(2),
            Instruction::ValueIncrement(1),
            Instruction::PointerIncrement(2),
            Instruction::PointerDecrement(2),
            Instruction::PointerIncrement(1),
            Instruction::End,
        ])
    );
}

#[test]
fn input_and_output_are_never_folded() {
    assert_eq!(
        parser("..,,"),
        Ok(vec![
            Instruction::PutChar,
            Instruction::PutChar,
            Instruction::ReadChar,
            Instruction::ReadChar,
            Instruction::End,
        ])
    );
}

#[test]
fn value_count_wraps_at_eight_bits() {
    assert_eq!(
        parser(&"+".repeat(255)),
        Ok(vec![Instruction::ValueIncrement(255), Instruction::End])
    );
    assert_eq!(
        parser(&"+".repeat(256)),
        Ok(vec![Instruction::ValueIncrement(0), Instruction::End])
    );
    assert_eq!(
        parser(&"-".repeat(300)),
        Ok(vec![Instruction::ValueDecrement(44), Instruction::End])
    );
}

#[test]
fn a_run_that_wrapped_to_zero_still_takes_in_more() {
    let mut text = "+".repeat(256);
    text.push('+');
    assert_eq!(parser(&text), Ok(vec![Instruction::ValueIncrement(1), Instruction::End]));
}

#[test]
fn pointer_count_does_not_wrap_at_eight_bits() {
    assert_eq!(
        parser(&">".repeat(70000)),
        Ok(vec![Instruction::PointerIncrement(70000), Instruction::End])
    );
}

#[test]
fn nested_loops_are_cross_linked() {
    assert_eq!(
        parser("[[][]]"),
        Ok(vec![
            Instruction::LoopStart { end: 5 },
            Instruction::LoopStart { end: 2 },
            Instruction::LoopEnd { start: 1 },
            Instruction::LoopStart { end: 4 },
            Instruction::LoopEnd { start: 3 },
            Instruction::LoopEnd { start: 0 },
            Instruction::End,
        ])
    );
}

#[test]
fn every_loop_start_names_the_end_that_names_it_back() {
    let program = "++[>+[>+<-]<[->>+<<]>>[-<<+>>]<<-]>[.[-]]";
    let instrs = parser(program).unwrap();
    assert_eq!(instrs.last(), Some(&Instruction::End));
    let mut loops = 0;
    for (i, instr) in instrs.iter().enumerate() {
        if let Instruction::LoopStart { end } = *instr {
            loops += 1;
            assert!(i < end);
            assert_eq!(instrs[end], Instruction::LoopEnd { start: i });
        }
        if let Instruction::LoopEnd { start } = *instr {
            assert!(start < i);
            assert_eq!(instrs[start], Instruction::LoopStart { end: i });
        }
    }
    assert_eq!(loops, 6);
}

#[test]
fn non_ascii_commentary_is_passed_over() {
    assert_eq!(
        parser("é+→+"),
        Ok(vec![Instruction::ValueIncrement(2), Instruction::End])
    );
}
