use bf_interp::command::Command;
use bf_interp::error::Error;
use bf_interp::loops::find_loops;
use bf_interp::optimizer::{optimize, optimize_cancelling_pairs, optimize_sequences};
use bf_interp::program::{compile, Program};
use bf_interp::source::{is_symbol_char, preprocess, tokenize};

#[test]
fn test_preprocess() {
    assert_eq!(preprocess(">foo<bar[hello] world. this,is+a-comment"), "><[].,+-");
    assert_eq!(preprocess(""), "");
    assert_eq!(preprocess("not a real program"), "");
    assert_eq!(preprocess("[>>>+++,---.<<<]"), "[>>>+++,---.<<<]");
}

#[test]
fn test_tokenize() {
    assert_eq!(tokenize(""), []);
    assert_eq!(
        tokenize("><+-.,[]"),
        [
            Command::INCPTR { amount: 1 },
            Command::DECPTR { amount: 1 },
            Command::INCVAL { amount: 1 },
            Command::DECVAL { amount: 1 },
            Command::PUTC,
            Command::GETC,
            Command::LOOPSTART { end: 0 },
            Command::LOOPEND { start: 0 },
        ]
    );
}

#[test]
fn test_find_loops() {
    let mut commands = vec![
        Command::INCPTR { amount: 1 },
        Command::INCVAL { amount: 1 },
        Command::LOOPSTART { end: 0 },
        Command::DECPTR { amount: 1 },
        Command::LOOPSTART { end: 0 },
        Command::DECVAL { amount: 1 },
        Command::LOOPEND { start: 0 },
        Command::PUTC,
        Command::LOOPEND { start: 0 },
    ];
    assert!(find_loops(&mut commands).is_ok());
    assert_eq!(commands[2], Command::LOOPSTART { end: 8 });
    assert_eq!(commands[4], Command::LOOPSTART { end: 6 });
    assert_eq!(commands[6], Command::LOOPEND { start: 4 });
    assert_eq!(commands[8], Command::LOOPEND { start: 2 });
}

#[test]
fn test_find_loop_unbalanced() {
    let mut commands = vec![
        Command::INCPTR { amount: 1 },
        Command::LOOPSTART { end: 0 },
        Command::INCVAL { amount: 1 },
    ];
    assert!(find_loops(&mut commands).is_err());

    let mut commands = vec![
        Command::INCPTR { amount: 1 },
        Command::LOOPEND { start: 0 },
        Command::INCVAL { amount: 1 },
    ];
    assert!(find_loops(&mut commands).is_err());
}

#[test]
fn test_program_run() {
    let buf_in = "31abc".as_bytes();
    let mut buf_out: Vec<u8> = Vec::new();
    let code = "++[>[>],+[<]>-]>[.>]";
    let mut commands = tokenize(code);
    find_loops(&mut commands).unwrap();
    let program = Program { commands };
    let halted = program.run(buf_in, &mut buf_out, 1_000_000).unwrap();
    assert!(halted);

    let expected = vec!['4' as u8, '2' as u8];
    assert_eq!(&buf_out, &expected);
}

#[test]
fn test_optimize_pair_removal() {
    let incv = Command::INCVAL { amount: 1 };
    let decv = Command::DECVAL { amount: 1 };
    let incp = Command::INCPTR { amount: 1 };
    let decp = Command::DECPTR { amount: 1 };
    let mut commands = vec![
        incp, decp, decp, incp,
        incv, decv, decv, incv,
        incp, Command::GETC, decp,
        incv, incv, decp, incp, decv, decv,
        Command::PUTC, incv,
    ];
    optimize_cancelling_pairs(&mut commands);
    assert_eq!(commands, [incp, Command::GETC, decp, Command::PUTC, incv]);
}

#[test]
fn test_optimize_sequences() {
    let incv = Command::INCVAL { amount: 1 };
    let decv = Command::DECVAL { amount: 1 };
    let incp = Command::INCPTR { amount: 1 };
    let decp = Command::DECPTR { amount: 1 };
    let mut commands = vec![incv, decv, incp, decp, incv, incp, incv, incp];
    optimize_sequences(&mut commands);
    assert_eq!(commands, [incv, decv, incp, decp, incv, incp, incv, incp]);

    let mut commands = vec![incv, incv, incv, incv, decp, decp, incp, incp, incp, decv, decv];
    optimize_sequences(&mut commands);
    assert_eq!(
        commands,
        [
            Command::INCVAL { amount: 4 },
            Command::DECPTR { amount: 2 },
            Command::INCPTR { amount: 3 },
            Command::DECVAL { amount: 2 },
        ]
    );

    let mut commands = vec![
        Command::PUTC, Command::PUTC, Command::GETC, Command::GETC,
        Command::LOOPSTART { end: 0 }, Command::LOOPSTART { end: 0 },
        Command::LOOPEND { start: 0 }, Command::LOOPEND { start: 0 },
    ];
    let expected = commands.clone();
    optimize_sequences(&mut commands);
    assert_eq!(commands, expected);
}

#[test]
fn test_optimize() {
    let incv = Command::INCVAL { amount: 1 };
    let decv = Command::DECVAL { amount: 1 };
    let incp = Command::INCPTR { amount: 1 };
    let decp = Command::DECPTR { amount: 1 };
    let mut commands = vec![incv, incp, decp, incv, incv, decv, incv];
    optimize(&mut commands);
    assert_eq!(commands, [Command::INCVAL { amount: 3 }]);
}

#[test]
fn symbols_are_the_eight_characters() {
    for c in "><+-.,[]".chars() {
        assert!(is_symbol_char(c));
    }
    for c in "a 0\n#(){}*/=~\u{e9}\u{1f600}".chars() {
        assert!(!is_symbol_char(c));
    }
}

#[test]
fn preprocess_keeps_order_and_drops_wide_characters() {
    assert_eq!(preprocess("\u{e9}+\u{1f600}-\n[ ]"), "+-[]");
    assert_eq!(preprocess("]]>>[["), "]]>>[[");
}

#[test]
fn tokenize_after_preprocess_has_one_command_per_symbol() {
    let text = preprocess("read , then + and print . (twice) [.]");
    assert_eq!(text, ",+.[.]");
    let commands = tokenize(&text);
    assert_eq!(commands.len(), text.chars().count());
    assert_eq!(commands[0], Command::GETC);
    assert_eq!(commands[5], Command::LOOPEND { start: 0 });
}

#[test]
fn find_loops_single_pair_spans_the_program() {
    let mut commands = tokenize("[>>>+++,---.<<<]");
    let last = commands.len() - 1;
    assert_eq!(find_loops(&mut commands), Ok(()));
    assert_eq!(commands[0], Command::LOOPSTART { end: last });
    assert_eq!(commands[last], Command::LOOPEND { start: 0 });
    for i in 1..last {
        assert!(!matches!(commands[i], Command::LOOPSTART { .. } | Command::LOOPEND { .. }));
    }
}

#[test]
fn find_loops_names_the_failure() {
    let mut commands = tokenize("+[");
    assert_eq!(find_loops(&mut commands), Err(Error::UnmatchedOpeningBracket));
    let mut commands = tokenize("]");
    assert_eq!(find_loops(&mut commands), Err(Error::UnmatchedClosingBracket));
    let mut commands = tokenize("][[");
    assert_eq!(find_loops(&mut commands), Err(Error::UnmatchedClosingBracket));
}

#[test]
fn find_loops_keeps_closed_pairs_on_failure() {
    let mut commands = tokenize("[][]]+[]");
    assert_eq!(find_loops(&mut commands), Err(Error::UnmatchedClosingBracket));
    assert_eq!(commands[0], Command::LOOPSTART { end: 1 });
    assert_eq!(commands[1], Command::LOOPEND { start: 0 });
    assert_eq!(commands[2], Command::LOOPSTART { end: 3 });
    assert_eq!(commands[3], Command::LOOPEND { start: 2 });
    assert_eq!(commands[4], Command::LOOPEND { start: 0 });
    assert_eq!(commands[6], Command::LOOPSTART { end: 0 });
    assert_eq!(commands[7], Command::LOOPEND { start: 0 });

    let mut commands = tokenize("[[]");
    assert_eq!(find_loops(&mut commands), Err(Error::UnmatchedOpeningBracket));
    assert_eq!(commands[0], Command::LOOPSTART { end: 0 });
    assert_eq!(commands[1], Command::LOOPSTART { end: 2 });
    assert_eq!(commands[2], Command::LOOPEND { start: 1 });
}

#[test]
fn cancelling_pairs_reduce_to_empty() {
    let mut commands = tokenize("><<>+--+");
    optimize_cancelling_pairs(&mut commands);
    assert_eq!(commands, []);
    let mut commands: Vec<Command> = Vec::new();
    optimize_cancelling_pairs(&mut commands);
    assert_eq!(commands, []);
}

#[test]
fn cancelling_pairs_take_unit_amounts_only() {
    let mut commands = vec![
        Command::INCPTR { amount: 2 },
        Command::DECPTR { amount: 2 },
        Command::INCVAL { amount: 1 },
        Command::DECVAL { amount: 3 },
    ];
    let expected = commands.clone();
    optimize_cancelling_pairs(&mut commands);
    assert_eq!(commands, expected);
}

#[test]
fn cancelling_pairs_restart_at_the_beginning() {
    let mut commands = tokenize(">><<.+><-");
    optimize_cancelling_pairs(&mut commands);
    assert_eq!(commands, [Command::PUTC]);
}

#[test]
fn coalescing_four_increments() {
    let mut commands = tokenize("++++");
    optimize_sequences(&mut commands);
    assert_eq!(commands, [Command::INCVAL { amount: 4 }]);
}

#[test]
fn coalescing_wraps_the_amount() {
    let mut commands = vec![Command::INCVAL { amount: 1 }; 256];
    optimize_sequences(&mut commands);
    assert_eq!(commands, [Command::INCVAL { amount: 0 }]);
    let mut commands = vec![Command::DECVAL { amount: 1 }; 258];
    optimize_sequences(&mut commands);
    assert_eq!(commands, [Command::DECVAL { amount: 2 }]);
    let mut commands = vec![Command::INCPTR { amount: isize::MAX }; 2];
    optimize_sequences(&mut commands);
    assert_eq!(commands, [Command::INCPTR { amount: isize::MIN }]);
}

#[test]
fn coalescing_adds_to_the_first_of_a_run() {
    let a1 = Command::INCVAL { amount: 1 };
    let a2 = Command::INCVAL { amount: 2 };
    let mut commands = vec![a1, a1, a2, a2];
    optimize_sequences(&mut commands);
    assert_eq!(commands, [a2, Command::INCVAL { amount: 3 }]);
}

#[test]
fn optimize_twice_is_optimize_once() {
    for source in ["+>-<+[->+<]", "++--.>><<<,", "+-+-+-", ">>>[-]<<<", ""] {
        let mut once = tokenize(source);
        optimize(&mut once);
        let mut twice = once.clone();
        optimize(&mut twice);
        assert_eq!(once, twice);
    }
}

#[test]
fn optimize_can_bring_pointer_moves_together() {
    let mut commands = tokenize(">+-<");
    optimize(&mut commands);
    assert_eq!(commands, [Command::INCPTR { amount: 1 }, Command::DECPTR { amount: 1 }]);
    optimize(&mut commands);
    assert_eq!(commands, []);
}

#[test]
fn compile_runs_the_whole_pipeline() {
    let program = compile("add three: +++ then loop [ - ] done").unwrap();
    assert_eq!(
        program.commands,
        [
            Command::INCVAL { amount: 3 },
            Command::LOOPSTART { end: 3 },
            Command::DECVAL { amount: 1 },
            Command::LOOPEND { start: 1 },
        ]
    );
}

#[test]
fn compile_fails_on_unmatched_brackets() {
    assert_eq!(compile("+[[-]").err(), Some(Error::UnmatchedOpeningBracket));
    assert_eq!(compile("+[-]]").err(), Some(Error::UnmatchedClosingBracket));
}

#[test]
fn compiled_program_runs_end_to_end() {
    let program = compile("++[>[>],+[<]>-]>[.>]").unwrap();
    let mut out: Vec<u8> = Vec::new();
    assert_eq!(program.run("31".as_bytes(), &mut out, 1_000_000), Ok(true));
    assert_eq!(out, "42".as_bytes());
}
