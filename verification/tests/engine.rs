use bf_interp::command::Command;
use bf_interp::error::Error;
use bf_interp::machine::{Input, Machine};
use bf_interp::program::{compile, Program};

#[test]
fn fresh_machine_is_at_the_origin() {
    let m = Machine::new();
    assert_eq!(m.pc, 0);
    assert_eq!(m.pos, 0);
    assert!(m.memory.is_empty());
    assert_eq!(m.cell(), 0);
    assert!(m.halted(&[]));
    assert!(!m.halted(&[Command::PUTC]));
}

#[test]
fn step_adjusts_cells_modulo_256() {
    let commands = [Command::DECVAL { amount: 1 }, Command::INCVAL { amount: 3 }];
    let mut m = Machine::new();
    assert_eq!(m.step(&commands, Input::End), Ok(None));
    assert_eq!(m.cell(), 255);
    assert_eq!(m.step(&commands, Input::End), Ok(None));
    assert_eq!(m.cell(), 2);
    assert_eq!(m.pc, 2);
    assert!(m.halted(&commands));
    assert_eq!(m.step(&commands, Input::End), Ok(None));
    assert_eq!(m.pc, 2);
}

#[test]
fn step_moves_the_pointer_both_ways() {
    let commands = [Command::DECPTR { amount: 5 }, Command::INCPTR { amount: 2 }];
    let mut m = Machine::new();
    m.step(&commands, Input::End).unwrap();
    assert_eq!(m.pos, -5);
    m.step(&commands, Input::End).unwrap();
    assert_eq!(m.pos, -3);
}

#[test]
fn step_emits_the_current_cell() {
    let commands = [Command::PUTC, Command::INCVAL { amount: 65 }, Command::PUTC];
    let mut m = Machine::new();
    assert_eq!(m.step(&commands, Input::End), Ok(Some(0)));
    assert_eq!(m.step(&commands, Input::End), Ok(None));
    assert_eq!(m.step(&commands, Input::End), Ok(Some(65)));
}

#[test]
fn step_reads_a_byte_into_the_cell() {
    let commands = [Command::GETC];
    let mut m = Machine::new();
    assert!(m.wants_input(&commands));
    assert_eq!(m.step(&commands, Input::Byte(7)), Ok(None));
    assert_eq!(m.cell(), 7);
    assert!(!m.wants_input(&commands));
}

#[test]
fn read_at_end_of_input_keeps_the_cell() {
    let commands = [Command::INCVAL { amount: 9 }, Command::GETC];
    let mut m = Machine::new();
    m.step(&commands, Input::End).unwrap();
    assert_eq!(m.step(&commands, Input::End), Ok(None));
    assert_eq!(m.cell(), 9);
    assert_eq!(m.pc, 2);

    let program = compile("+++++,.").unwrap();
    let mut out: Vec<u8> = Vec::new();
    assert_eq!(program.run(&[], &mut out, 100), Ok(true));
    assert_eq!(out, [5]);
}

#[test]
fn failed_read_fails_the_step() {
    let commands = [Command::GETC];
    let mut m = Machine::new();
    assert_eq!(m.step(&commands, Input::Failed), Err(Error::InputFailed));
    assert_eq!(m.pc, 0);
}

#[test]
fn pointer_overflow_and_underflow() {
    let commands = [Command::INCPTR { amount: isize::MAX }, Command::INCPTR { amount: 1 }];
    let program = Program { commands: commands.to_vec() };
    let mut out: Vec<u8> = Vec::new();
    assert_eq!(program.run(&[], &mut out, 10), Err(Error::PointerOverflow));

    let commands = [Command::DECPTR { amount: isize::MAX }, Command::DECPTR { amount: 2 }];
    let program = Program { commands: commands.to_vec() };
    assert_eq!(program.run(&[], &mut out, 10), Err(Error::PointerUnderflow));
}

#[test]
fn counter_overflow_after_a_jump() {
    let program = Program { commands: vec![Command::LOOPSTART { end: usize::MAX }] };
    let mut out: Vec<u8> = Vec::new();
    assert_eq!(program.run(&[], &mut out, 10), Err(Error::PcOverflow));
}

#[test]
fn loops_jump_over_and_back() {
    let program = compile("[.]+++[>+.<-]").unwrap();
    let mut out: Vec<u8> = Vec::new();
    assert_eq!(program.run(&[], &mut out, 1000), Ok(true));
    assert_eq!(out, [1, 2, 3]);
}

#[test]
fn run_stops_when_the_steps_are_spent() {
    let program = compile("+[.]").unwrap();
    let mut out: Vec<u8> = Vec::new();
    assert_eq!(program.run(&[], &mut out, 7), Ok(false));
    assert_eq!(out, [1, 1]);
    let mut out: Vec<u8> = Vec::new();
    assert_eq!(program.run(&[], &mut out, 0), Ok(false));
    assert_eq!(out, []);
}

#[test]
fn run_appends_to_the_output() {
    let program = compile("+.").unwrap();
    let mut out: Vec<u8> = vec![9];
    assert_eq!(program.run(&[], &mut out, 10), Ok(true));
    assert_eq!(out, [9, 1]);
}

#[test]
fn run_keeps_output_emitted_before_a_failure() {
    let program = Program {
        commands: vec![
            Command::INCVAL { amount: 8 },
            Command::PUTC,
            Command::DECPTR { amount: isize::MAX },
            Command::DECPTR { amount: isize::MAX },
        ],
    };
    let mut out: Vec<u8> = Vec::new();
    assert_eq!(program.run(&[], &mut out, 10), Err(Error::PointerUnderflow));
    assert_eq!(out, [8]);
}

#[test]
fn messages_of_the_failures() {
    assert_eq!(Error::UnmatchedClosingBracket.message(), "Cannot find opening bracket for closing bracket");
    assert_eq!(Error::UnmatchedOpeningBracket.message(), "More opening than closing loop brackets");
    assert_eq!(Error::PointerOverflow.message(), "Pointer overflow");
    assert_eq!(Error::PointerUnderflow.message(), "Pointer underflow");
    assert_eq!(Error::PcOverflow.message(), "PC overflow");
    assert_eq!(Error::OutputFailed.message(), "Writing to output failed");
    assert_eq!(Error::InputFailed.message(), "Reading from input failed");
}
