//! A program ready to run, and the pipeline that makes one from source
//! text.

use vstd::prelude::*;
use crate::command::Command;
use crate::error::Error;
use crate::loops::{balanced, depth, find_loops, first_unmatched_close, never_negative, resolved};
use crate::machine::{halted_in, initial_state, step_of, wants_input_in, Input, Machine, State};
use crate::optimizer::{optimize, optimized};
use crate::source::{preprocess, symbols_of, tokenize, tokens_of};

verus! {

/// A run in progress: the machine, how many bytes of the input it has
/// read, and the bytes it has emitted.
pub struct Run {
    pub state: State,
    pub consumed: int,
    pub output: Seq<u8>,
}

/// What the input gives to a machine that has read `consumed` bytes of it.
pub open spec fn input_at(input: Seq<u8>, consumed: int) -> Input {
    if 0 <= consumed < input.len() {
        Input::Byte(input[consumed])
    } else {
        Input::End
    }
}

/// One step of a run: the machine steps, a command that reads takes the
/// next byte of the input if there is one, and a byte that is emitted goes
/// to the end of the output.
pub open spec fn run_step(commands: Seq<Command>, r: Run, input: Seq<u8>) -> Result<Run, Error> {
    match step_of(commands, r.state, input_at(input, r.consumed)) {
        Ok((st, out)) => Ok(
            Run {
                state: st,
                consumed: if wants_input_in(commands, r.state) && 0 <= r.consumed < input.len() {
                    r.consumed + 1
                } else {
                    r.consumed
                },
                output: match out {
                    Some(b) => r.output.push(b),
                    None => r.output,
                },
            },
        ),
        Err(e) => Err(e),
    }
}

/// A run of at most `steps` steps: where it stands when the machine has
/// halted, the steps are spent or a step has failed, and the failure if
/// there was one.
pub open spec fn run_of(commands: Seq<Command>, r: Run, input: Seq<u8>, steps: nat) -> (
    Run,
    Option<Error>,
)
    decreases steps,
{
    if steps == 0 || halted_in(commands, r.state) {
        (r, None)
    } else {
        match run_step(commands, r, input) {
            Ok(next) => run_of(commands, next, input, (steps - 1) as nat),
            Err(e) => (r, Some(e)),
        }
    }
}

/// The start of a run that appends to `output`.
pub open spec fn initial_run(output: Seq<u8>) -> Run {
    Run { state: initial_state(), consumed: 0, output }
}

/// The commands that a source text stands for, before the brackets are
/// matched.
pub open spec fn commands_of(source: Seq<char>) -> Seq<Command> {
    optimized(tokens_of(symbols_of(source)))
}

/// A sequence of commands to run.
pub struct Program {
    pub commands: Vec<Command>,
}

impl Program {
    /// Runs the program on a fresh machine for at most `max_steps` steps.
    /// The machine reads from `input`, where a read at the end changes
    /// nothing, and appends what it emits to `output`.
    ///
    /// Returns `Ok(true)` when the machine has halted, `Ok(false)` when the
    /// steps were spent first, and the failure of the step that failed.
    /// What was emitted before stays in `output` in each case.
    pub fn run(&self, input: &[u8], output: &mut Vec<u8>, max_steps: u64) -> (result: Result<
        bool,
        Error,
    >)
        ensures
            ({
                let (end, failure) = run_of(
                    self.commands@,
                    initial_run(old(output)@),
                    input@,
                    max_steps as nat,
                );
                &&& final(output)@ == end.output
                &&& result == match failure {
                    Some(e) => Err::<bool, Error>(e),
                    None => Ok::<bool, Error>(halted_in(self.commands@, end.state)),
                }
            }),
    {
        let commands = self.commands.as_slice();
        let mut machine = Machine::new();
        let mut consumed: usize = 0;
        let mut steps: u64 = 0;
        while steps < max_steps && !machine.halted(commands)
            invariant
                commands@ == self.commands@,
                steps <= max_steps,
                consumed <= input@.len(),
                run_of(commands@, initial_run(old(output)@), input@, max_steps as nat) == run_of(
                    commands@,
                    Run { state: machine@, consumed: consumed as int, output: output@ },
                    input@,
                    (max_steps - steps) as nat,
                ),
            decreases max_steps - steps,
        {
            let reads = machine.wants_input(commands) && consumed < input.len();
            let given = if consumed < input.len() {
                Input::Byte(input[consumed])
            } else {
                Input::End
            };
            match machine.step(commands, given) {
                Ok(out) => {
                    if reads {
                        consumed += 1;
                    }
                    if let Some(b) = out {
                        output.push(b);
                    }
                },
                Err(e) => {
                    return Err(e);
                },
            }
            steps += 1;
        }
        Ok(machine.halted(commands))
    }
}

/// Makes a program from source text: keeps the symbols, tokenizes them,
/// optimizes, and matches the brackets. Fails where the brackets do not
/// match, and then nothing can be run.
pub fn compile(source: &str) -> (result: Result<Program, Error>)
    ensures
        match result {
            Ok(program) => {
                &&& balanced(commands_of(source@))
                &&& resolved(commands_of(source@), program.commands@)
            },
            Err(Error::UnmatchedClosingBracket) => exists|i: int| #[trigger]
                first_unmatched_close(commands_of(source@), i),
            Err(Error::UnmatchedOpeningBracket) => {
                &&& never_negative(commands_of(source@), commands_of(source@).len() as int)
                &&& depth(commands_of(source@), 0, commands_of(source@).len() as int) > 0
            },
            Err(_) => false,
        },
{
    let text = preprocess(source);
    let mut commands = tokenize(text.as_str());
    optimize(&mut commands);
    let ghost before = commands@;
    let found = find_loops(&mut commands);
    assert(before == commands_of(source@));
    match found {
        Ok(()) => Ok(Program { commands }),
        Err(e) => Err(e),
    }
}

} // verus!
