//! The execution engine: a program counter, a pointer and a sparse tape of
//! bytes, advanced one command at a time.

use vstd::prelude::*;
use std::collections::HashMap;
use crate::command::Command;
use crate::error::Error;

verus! {

/// What the input source gave when it was asked for one byte.
#[derive(PartialEq, Eq, Structural, Copy, Clone, Debug)]
pub enum Input {
    /// The next byte.
    Byte(u8),
    /// The source has ended.
    End,
    /// The source failed.
    Failed,
}

/// The state of a machine: the index of the next command, the address the
/// pointer is at, and the cells that have been written.
pub struct State {
    pub pc: usize,
    pub pos: isize,
    pub tape: Map<isize, u8>,
}

/// The byte in the cell at `pos`: zero until the cell is written.
pub open spec fn cell_at(tape: Map<isize, u8>, pos: isize) -> u8 {
    if tape.contains_key(pos) {
        tape[pos]
    } else {
        0
    }
}

/// The state every run starts in.
pub open spec fn initial_state() -> State {
    State { pc: 0, pos: 0, tape: Map::empty() }
}

/// The state after a command that does not jump: the counter moves on by
/// one, which fails where it cannot.
pub open spec fn advance(st: State) -> Result<State, Error> {
    if st.pc == usize::MAX {
        Err(Error::PcOverflow)
    } else {
        Ok(State { pc: (st.pc + 1) as usize, ..st })
    }
}

/// The sum of two bytes modulo 256.
pub open spec fn add_wrapping(a: u8, b: u8) -> u8 {
    ((a + b) % 256) as u8
}

/// The difference of two bytes modulo 256.
pub open spec fn sub_wrapping(a: u8, b: u8) -> u8 {
    ((a - b) % 256) as u8
}

/// The machine is past the last command.
pub open spec fn halted_in(commands: Seq<Command>, st: State) -> bool {
    st.pc >= commands.len()
}

/// The next command reads a byte.
pub open spec fn wants_input_in(commands: Seq<Command>, st: State) -> bool {
    st.pc < commands.len() && commands[st.pc as int] is GETC
}

/// One step of the machine: the state after the command at the counter,
/// and the byte that the command emits, if it emits one. `input` is what
/// the source gave; only a command that reads looks at it. A halted machine
/// stays as it is.
pub open spec fn step_of(commands: Seq<Command>, st: State, input: Input) -> Result<
    (State, Option<u8>),
    Error,
> {
    if st.pc >= commands.len() {
        Ok((st, None))
    } else {
        let cell = cell_at(st.tape, st.pos);
        match commands[st.pc as int] {
            Command::INCPTR { amount } => {
                if st.pos + amount > isize::MAX || st.pos + amount < isize::MIN {
                    Err(Error::PointerOverflow)
                } else {
                    pair(advance(State { pos: (st.pos + amount) as isize, ..st }), None)
                }
            },
            Command::DECPTR { amount } => {
                if st.pos - amount > isize::MAX || st.pos - amount < isize::MIN {
                    Err(Error::PointerUnderflow)
                } else {
                    pair(advance(State { pos: (st.pos - amount) as isize, ..st }), None)
                }
            },
            Command::INCVAL { amount } => pair(
                advance(State { tape: st.tape.insert(st.pos, add_wrapping(cell, amount)), ..st }),
                None,
            ),
            Command::DECVAL { amount } => pair(
                advance(State { tape: st.tape.insert(st.pos, sub_wrapping(cell, amount)), ..st }),
                None,
            ),
            Command::PUTC => pair(advance(st), Some(cell)),
            Command::GETC => match input {
                Input::Byte(b) => pair(
                    advance(State { tape: st.tape.insert(st.pos, b), ..st }),
                    None,
                ),
                Input::End => pair(advance(st), None),
                Input::Failed => Err(Error::InputFailed),
            },
            Command::LOOPSTART { end } => {
                if cell == 0 {
                    pair(advance(State { pc: end, ..st }), None)
                } else {
                    pair(advance(st), None)
                }
            },
            Command::LOOPEND { start } => Ok((State { pc: start, ..st }, None)),
        }
    }
}

/// A state, where there is one, together with the byte emitted.
pub open spec fn pair(st: Result<State, Error>, out: Option<u8>) -> Result<
    (State, Option<u8>),
    Error,
> {
    match st {
        Ok(s) => Ok((s, out)),
        Err(e) => Err(e),
    }
}

/// A read at the end of the input leaves every cell, and the pointer, as
/// they were, and the step does not fail.
pub proof fn lemma_end_of_input_keeps_cells(commands: Seq<Command>, st: State)
    requires
        commands.len() <= usize::MAX,
        wants_input_in(commands, st),
    ensures
        step_of(commands, st, Input::End) == Ok::<(State, Option<u8>), Error>(
            (State { pc: (st.pc + 1) as usize, ..st }, None),
        ),
        forall|p: isize|
            cell_at(step_of(commands, st, Input::End).unwrap().0.tape, p) == cell_at(st.tape, p),
{
}

/// The machine that runs a program.
pub struct Machine {
    /// The index of the next command.
    pub pc: usize,
    /// The address the pointer is at.
    pub pos: isize,
    /// The cells that have been written, by address.
    pub memory: HashMap<isize, u8>,
}

impl View for Machine {
    type V = State;

    open spec fn view(&self) -> State {
        State { pc: self.pc, pos: self.pos, tape: self.memory@ }
    }
}

impl Machine {
    /// A machine at the first command, with the pointer at address 0 and an
    /// empty tape.
    pub fn new() -> (m: Machine)
        ensures
            m@ == initial_state(),
    {
        Machine { pc: 0, pos: 0, memory: HashMap::new() }
    }

    /// The byte in the cell under the pointer.
    pub fn cell(&self) -> (b: u8)
        ensures
            b == cell_at(self@.tape, self@.pos),
    {
        broadcast use vstd::std_specs::hash::group_hash_axioms;

        match self.memory.get(&self.pos) {
            Some(v) => *v,
            None => 0,
        }
    }

    /// Whether the machine is past the last command.
    pub fn halted(&self, commands: &[Command]) -> (r: bool)
        ensures
            r == halted_in(commands@, self@),
    {
        self.pc >= commands.len()
    }

    /// Whether the next command reads a byte.
    pub fn wants_input(&self, commands: &[Command]) -> (r: bool)
        ensures
            r == wants_input_in(commands@, self@),
    {
        if self.pc < commands.len() {
            match commands[self.pc] {
                Command::GETC => true,
                _ => false,
            }
        } else {
            false
        }
    }

    /// Runs the command at the counter and returns the byte it emits, if it
    /// emits one. `input` is what the source gave when asked for a byte; it
    /// is looked at only where `wants_input` holds. A failed step leaves
    /// the machine as it was.
    pub fn step(&mut self, commands: &[Command], input: Input) -> (r: Result<Option<u8>, Error>)
        ensures
            match step_of(commands@, old(self)@, input) {
                Ok((st, out)) => r == Ok::<Option<u8>, Error>(out) && final(self)@ == st,
                Err(e) => r == Err::<Option<u8>, Error>(e) && final(self)@ == old(self)@,
            },
    {
        broadcast use vstd::std_specs::hash::group_hash_axioms;

        if self.pc >= commands.len() {
            return Ok(None);
        }
        let cell = self.cell();
        match commands[self.pc] {
            Command::INCPTR { amount } => {
                match self.pos.checked_add(amount) {
                    Some(p) => {
                        self.pos = p;
                        self.pc = self.pc + 1;
                        Ok(None)
                    },
                    None => Err(Error::PointerOverflow),
                }
            },
            Command::DECPTR { amount } => {
                match self.pos.checked_sub(amount) {
                    Some(p) => {
                        self.pos = p;
                        self.pc = self.pc + 1;
                        Ok(None)
                    },
                    None => Err(Error::PointerUnderflow),
                }
            },
            Command::INCVAL { amount } => {
                self.memory.insert(self.pos, cell.wrapping_add(amount));
                self.pc = self.pc + 1;
                Ok(None)
            },
            Command::DECVAL { amount } => {
                self.memory.insert(self.pos, cell.wrapping_sub(amount));
                self.pc = self.pc + 1;
                Ok(None)
            },
            Command::PUTC => {
                self.pc = self.pc + 1;
                Ok(Some(cell))
            },
            Command::GETC => {
                match input {
                    Input::Byte(b) => {
                        self.memory.insert(self.pos, b);
                        self.pc = self.pc + 1;
                        Ok(None)
                    },
                    Input::End => {
                        self.pc = self.pc + 1;
                        Ok(None)
                    },
                    Input::Failed => Err(Error::InputFailed),
                }
            },
            Command::LOOPSTART { end } => {
                if cell == 0 {
                    if end == usize::MAX {
                        return Err(Error::PcOverflow);
                    }
                    self.pc = end + 1;
                } else {
                    self.pc = self.pc + 1;
                }
                Ok(None)
            },
            Command::LOOPEND { start } => {
                self.pc = start;
                Ok(None)
            },
        }
    }
}

} // verus!
