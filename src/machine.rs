//! Execution: running an instruction tree against a byte tape.
use vstd::prelude::*;
use crate::tree::Instruction;

verus! {

/// Number of cells on the tape.
pub const TAPE_LEN: usize = 1024000;

/// Why a run stopped before the end of its program.
#[derive(Debug, Clone, Copy, PartialEq, Eq, Structural)]
pub enum Fault {
    /// A move would take the cursor below cell 0 or past the last cell.
    CursorOutOfBounds,
    /// An input instruction found no byte left to consume.
    InputExhausted,
    /// A loop was about to start one more pass than the step budget allows.
    StepLimit,
}

/// The bytes a run consumes and the bytes it emits.
pub struct Streams {
    /// Every byte the program may read, in order.
    pub input: Vec<u8>,
    /// How many bytes of `input` have been consumed.
    pub consumed: usize,
    /// Every byte emitted so far, in order.
    pub output: Vec<u8>,
}

impl Streams {
    /// Streams that will hand out `input` and have emitted nothing yet.
    pub fn new(input: Vec<u8>) -> (r: Streams)
        ensures
            r.input@ == input@,
            r.consumed == 0,
            r.output@ == Seq::<u8>::empty(),
    {
        Streams { input, consumed: 0, output: Vec::new() }
    }
}

/// The whole observable state of a run.
pub struct Machine {
    pub tape: Seq<u8>,
    pub cursor: int,
    pub consumed: int,
    pub output: Seq<u8>,
}

/// The effect of one instruction other than a loop; on a fault the state
/// is left as it was.
pub open spec fn step(ins: Instruction, input: Seq<u8>, m: Machine) -> (Machine, Result<(), Fault>) {
    match ins {
        Instruction::Forward => if m.cursor + 1 < m.tape.len() {
            (Machine { cursor: m.cursor + 1, ..m }, Ok(()))
        } else {
            (m, Err(Fault::CursorOutOfBounds))
        },
        Instruction::Backward => if m.cursor > 0 {
            (Machine { cursor: m.cursor - 1, ..m }, Ok(()))
        } else {
            (m, Err(Fault::CursorOutOfBounds))
        },
        Instruction::Increase => (
            Machine { tape: m.tape.update(m.cursor, ((m.tape[m.cursor] + 1) % 256) as u8), ..m },
            Ok(()),
        ),
        Instruction::Decrease => (
            Machine { tape: m.tape.update(m.cursor, ((m.tape[m.cursor] + 255) % 256) as u8), ..m },
            Ok(()),
        ),
        Instruction::Write => (Machine { output: m.output.push(m.tape[m.cursor]), ..m }, Ok(())),
        Instruction::Read => if 0 <= m.consumed < input.len() {
            (
                Machine {
                    tape: m.tape.update(m.cursor, input[m.consumed]),
                    consumed: m.consumed + 1,
                    ..m
                },
                Ok(()),
            )
        } else {
            (m, Err(Fault::InputExhausted))
        },
        Instruction::Loop(_) => (m, Ok(())),
    }
}

/// Runs `prog` from its `i`-th instruction on; each loop may start at most
/// `fuel` passes, and each pass gives its body one unit less.
pub open spec fn exec_from(
    prog: Seq<Instruction>,
    i: int,
    input: Seq<u8>,
    m: Machine,
    fuel: nat,
) -> (Machine, Result<(), Fault>)
    decreases fuel, prog.len() - i, 1int,
{
    if i < 0 || i >= prog.len() {
        (m, Ok(()))
    } else {
        let (m2, r) = match prog[i] {
            Instruction::Loop(body) => exec_loop(body@, input, m, fuel),
            _ => step(prog[i], input, m),
        };
        if r is Err {
            (m2, r)
        } else {
            exec_from(prog, i + 1, input, m2, fuel)
        }
    }
}

/// Runs a loop: while the cell under the cursor is nonzero, one more pass
/// of `body`, with one unit less of `fuel` each time.
pub open spec fn exec_loop(body: Seq<Instruction>, input: Seq<u8>, m: Machine, fuel: nat) -> (
    Machine,
    Result<(), Fault>,
)
    decreases fuel, 0int, 0int,
{
    if m.tape[m.cursor] == 0 {
        (m, Ok(()))
    } else if fuel == 0 {
        (m, Err(Fault::StepLimit))
    } else {
        let (m2, r) = exec_from(body, 0, input, m, (fuel - 1) as nat);
        if r is Err {
            (m2, r)
        } else {
            exec_loop(body, input, m2, (fuel - 1) as nat)
        }
    }
}

/// Runs a whole program.
pub open spec fn exec(prog: Seq<Instruction>, input: Seq<u8>, m: Machine, fuel: nat) -> (
    Machine,
    Result<(), Fault>,
) {
    exec_from(prog, 0, input, m, fuel)
}

/// A tape of bytes and a cursor into it.
pub struct Executor {
    tape: Vec<u8>,
    pointer: usize,
}

/// The state of a run: the executor's tape and cursor with the streams.
pub open spec fn machine_of(e: &Executor, io: &Streams) -> Machine {
    Machine {
        tape: e.tape_view(),
        cursor: e.cursor_view(),
        consumed: io.consumed as int,
        output: io.output@,
    }
}

impl Executor {
    pub closed spec fn tape_view(&self) -> Seq<u8> {
        self.tape@
    }

    pub closed spec fn cursor_view(&self) -> int {
        self.pointer as int
    }

    /// The tape has its fixed length and the cursor lies on it.
    pub open spec fn wf(&self) -> bool {
        &&& self.tape_view().len() == TAPE_LEN
        &&& 0 <= self.cursor_view() < TAPE_LEN
    }

    /// A zeroed tape with the cursor on its first cell.
    pub fn new() -> (r: Executor)
        ensures
            r.wf(),
            r.tape_view() == Seq::new(TAPE_LEN as nat, |i: int| 0u8),
            r.cursor_view() == 0,
    {
        let tape = vec![0u8; TAPE_LEN];
        let r = Executor { tape, pointer: 0 };
        assert(r.tape_view() =~= Seq::new(TAPE_LEN as nat, |i: int| 0u8));
        r
    }

    /// The cursor's position.
    pub fn cursor(&self) -> (r: usize)
        ensures
            r == self.cursor_view(),
    {
        self.pointer
    }

    /// The byte in cell `i`.
    pub fn cell(&self, i: usize) -> (r: u8)
        requires
            self.wf(),
            i < TAPE_LEN,
        ensures
            r == self.tape_view()[i as int],
    {
        self.tape[i]
    }

    /// One instruction other than a loop.
    fn apply(&mut self, ins: &Instruction, io: &mut Streams) -> (r: Result<(), Fault>)
        requires
            old(self).wf(),
            !(*ins is Loop),
        ensures
            final(self).wf(),
            final(io).input == old(io).input,
            (machine_of(final(self), final(io)), r) == step(
                *ins,
                old(io).input@,
                machine_of(old(self), old(io)),
            ),
    {
        let p = self.pointer;
        match ins {
            Instruction::Forward => {
                if p + 1 < self.tape.len() {
                    self.pointer = p + 1;
                    Ok(())
                } else {
                    Err(Fault::CursorOutOfBounds)
                }
            },
            Instruction::Backward => {
                if p > 0 {
                    self.pointer = p - 1;
                    Ok(())
                } else {
                    Err(Fault::CursorOutOfBounds)
                }
            },
            Instruction::Increase => {
                let v = self.tape[p];
                let w: u8 = if v == 255 { 0 } else { v + 1 };
                self.tape.set(p, w);
                Ok(())
            },
            Instruction::Decrease => {
                let v = self.tape[p];
                let w: u8 = if v == 0 { 255 } else { v - 1 };
                self.tape.set(p, w);
                Ok(())
            },
            Instruction::Write => {
                io.output.push(self.tape[p]);
                Ok(())
            },
            Instruction::Read => {
                if io.consumed < io.input.len() {
                    let b = io.input[io.consumed];
                    self.tape.set(p, b);
                    io.consumed = io.consumed + 1;
                    Ok(())
                } else {
                    Err(Fault::InputExhausted)
                }
            },
            Instruction::Loop(_) => Ok(()),
        }
    }

    /// Runs a loop with a budget of `fuel` passes.
    fn run_loop(&mut self, body: &Vec<Instruction>, io: &mut Streams, fuel: u64) -> (r: Result<
        (),
        Fault,
    >)
        requires
            old(self).wf(),
        ensures
            final(self).wf(),
            final(io).input == old(io).input,
            (machine_of(final(self), final(io)), r) == exec_loop(
                body@,
                old(io).input@,
                machine_of(old(self), old(io)),
                fuel as nat,
            ),
        decreases fuel, 0int,
    {
        let ghost start = machine_of(self, io);
        let ghost input = io.input@;
        let mut f = fuel;
        while self.tape[self.pointer] != 0
            invariant
                self.wf(),
                io.input == old(io).input,
                input == io.input@,
                start == machine_of(old(self), old(io)),
                f <= fuel,
                exec_loop(body@, input, start, fuel as nat) == exec_loop(
                    body@,
                    input,
                    machine_of(self, io),
                    f as nat,
                ),
            decreases f,
        {
            if f == 0 {
                return Err(Fault::StepLimit);
            }
            f = f - 1;
            let r = self.run(body, io, f);
            if r.is_err() {
                return r;
            }
        }
        Ok(())
    }

    /// Runs `opcodes` against the tape, reading from and writing to `io`.
    /// Each loop may start at most `fuel` passes, its body one unit less
    /// each time. Stops at the first fault and reports it.
    pub fn run(&mut self, opcodes: &Vec<Instruction>, io: &mut Streams, fuel: u64) -> (r: Result<
        (),
        Fault,
    >)
        requires
            old(self).wf(),
        ensures
            final(self).wf(),
            final(io).input == old(io).input,
            (machine_of(final(self), final(io)), r) == exec(
                opcodes@,
                old(io).input@,
                machine_of(old(self), old(io)),
                fuel as nat,
            ),
        decreases fuel, 1int,
    {
        let ghost start = machine_of(self, io);
        let ghost input = io.input@;
        let mut i: usize = 0;
        while i < opcodes.len()
            invariant
                i <= opcodes.len(),
                self.wf(),
                io.input == old(io).input,
                input == io.input@,
                start == machine_of(old(self), old(io)),
                exec(opcodes@, input, start, fuel as nat) == exec_from(
                    opcodes@,
                    i as int,
                    input,
                    machine_of(self, io),
                    fuel as nat,
                ),
            decreases opcodes.len() - i,
        {
            let r = match &opcodes[i] {
                Instruction::Loop(body) => self.run_loop(body, io, fuel),
                other => self.apply(other, io),
            };
            if r.is_err() {
                return r;
            }
            i = i + 1;
        }
        Ok(())
    }
}

/// Moving off either end of the tape is a fault, reported at once with the
/// state left as it was: the cursor is never clamped or wrapped.
pub proof fn law_cursor_stays_on_tape(input: Seq<u8>, m: Machine, fuel: nat)
    requires
        0 <= m.cursor < m.tape.len(),
    ensures
        m.cursor == 0 ==> exec(seq![Instruction::Backward], input, m, fuel) == (
            m,
            Err::<(), Fault>(Fault::CursorOutOfBounds),
        ),
        m.cursor == m.tape.len() - 1 ==> exec(seq![Instruction::Forward], input, m, fuel) == (
            m,
            Err::<(), Fault>(Fault::CursorOutOfBounds),
        ),
{
}

/// Cells wrap modulo 256: incrementing 255 gives 0 and decrementing 0
/// gives 255, the cursor and the streams untouched.
pub proof fn law_cells_wrap(input: Seq<u8>, m: Machine, fuel: nat)
    requires
        0 <= m.cursor < m.tape.len(),
    ensures
        m.tape[m.cursor] == 255 ==> exec(seq![Instruction::Increase], input, m, fuel) == (
            Machine { tape: m.tape.update(m.cursor, 0), ..m },
            Ok::<(), Fault>(()),
        ),
        m.tape[m.cursor] == 0 ==> exec(seq![Instruction::Decrease], input, m, fuel) == (
            Machine { tape: m.tape.update(m.cursor, 255), ..m },
            Ok::<(), Fault>(()),
        ),
{
    reveal_with_fuel(exec_from, 2);
}

} // verus!
