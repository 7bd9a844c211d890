//! Interpreter over the IR, with a tape that grows on demand in both
//! directions.
use vstd::prelude::*;
use crate::ir::{Instruction, Program};

verus! {

/// Growth granularity of the tape, in cells.
pub const CHUNK_SIZE: usize = 8192;

/// Why the machine could not go on.
#[derive(Debug, Clone, Copy, PartialEq, Eq, Structural)]
pub enum ControlError {
    /// The instruction pointer left the program.
    BadLabel(usize),
    /// The tape could not grow any further.
    TapeExhausted,
}

/// The cells of a tape seen from its first cell: cell `k` of the logically
/// infinite tape, with every cell that was never stored being zero.
pub type Cells = spec_fn(int) -> u8;

/// `cells` with cell `at` set to `value`.
pub open spec fn store(cells: Cells, at: int, value: u8) -> Cells {
    |k: int| if k == at { value } else { cells(k) }
}

/// The value of a cell after `+`.
pub open spec fn inc_cell(v: u8) -> u8 {
    (if v == 255 { 0 } else { v + 1 }) as u8
}

/// The value of a cell after `-`.
pub open spec fn dec_cell(v: u8) -> u8 {
    (if v == 0 { 255 } else { v - 1 }) as u8
}

/// The value of a zero cell after `n` instances of `+`.
pub open spec fn incremented(n: nat) -> u8
    decreases n,
{
    if n == 0 {
        0
    } else {
        inc_cell(incremented((n - 1) as nat))
    }
}

/// After `n` instances of `+` on a zero cell, the cell holds `n mod 256`; and
/// `-` then `+ +` on a zero cell leaves 1.
pub proof fn lemma_cell_arithmetic(n: nat)
    ensures
        incremented(n) == n % 256,
        inc_cell(inc_cell(dec_cell(0))) == 1,
    decreases n,
{
    if n > 0 {
        lemma_cell_arithmetic((n - 1) as nat);
    }
}

/// A move of the cursor: `true` for `>`, `false` for `<`.
pub type Move = bool;

/// The cursor position after `moves`, from `head`.
pub open spec fn head_after(head: int, moves: Seq<Move>) -> int
    decreases moves.len(),
{
    if moves.len() == 0 {
        head
    } else {
        head_after(head, moves.drop_last()) + if moves.last() { 1int } else { -1int }
    }
}

/// A tape as its contracts see it: the cursor position and the cells.
pub type TapeState = (int, Cells);

/// The tape after `moves`, as `Tape::next` and `Tape::prev` leave it: the
/// cursor moved, every cell as it was, at any distance from the start.
pub open spec fn tape_after(start: TapeState, moves: Seq<Move>) -> TapeState {
    (head_after(start.0, moves), start.1)
}

/// Wherever a sequence of `>` and `<` takes the cursor on a blank tape, the
/// cell under it is zero.
pub proof fn lemma_moves_find_zero(start: TapeState, moves: Seq<Move>)
    requires
        forall|k: int| #[trigger] (start.1)(k) == 0,
    ensures
        (tape_after(start, moves).1)(tape_after(start, moves).0) == 0,
{
}

/// The input convention: after a byte, the cell under the cursor holds 1 and
/// the next one holds the byte; at the end of input the cell holds 0. The
/// cursor stays, and no other cell changes.
pub proof fn lemma_input_convention(cells: Cells, head: int, byte: u8)
    ensures
        input_cells(cells, head, Some(byte))(head) == 1,
        input_cells(cells, head, Some(byte))(head + 1) == byte,
        input_cells(cells, head, None)(head) == 0,
        forall|k: int| k != head && k != head + 1 ==> #[trigger] input_cells(cells, head, Some(byte))(k) == cells(k),
        forall|k: int| k != head ==> #[trigger] input_cells(cells, head, None)(k) == cells(k),
{
}

/// A tape allocated for the interpreter. Its buffer covers a window of the
/// logically infinite tape and grows by a chunk whenever the cursor would
/// leave it.
pub struct Tape {
    cells: Vec<u8>,
    cursor: usize,
    /// Index in `cells` of the first cell of the logical tape.
    origin: Ghost<int>,
}

impl Tape {
    /// The cursor stands inside the buffer.
    pub closed spec fn wf(&self) -> bool {
        self.cursor < self.cells.len()
    }

    /// Position of the cursor on the logical tape, the first cell being 0.
    pub closed spec fn head(&self) -> int {
        self.cursor - self.origin@
    }

    /// Value of cell `k` of the logical tape.
    pub closed spec fn cell(&self, k: int) -> u8 {
        let at = self.origin@ + k;
        if 0 <= at < self.cells.len() {
            self.cells@[at]
        } else {
            0
        }
    }

    /// Every cell of the logical tape.
    pub open spec fn cells(&self) -> Cells {
        |k: int| self.cell(k)
    }

    /// Number of cells the buffer holds now.
    pub closed spec fn buffer_len(&self) -> nat {
        self.cells.len() as nat
    }

    /// There is room to grow the buffer by one more chunk.
    pub open spec fn has_room(&self) -> bool {
        self.buffer_len() + CHUNK_SIZE <= usize::MAX
    }

    /// A blank tape: every cell zero, the cursor on the first cell.
    pub fn new() -> (r: Tape)
        ensures
            r.wf(),
            r.head() == 0,
            r.buffer_len() == CHUNK_SIZE,
            forall|k: int| r.cell(k) == 0,
    {
        let cells: Vec<u8> = vec![0; CHUNK_SIZE];
        let r = Tape { cells, cursor: 0, origin: Ghost(0) };
        assert forall|k: int| r.cell(k) == 0 by {
            if 0 <= k < CHUNK_SIZE {
                assert(cloned::<u8>(0, r.cells@[k]));
            }
        }
        r
    }

    /// Whether the buffer can grow by one more chunk.
    pub fn can_grow(&self) -> (r: bool)
        ensures
            r == self.has_room(),
    {
        self.cells.len() <= usize::MAX - CHUNK_SIZE
    }

    /// Adds one to the current cell, wrapping from 255 to 0.
    pub fn inc(&mut self)
        requires
            old(self).wf(),
        ensures
            final(self).wf(),
            final(self).head() == old(self).head(),
            final(self).cells() =~= store(old(self).cells(), old(self).head(), inc_cell(old(self).cell(old(self).head()))),
            forall|k: int| #[trigger] final(self).cell(k) == if k == old(self).head() { inc_cell(old(self).cell(k)) } else { old(self).cell(k) },
            final(self).buffer_len() == old(self).buffer_len(),
    {
        let v = self.cells[self.cursor];
        let w = if v == 255 { 0 } else { v + 1 };
        self.cells.set(self.cursor, w);
    }

    /// Subtracts one from the current cell, wrapping from 0 to 255.
    pub fn dec(&mut self)
        requires
            old(self).wf(),
        ensures
            final(self).wf(),
            final(self).head() == old(self).head(),
            final(self).cells() =~= store(old(self).cells(), old(self).head(), dec_cell(old(self).cell(old(self).head()))),
            forall|k: int| #[trigger] final(self).cell(k) == if k == old(self).head() { dec_cell(old(self).cell(k)) } else { old(self).cell(k) },
            final(self).buffer_len() == old(self).buffer_len(),
    {
        let v = self.cells[self.cursor];
        let w = if v == 0 { 255 } else { v - 1 };
        self.cells.set(self.cursor, w);
    }

    /// Grows the buffer by a chunk forwards.
    fn grow_next(&mut self)
        requires
            old(self).wf(),
            old(self).has_room(),
        ensures
            final(self).wf(),
            final(self).head() == old(self).head(),
            final(self).cells() =~= old(self).cells(),
            final(self).buffer_len() == old(self).buffer_len() + CHUNK_SIZE,
            final(self).cursor == old(self).cursor,
            forall|k: int| #[trigger] final(self).cell(k) == old(self).cell(k),
    {
        let new_len = self.cells.len() + CHUNK_SIZE;
        self.cells.resize(new_len, 0);
        proof {
            assert forall|k: int| self.cell(k) == old(self).cell(k) by {
                let at = self.origin@ + k;
                if old(self).cells.len() <= at < new_len {
                    assert(cloned::<u8>(0, self.cells@[at]));
                } else if 0 <= at < old(self).cells.len() {
                    assert(self.cells@[at] == self.cells@.subrange(0, old(self).cells.len() as int)[at]);
                }
            }
        }
    }

    /// Grows the buffer by a chunk backwards; the cursor keeps its cell.
    fn grow_prev(&mut self)
        requires
            old(self).wf(),
            old(self).has_room(),
        ensures
            final(self).wf(),
            final(self).head() == old(self).head(),
            final(self).cells() =~= old(self).cells(),
            final(self).buffer_len() == old(self).buffer_len() + CHUNK_SIZE,
            final(self).cursor == old(self).cursor + CHUNK_SIZE,
            forall|k: int| #[trigger] final(self).cell(k) == old(self).cell(k),
    {
        let mut grown: Vec<u8> = vec![0; CHUNK_SIZE];
        proof {
            assert forall|j: int| 0 <= j < CHUNK_SIZE implies grown@[j] == 0 by {
                assert(cloned::<u8>(0, grown@[j]));
            }
        }
        let mut i: usize = 0;
        while i < self.cells.len()
            invariant
                i <= self.cells.len(),
                self.cells == old(self).cells,
                self.cells.len() + CHUNK_SIZE <= usize::MAX,
                grown@.len() == CHUNK_SIZE + i,
                forall|j: int| 0 <= j < CHUNK_SIZE ==> grown@[j] == 0,
                forall|j: int| 0 <= j < i ==> grown@[CHUNK_SIZE + j] == self.cells@[j],
            decreases self.cells.len() - i,
        {
            grown.push(self.cells[i]);
            i = i + 1;
        }
        let ghost old_origin = self.origin@;
        self.cells = grown;
        self.cursor = self.cursor + CHUNK_SIZE;
        self.origin = Ghost(old_origin + CHUNK_SIZE);
    }

    /// Moves the cursor one cell forwards, growing the buffer at its end.
    pub fn next(&mut self)
        requires
            old(self).wf(),
            old(self).has_room(),
        ensures
            final(self).wf(),
            final(self).head() == old(self).head() + 1,
            final(self).cells() =~= old(self).cells(),
            forall|k: int| #[trigger] final(self).cell(k) == old(self).cell(k),
            final(self).buffer_len() <= old(self).buffer_len() + CHUNK_SIZE,
    {
        if self.cursor + 1 >= self.cells.len() {
            self.grow_next();
        }
        let ghost grown = *self;
        self.cursor = self.cursor + 1;
        assert forall|k: int| #[trigger] self.cell(k) == old(self).cell(k) by {
            assert(self.cell(k) == grown.cell(k));
        }
    }

    /// Moves the cursor one cell backwards, growing the buffer at its start.
    pub fn prev(&mut self)
        requires
            old(self).wf(),
            old(self).has_room(),
        ensures
            final(self).wf(),
            final(self).head() == old(self).head() - 1,
            final(self).cells() =~= old(self).cells(),
            forall|k: int| #[trigger] final(self).cell(k) == old(self).cell(k),
            final(self).buffer_len() <= old(self).buffer_len() + CHUNK_SIZE,
    {
        if self.cursor == 0 {
            self.grow_prev();
        }
        let ghost grown = *self;
        self.cursor = self.cursor - 1;
        assert forall|k: int| #[trigger] self.cell(k) == old(self).cell(k) by {
            assert(self.cell(k) == grown.cell(k));
        }
    }

    /// Stores the outcome of a read: after a byte, the current cell is 1 and
    /// the next one holds the byte; at the end of input the current cell is 0.
    pub fn input(&mut self, result: Option<u8>)
        requires
            old(self).wf(),
            old(self).has_room(),
        ensures
            final(self).wf(),
            final(self).head() == old(self).head(),
            final(self).cells() =~= match result {
                Some(byte) => store(store(old(self).cells(), old(self).head(), 1), old(self).head() + 1, byte),
                None => store(old(self).cells(), old(self).head(), 0),
            },
            final(self).buffer_len() <= old(self).buffer_len() + CHUNK_SIZE,
            forall|k: int| #[trigger] final(self).cell(k) == input_cells(old(self).cells(), old(self).head(), result)(k),
    {
        match result {
            Some(byte) => {
                self.cells.set(self.cursor, 1);
                let ghost flagged = self.cells();
                if self.cursor + 1 >= self.cells.len() {
                    self.grow_next();
                }
                self.cells.set(self.cursor + 1, byte);
                assert(self.cells() =~= store(flagged, old(self).head() + 1, byte));
            },
            None => {
                self.cells.set(self.cursor, 0);
            },
        }
        proof {
            let expected = input_cells(old(self).cells(), old(self).head(), result);
            assert forall|k: int| #[trigger] self.cell(k) == expected(k) by {
                assert(self.cells()(k) == self.cell(k));
            }
        }
    }

    /// The current cell.
    pub fn output(&self) -> (r: u8)
        requires
            self.wf(),
        ensures
            r == self.cell(self.head()),
    {
        self.cells[self.cursor]
    }

    /// Whether the current cell is zero.
    pub fn is_zero(&self) -> (r: bool)
        requires
            self.wf(),
        ensures
            r == (self.cell(self.head()) == 0),
    {
        self.cells[self.cursor] == 0
    }
}

/// `cells` after a read at `head`: a byte stores the record `1, byte` from
/// `head` on; the end of input stores `0` at `head`.
pub open spec fn input_cells(cells: Cells, head: int, result: Option<u8>) -> Cells {
    match result {
        Some(byte) => store(store(cells, head, 1), head + 1, byte),
        None => store(cells, head, 0),
    }
}

/// A machine configuration: the instruction pointer, the position of the
/// cursor on the logical tape, and the cells.
pub type Config = (int, int, Cells);

/// The configuration after executing the instruction at the instruction
/// pointer of `c`, which stands inside `code`. A `Get` only moves past
/// itself here: what it reads is stored by `input_cells`.
pub open spec fn step_spec(code: Seq<Instruction>, c: Config) -> Config {
    let (ip, head, cells) = c;
    match code[ip] {
        Instruction::Inc => (ip + 1, head, store(cells, head, inc_cell(cells(head)))),
        Instruction::Dec => (ip + 1, head, store(cells, head, dec_cell(cells(head)))),
        Instruction::Next => (ip + 1, head + 1, cells),
        Instruction::Prev => (ip + 1, head - 1, cells),
        Instruction::Jz(t) => (if cells(head) == 0 { t as int } else { ip + 1 }, head, cells),
        Instruction::Jnz(t) => (if cells(head) != 0 { t as int } else { ip + 1 }, head, cells),
        _ => (ip + 1, head, cells),
    }
}

/// What the step from `c` asks of the world around the machine.
pub open spec fn step_request(code: Seq<Instruction>, c: Config) -> Step {
    match code[c.0] {
        Instruction::Halt => Step::Halted,
        Instruction::Get => Step::Input,
        Instruction::Put => Step::Output((c.2)(c.1)),
        _ => Step::Running,
    }
}

/// `r` with `out` written before its output.
pub open spec fn after_output(out: Seq<u8>, r: Result<(Seq<u8>, bool), ControlError>) -> Result<(Seq<u8>, bool), ControlError> {
    match r {
        Ok((more, halted)) => Ok((out + more, halted)),
        Err(e) => Err(e),
    }
}

/// Runs `code` from `c` for at most `fuel` steps with `input` to read: the
/// bytes written, and whether `Halt` was reached; or the first error.
pub open spec fn run_spec(code: Seq<Instruction>, c: Config, input: Seq<u8>, fuel: nat) -> Result<(Seq<u8>, bool), ControlError>
    decreases fuel,
{
    if fuel == 0 {
        Ok((Seq::empty(), false))
    } else if !(0 <= c.0 < code.len()) {
        Err(ControlError::BadLabel(c.0 as usize))
    } else {
        let next = step_spec(code, c);
        match code[c.0] {
            Instruction::Halt => Ok((Seq::empty(), true)),
            Instruction::Get => if input.len() > 0 {
                run_spec(code, (next.0, next.1, input_cells(next.2, next.1, Some(input[0]))), input.drop_first(), (fuel - 1) as nat)
            } else {
                run_spec(code, (next.0, next.1, input_cells(next.2, next.1, None)), input, (fuel - 1) as nat)
            },
            Instruction::Put => after_output(seq![(c.2)(c.1)], run_spec(code, next, input, (fuel - 1) as nat)),
            _ => run_spec(code, next, input, (fuel - 1) as nat),
        }
    }
}

/// What one step of the machine asks of the world around it.
#[derive(Debug, Clone, Copy, PartialEq, Eq, Structural)]
pub enum Step {
    /// `Halt` was reached.
    Halted,
    /// The step needed nothing from outside.
    Running,
    /// The byte is to be written to the output.
    Output(u8),
    /// A byte is to be read and handed to `Machine::feed`.
    Input,
}

/// The program and the instruction pointer.
#[derive(Debug, Clone)]
pub struct Control {
    program: Program,
    ip: usize,
}

impl Control {
    /// The instructions being run.
    pub closed spec fn code(&self) -> Seq<Instruction> {
        self.program.code@
    }

    /// Index of the next instruction.
    pub closed spec fn ip(&self) -> int {
        self.ip as int
    }

    /// Control at the first instruction of `program`.
    pub fn new(program: Program) -> (r: Control)
        ensures
            r.code() == program.code@,
            r.ip() == 0,
    {
        Control { program, ip: 0 }
    }

    /// The instruction at the instruction pointer, which then moves past it.
    pub fn fetch(&mut self) -> (r: Result<Instruction, ControlError>)
        ensures
            final(self).code() == old(self).code(),
            old(self).ip() < old(self).code().len() ==> r == Ok::<Instruction, ControlError>(old(self).code()[old(self).ip()])
                && final(self).ip() == old(self).ip() + 1,
            old(self).ip() >= old(self).code().len() ==> r == Err::<Instruction, ControlError>(ControlError::BadLabel(old(self).ip() as usize))
                && final(self).ip() == old(self).ip(),
    {
        if self.ip >= self.program.code.len() {
            return Err(ControlError::BadLabel(self.ip));
        }
        let instruction = self.program.code[self.ip];
        self.ip = self.ip + 1;
        Ok(instruction)
    }

    /// Sets the instruction pointer to `label`.
    pub fn jump(&mut self, label: usize)
        ensures
            final(self).code() == old(self).code(),
            final(self).ip() == label,
    {
        self.ip = label;
    }
}

/// What `run` saw: the bytes written, and whether `Halt` was reached before
/// the steps ran out.
#[derive(Debug, Clone, PartialEq, Eq)]
pub struct Outcome {
    pub output: Vec<u8>,
    pub halted: bool,
}

/// The interpreter: a program under control, and a tape.
pub struct Machine {
    control: Control,
    tape: Tape,
}

impl Machine {
    /// The tape is well formed.
    pub closed spec fn wf(&self) -> bool {
        self.tape.wf()
    }

    /// The instructions being run.
    pub closed spec fn code(&self) -> Seq<Instruction> {
        self.control.code()
    }

    /// The current configuration.
    pub closed spec fn config(&self) -> Config {
        (self.control.ip(), self.tape.head(), self.tape.cells())
    }

    /// Number of cells the tape's buffer holds now.
    pub closed spec fn buffer_len(&self) -> nat {
        self.tape.buffer_len()
    }

    /// The tape could still grow by a chunk.
    pub open spec fn has_room(&self) -> bool {
        self.buffer_len() + CHUNK_SIZE <= usize::MAX
    }

    /// A machine about to run `program` from its first instruction on `tape`.
    pub fn new(program: Program, tape: Tape) -> (r: Machine)
        requires
            tape.wf(),
        ensures
            r.wf(),
            r.code() == program.code@,
            r.config() == (0int, tape.head(), tape.cells()),
            r.buffer_len() == tape.buffer_len(),
    {
        Machine { control: Control::new(program), tape }
    }

    /// Executes one instruction. A `Put` hands back the byte to write; a
    /// `Get` asks for the outcome of a read, to be handed to `feed`.
    pub fn step(&mut self) -> (r: Result<Step, ControlError>)
        requires
            old(self).wf(),
        ensures
            final(self).wf(),
            final(self).code() == old(self).code(),
            old(self).config().0 >= old(self).code().len() ==> r == Err::<Step, ControlError>(
                ControlError::BadLabel(old(self).config().0 as usize),
            ) && final(self).config() == old(self).config(),
            old(self).config().0 < old(self).code().len() && r != Err::<Step, ControlError>(ControlError::TapeExhausted) ==> r == Ok::<Step, ControlError>(
                step_request(old(self).code(), old(self).config()),
            ) && final(self).config() == step_spec(old(self).code(), old(self).config()),
            r == Err::<Step, ControlError>(ControlError::TapeExhausted) <==> old(self).config().0 < old(self).code().len()
                && (old(self).code()[old(self).config().0] is Next || old(self).code()[old(self).config().0] is Prev)
                && !old(self).has_room(),
            final(self).buffer_len() <= old(self).buffer_len() + CHUNK_SIZE,
            r == Ok::<Step, ControlError>(Step::Input) ==> final(self).buffer_len() == old(self).buffer_len(),
    {
        let instruction = match self.control.fetch() {
            Ok(instruction) => instruction,
            Err(e) => {
                return Err(e);
            },
        };
        match instruction {
            Instruction::Halt => {
                return Ok(Step::Halted);
            },
            Instruction::Inc => self.tape.inc(),
            Instruction::Dec => self.tape.dec(),
            Instruction::Next => {
                if !self.tape.can_grow() {
                    return Err(ControlError::TapeExhausted);
                }
                self.tape.next();
            },
            Instruction::Prev => {
                if !self.tape.can_grow() {
                    return Err(ControlError::TapeExhausted);
                }
                self.tape.prev();
            },
            Instruction::Get => {
                return Ok(Step::Input);
            },
            Instruction::Put => {
                return Ok(Step::Output(self.tape.output()));
            },
            Instruction::Jz(label) => {
                if self.tape.is_zero() {
                    self.control.jump(label);
                }
            },
            Instruction::Jnz(label) => {
                if !self.tape.is_zero() {
                    self.control.jump(label);
                }
            },
        }
        Ok(Step::Running)
    }

    /// Stores the outcome of the read that a `Get` asked for, by the input
    /// convention of `Tape::input`.
    pub fn feed(&mut self, input: Option<u8>) -> (r: Result<(), ControlError>)
        requires
            old(self).wf(),
        ensures
            final(self).wf(),
            final(self).code() == old(self).code(),
            r is Ok <==> old(self).has_room(),
            r is Ok ==> final(self).config() == (old(self).config().0, old(self).config().1,
                input_cells(old(self).config().2, old(self).config().1, input)),
            r is Err ==> r == Err::<(), ControlError>(ControlError::TapeExhausted) && final(self).config() == old(self).config(),
            final(self).buffer_len() <= old(self).buffer_len() + CHUNK_SIZE,
    {
        if !self.tape.can_grow() {
            return Err(ControlError::TapeExhausted);
        }
        self.tape.input(input);
        Ok(())
    }

    /// Runs for at most `max_steps` steps, reading from `input` (its end is
    /// the end of input) and collecting what is written.
    pub fn run(self, input: &[u8], max_steps: usize) -> (r: Result<Outcome, ControlError>)
        requires
            self.wf(),
        ensures
            r != Err::<Outcome, ControlError>(ControlError::TapeExhausted) ==> run_spec(self.code(), self.config(), input@, max_steps as nat) == match r {
                Ok(o) => Ok((o.output@, o.halted)),
                Err(e) => Err(e),
            },
            r == Err::<Outcome, ControlError>(ControlError::TapeExhausted) ==> self.buffer_len() + max_steps * CHUNK_SIZE > usize::MAX,
    {
        let mut machine = self;
        let mut output: Vec<u8> = Vec::new();
        let mut pos: usize = 0;
        let mut left: usize = max_steps;
        proof {
            assert(input@.subrange(0, input@.len() as int) =~= input@);
            let all = run_spec(self.code(), self.config(), input@, max_steps as nat);
            match all {
                Ok((more, h)) => {
                    assert(output@ + more =~= more);
                },
                Err(_) => {},
            }
        }
        while left > 0
            invariant
                machine.wf(),
                machine.code() == self.code(),
                left <= max_steps,
                machine.buffer_len() <= self.buffer_len() + (max_steps - left) * CHUNK_SIZE,
                pos <= input@.len(),
                run_spec(self.code(), self.config(), input@, max_steps as nat) == after_output(output@,
                    run_spec(machine.code(), machine.config(), input@.subrange(pos as int, input@.len() as int), left as nat)),
            decreases left,
        {
            let ghost rest = input@.subrange(pos as int, input@.len() as int);
            let stepped = machine.step();
            match stepped {
                Err(e) => {
                    return Err(e);
                },
                Ok(Step::Halted) => {
                    assert(output@ + Seq::<u8>::empty() == output@);
                    return Ok(Outcome { output, halted: true });
                },
                Ok(Step::Running) => {},
                Ok(Step::Output(byte)) => {
                    proof {
                        let tail = run_spec(machine.code(), machine.config(), rest, (left - 1) as nat);
                        assert(after_output(output@, after_output(seq![byte], tail)) == after_output(output@.push(byte), tail)) by {
                            assert(output@ + seq![byte] =~= output@.push(byte));
                            match tail {
                                Ok((more, h)) => {
                                    assert(output@ + (seq![byte] + more) =~= output@.push(byte) + more);
                                },
                                Err(_) => {},
                            }
                        }
                    }
                    output.push(byte);
                },
                Ok(Step::Input) => {
                    let result = if pos < input.len() {
                        Some(input[pos])
                    } else {
                        None
                    };
                    match machine.feed(result) {
                        Err(e) => {
                            return Err(e);
                        },
                        Ok(()) => {},
                    }
                    if pos < input.len() {
                        pos = pos + 1;
                        assert(input@.subrange(pos as int, input@.len() as int) =~= rest.drop_first());
                    }
                },
            }
            left = left - 1;
        }
        proof {
            assert(output@ + Seq::<u8>::empty() =~= output@);
        }
        Ok(Outcome { output, halted: false })
    }
}

} // verus!
