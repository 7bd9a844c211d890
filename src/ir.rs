//! Intermediate representation (IR) of programs, and the parser that lowers
//! source text into it.
use vstd::prelude::*;
use crate::source::{location_after, Location, Source};

verus! {

/// Why source text could not be lowered into a program.
#[derive(Debug, Clone, Copy, PartialEq, Eq, Structural)]
pub enum ParseError {
    /// A `[` with no matching `]`, written at the given location.
    UnmatchedLoopOpen(Location),
    /// A `]` with no matching `[`, written at the given location.
    UnmatchedLoopClose(Location),
}

#[derive(Debug, Clone, Copy, PartialEq, Eq, Structural, PartialOrd, Ord, Hash)]
pub enum Instruction {
    /// Inserted when a program reaches its end.
    Halt,
    /// Inserted when a `+` is found. Increments the cell.
    Inc,
    /// Inserted when a `-` is found. Decrements the cell.
    Dec,
    /// Inserted when a `>` is found. Advances the tape.
    Next,
    /// Inserted when a `<` is found. Retracts the tape.
    Prev,
    /// Inserted when a `,` is found. Gets a byte from the input.
    Get,
    /// Inserted when a `.` is found. Puts a byte into the output.
    Put,
    /// Jumps to the given absolute instruction index when the current cell is
    /// zero. Equivalent to `[`.
    Jz(usize),
    /// Jumps to the given absolute instruction index when the current cell is
    /// not zero. Equivalent to `]`.
    Jnz(usize),
}

/// The byte `+`.
pub const CMD_INC: u8 = 0x2b;
/// The byte `-`.
pub const CMD_DEC: u8 = 0x2d;
/// The byte `>`.
pub const CMD_NEXT: u8 = 0x3e;
/// The byte `<`.
pub const CMD_PREV: u8 = 0x3c;
/// The byte `,`.
pub const CMD_GET: u8 = 0x2c;
/// The byte `.`.
pub const CMD_PUT: u8 = 0x2e;
/// The byte `[`.
pub const CMD_OPEN: u8 = 0x5b;
/// The byte `]`.
pub const CMD_CLOSE: u8 = 0x5d;

/// A complete program in the IR format.
#[derive(Debug, Clone, PartialEq, Eq, Hash)]
pub struct Program {
    /// Serial list of instructions.
    pub code: Vec<Instruction>,
}

/// The instruction that a command byte lowers to, for the six bytes that are
/// not brackets.
pub open spec fn simple_instruction(byte: u8) -> Option<Instruction> {
    if byte == CMD_INC {
        Some(Instruction::Inc)
    } else if byte == CMD_DEC {
        Some(Instruction::Dec)
    } else if byte == CMD_NEXT {
        Some(Instruction::Next)
    } else if byte == CMD_PREV {
        Some(Instruction::Prev)
    } else if byte == CMD_GET {
        Some(Instruction::Get)
    } else if byte == CMD_PUT {
        Some(Instruction::Put)
    } else {
        None
    }
}

/// Whether `byte` is one of the eight commands; every other byte is a
/// comment.
pub open spec fn is_command(byte: u8) -> bool {
    simple_instruction(byte) is Some || byte == CMD_OPEN || byte == CMD_CLOSE
}

/// Number of command bytes in `bytes`.
pub open spec fn command_count(bytes: Seq<u8>) -> nat
    decreases bytes.len(),
{
    if bytes.len() == 0 {
        0
    } else {
        command_count(bytes.drop_last()) + if is_command(bytes.last()) { 1nat } else { 0nat }
    }
}

/// Commands are counted piece by piece.
pub proof fn lemma_command_count_concat(a: Seq<u8>, b: Seq<u8>)
    ensures
        command_count(a + b) == command_count(a) + command_count(b),
    decreases b.len(),
{
    if b.len() == 0 {
        assert(a + b =~= a);
    } else {
        lemma_command_count_concat(a, b.drop_last());
        assert((a + b).drop_last() =~= a + b.drop_last());
    }
}

/// Code lowered so far, with the stack of loops still open: the index of each
/// open `Jz` placeholder and the location of its `[`.
pub type Lowered = (Seq<Instruction>, Seq<(usize, Location)>);

/// Lowers one byte read at `location`: a command appends its instruction, `[`
/// opens a loop with a `Jz(0)` placeholder, `]` closes the innermost loop and
/// patches its placeholder, and any other byte is a comment.
pub open spec fn lower_byte(state: Lowered, byte: u8, location: Location) -> Result<Lowered, ParseError> {
    let (code, opens) = state;
    if simple_instruction(byte) is Some {
        Ok((code.push(simple_instruction(byte)->Some_0), opens))
    } else if byte == CMD_OPEN {
        Ok((code.push(Instruction::Jz(0)), opens.push((code.len() as usize, location))))
    } else if byte == CMD_CLOSE {
        if opens.len() == 0 {
            Err(ParseError::UnmatchedLoopClose(location))
        } else {
            let open = opens.last().0;
            Ok((
                code.push(Instruction::Jnz((open + 1) as usize)).update(
                    open as int,
                    Instruction::Jz((code.len() + 1) as usize),
                ),
                opens.drop_last(),
            ))
        }
    } else {
        Ok(state)
    }
}

/// Lowers the bytes of `bytes`, the first of which stands at `start`.
pub open spec fn lower(start: Location, bytes: Seq<u8>) -> Result<Lowered, ParseError>
    decreases bytes.len(),
{
    if bytes.len() == 0 {
        Ok((Seq::empty(), Seq::empty()))
    } else {
        match lower(start, bytes.drop_last()) {
            Err(e) => Err(e),
            Ok(state) => lower_byte(state, bytes.last(), location_after(start, bytes.drop_last())),
        }
    }
}

/// The program text `bytes`, whose first byte stands at `start`, lowers to:
/// an error at the first unmatched `]`, else an error at the first `[` left
/// open, else the lowered code followed by `Halt`.
pub open spec fn parse_spec(start: Location, bytes: Seq<u8>) -> Result<Seq<Instruction>, ParseError> {
    match lower(start, bytes) {
        Err(e) => Err(e),
        Ok((code, opens)) => if opens.len() > 0 {
            Err(ParseError::UnmatchedLoopOpen(opens[0].1))
        } else {
            Ok(code.push(Instruction::Halt))
        },
    }
}

/// Every jump lands right after its partner: a `Jz` at `i` targets `t` where
/// `t - 1` holds the `Jnz` back to `i + 1`, and symmetrically.
pub open spec fn jumps_balanced(code: Seq<Instruction>) -> bool {
    forall|i: int|
        0 <= i < code.len() ==> match #[trigger] code[i] {
            Instruction::Jz(t) => 1 <= t < code.len() && code[t - 1] == Instruction::Jnz((i + 1) as usize),
            Instruction::Jnz(t) => 1 <= t < code.len() && code[t - 1] == Instruction::Jz((i + 1) as usize),
            _ => true,
        }
}

/// A program as the parser produces it: it ends with `Halt` and its jumps
/// are balanced.
pub open spec fn well_formed(code: Seq<Instruction>) -> bool {
    &&& code.len() > 0
    &&& code.last() == Instruction::Halt
    &&& jumps_balanced(code)
}

/// Once lowering has failed, reading more bytes keeps the same error.
pub proof fn lemma_lower_error_persists(start: Location, bytes: Seq<u8>, more: Seq<u8>)
    requires
        lower(start, bytes) is Err,
    ensures
        lower(start, bytes + more) == lower(start, bytes),
    decreases more.len(),
{
    if more.len() > 0 {
        lemma_lower_error_persists(start, bytes, more.drop_last());
        assert((bytes + more).drop_last() =~= bytes + more.drop_last());
    } else {
        assert(bytes + more =~= bytes);
    }
}

/// What holds of the code while it is being lowered: the open placeholders
/// are `Jz(0)` at increasing indices, they are the only `Jz(0)`, and every
/// other jump already lands right after its partner.
pub open spec fn lowered_balanced(state: Lowered) -> bool {
    let (code, opens) = state;
    &&& forall|k: int| 0 <= k < opens.len() ==> #[trigger] opens[k].0 < code.len()
        && code[opens[k].0 as int] == Instruction::Jz(0)
    &&& forall|k: int, l: int| 0 <= k < l < opens.len() ==> #[trigger] opens[k].0 < #[trigger] opens[l].0
    &&& forall|i: int|
        0 <= i < code.len() ==> match #[trigger] code[i] {
            Instruction::Jz(t) => if t == 0 {
                exists|k: int| 0 <= k < opens.len() && #[trigger] opens[k].0 == i
            } else {
                i + 2 <= t <= code.len() && code[t - 1] == Instruction::Jnz((i + 1) as usize)
            },
            Instruction::Jnz(t) => 1 <= t <= i && code[t - 1] == Instruction::Jz((i + 1) as usize),
            _ => true,
        }
}

proof fn lemma_lower_byte_balanced(state: Lowered, byte: u8, location: Location)
    requires
        lowered_balanced(state),
        lower_byte(state, byte, location)->Ok_0.0.len() < usize::MAX,
        lower_byte(state, byte, location) is Ok,
    ensures
        lowered_balanced(lower_byte(state, byte, location)->Ok_0),
{
    let (code, opens) = state;
    let next = lower_byte(state, byte, location)->Ok_0;
    let (code2, opens2) = next;
    if simple_instruction(byte) is Some {
        assert forall|i: int| 0 <= i < code2.len() implies match #[trigger] code2[i] {
            Instruction::Jz(t) => if t == 0 {
                exists|k: int| 0 <= k < opens2.len() && #[trigger] opens2[k].0 == i
            } else {
                i + 2 <= t <= code2.len() && code2[t - 1] == Instruction::Jnz((i + 1) as usize)
            },
            Instruction::Jnz(t) => 1 <= t <= i && code2[t - 1] == Instruction::Jz((i + 1) as usize),
            _ => true,
        } by {
            if i < code.len() {
                assert(code2[i] == code[i]);
            }
        }
    } else if byte == CMD_OPEN {
        let n = code.len();
        assert forall|k: int| 0 <= k < opens2.len() implies #[trigger] opens2[k].0 < code2.len()
            && code2[opens2[k].0 as int] == Instruction::Jz(0) by {
            if k < opens.len() {
                assert(opens2[k] == opens[k]);
            }
        }
        assert forall|i: int| 0 <= i < code2.len() implies match #[trigger] code2[i] {
            Instruction::Jz(t) => if t == 0 {
                exists|k: int| 0 <= k < opens2.len() && #[trigger] opens2[k].0 == i
            } else {
                i + 2 <= t <= code2.len() && code2[t - 1] == Instruction::Jnz((i + 1) as usize)
            },
            Instruction::Jnz(t) => 1 <= t <= i && code2[t - 1] == Instruction::Jz((i + 1) as usize),
            _ => true,
        } by {
            if i < n {
                assert(code2[i] == code[i]);
                if code[i] == Instruction::Jz(0) {
                    let k = choose|k: int| 0 <= k < opens.len() && #[trigger] opens[k].0 == i;
                    assert(opens2[k] == opens[k]);
                }
            } else {
                assert(opens2[opens.len() as int].0 == i);
            }
        }
    } else if byte == CMD_CLOSE {
        let n = code.len();
        let p = opens.last().0 as int;
        assert(opens[opens.len() - 1].0 < code.len());
        assert forall|k: int| 0 <= k < opens2.len() implies #[trigger] opens2[k].0 < code2.len()
            && code2[opens2[k].0 as int] == Instruction::Jz(0) by {
            assert(opens2[k] == opens[k]);
            assert(opens[k].0 < opens[opens.len() - 1].0);
        }
        assert forall|i: int| 0 <= i < code2.len() implies match #[trigger] code2[i] {
            Instruction::Jz(t) => if t == 0 {
                exists|k: int| 0 <= k < opens2.len() && #[trigger] opens2[k].0 == i
            } else {
                i + 2 <= t <= code2.len() && code2[t - 1] == Instruction::Jnz((i + 1) as usize)
            },
            Instruction::Jnz(t) => 1 <= t <= i && code2[t - 1] == Instruction::Jz((i + 1) as usize),
            _ => true,
        } by {
            if i == p {
            } else if i == n {
                assert(code2[p] == Instruction::Jz((n + 1) as usize));
            } else {
                assert(code2[i] == code[i]);
                match code[i] {
                    Instruction::Jz(t) => {
                        if t == 0 {
                            let k = choose|k: int| 0 <= k < opens.len() && #[trigger] opens[k].0 == i;
                            if k == opens.len() - 1 {
                                assert(false);
                            }
                            assert(opens2[k] == opens[k]);
                        } else {
                            assert(code[t - 1] is Jnz);
                            assert(code2[t - 1] == code[t - 1]);
                        }
                    },
                    Instruction::Jnz(t) => {
                        assert(code[t - 1] == Instruction::Jz((i + 1) as usize));
                        assert(code2[t - 1] == code[t - 1]);
                    },
                    _ => {},
                }
            }
        }
    }
}

/// The code being lowered stays balanced after every byte read.
pub proof fn lemma_lower_balanced(start: Location, bytes: Seq<u8>)
    requires
        lower(start, bytes) is Ok,
        lower(start, bytes)->Ok_0.0.len() < usize::MAX,
    ensures
        lowered_balanced(lower(start, bytes)->Ok_0),
    decreases bytes.len(),
{
    if bytes.len() > 0 {
        lemma_lower_balanced(start, bytes.drop_last());
        let state = lower(start, bytes.drop_last())->Ok_0;
        lemma_lower_byte_balanced(state, bytes.last(), location_after(start, bytes.drop_last()));
    } else {
        let state = lower(start, bytes)->Ok_0;
        assert(state.0.len() == 0 && state.1.len() == 0);
    }
}

/// Whatever the text, a successful parse yields a program that ends with
/// `Halt` and whose jumps are balanced: each `Jz` at `i` with target `t` has
/// `Jnz(i + 1)` at `t - 1`, each `Jnz` likewise, and every target is an
/// index of the program.
pub proof fn lemma_parse_well_formed(start: Location, bytes: Seq<u8>)
    requires
        parse_spec(start, bytes) is Ok,
        parse_spec(start, bytes)->Ok_0.len() <= usize::MAX,
    ensures
        well_formed(parse_spec(start, bytes)->Ok_0),
{
    lemma_lower_balanced(start, bytes);
    let (code, opens) = lower(start, bytes)->Ok_0;
    let prog = code.push(Instruction::Halt);
    assert(prog == parse_spec(start, bytes)->Ok_0);
    assert forall|i: int| 0 <= i < prog.len() implies match #[trigger] prog[i] {
        Instruction::Jz(t) => 1 <= t < prog.len() && prog[t - 1] == Instruction::Jnz((i + 1) as usize),
        Instruction::Jnz(t) => 1 <= t < prog.len() && prog[t - 1] == Instruction::Jz((i + 1) as usize),
        _ => true,
    } by {
        if i < code.len() {
            assert(prog[i] == code[i]);
            match code[i] {
                Instruction::Jz(t) => {
                    assert(t != 0);
                    assert(prog[t - 1] == code[t - 1]);
                },
                Instruction::Jnz(t) => {
                    assert(prog[t - 1] == code[t - 1]);
                },
                _ => {},
            }
        }
    }
}

impl Program {
    /// Parses the rest of `source` into a program in the IR format.
    pub fn parse(source: Source) -> (r: Result<Program, ParseError>)
        ensures
            parse_spec(source.location(), source.remaining()) == match r {
                Ok(p) => Ok(p.code@),
                Err(e) => Err(e),
            },
            r matches Ok(p) ==> well_formed(p.code@),
    {
        let mut input = source;
        let ghost start = input.location();
        let ghost all = input.remaining();
        let ghost mut consumed: Seq<u8> = Seq::empty();
        let mut code: Vec<Instruction> = Vec::new();
        let mut loop_starts: Vec<(usize, Location)> = Vec::new();
        loop
            invariant
                start == source.location(),
                all == source.remaining(),
                consumed + input.remaining() == all,
                input.location() == location_after(start, consumed),
                lower(start, consumed) == Ok::<Lowered, ParseError>((code@, loop_starts@)),
                forall|k: int| 0 <= k < loop_starts@.len() ==> #[trigger] loop_starts@[k].0 < code@.len(),
            ensures
                consumed == all,
                lower(start, consumed) == Ok::<Lowered, ParseError>((code@, loop_starts@)),
            decreases input.remaining().len(),
        {
            let ghost before = consumed;
            let next = input.try_next();
            match next {
                None => {
                    assert(consumed =~= all);
                    break;
                },
                Some((byte, location)) => {
                    proof {
                        consumed = consumed.push(byte);
                        assert(consumed.drop_last() =~= before);
                        assert(consumed + input.remaining() =~= all);
                    }
                    if byte == CMD_INC {
                        code.push(Instruction::Inc);
                    } else if byte == CMD_DEC {
                        code.push(Instruction::Dec);
                    } else if byte == CMD_NEXT {
                        code.push(Instruction::Next);
                    } else if byte == CMD_PREV {
                        code.push(Instruction::Prev);
                    } else if byte == CMD_GET {
                        code.push(Instruction::Get);
                    } else if byte == CMD_PUT {
                        code.push(Instruction::Put);
                    } else if byte == CMD_OPEN {
                        let ip = code.len();
                        loop_starts.push((ip, location));
                        code.push(Instruction::Jz(0));
                    } else if byte == CMD_CLOSE {
                        assert(loop_starts@.len() > 0 ==> loop_starts@[loop_starts@.len() - 1].0 < code@.len());
                        let popped = loop_starts.pop();
                        match popped {
                            None => {
                                proof {
                                    assert(consumed.last() == byte);
                                    lemma_lower_error_persists(start, consumed, input.remaining());
                                }
                                return Err(ParseError::UnmatchedLoopClose(location));
                            },
                            Some((label, _)) => {
                                assert(label < code.len());
                                let loop_body = label + 1;
                                code.push(Instruction::Jnz(loop_body));
                                let loop_end = code.len();
                                code.set(label, Instruction::Jz(loop_end));
                            },
                        }
                    }
                },
            }
        }
        if loop_starts.len() > 0 {
            let (_, location) = loop_starts[0];
            return Err(ParseError::UnmatchedLoopOpen(location));
        }
        code.push(Instruction::Halt);
        proof {
            assert(code@.len() == code.len());
            lemma_parse_well_formed(start, all);
        }
        Ok(Program { code })
    }
}

} // verus!
