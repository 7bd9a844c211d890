//! A program carried as a packed byte stream: one opcode byte per
//! instruction, followed for jumps by a little-endian `u32` label that is a
//! byte offset into the stream. It runs on a tape of fixed size whose cursor
//! wraps at both ends.
use vstd::prelude::*;
use crate::ir::{
    command_count, lemma_command_count_concat, lemma_lower_balanced, lemma_lower_error_persists, lemma_parse_well_formed, lower, lower_byte, lowered_balanced, parse_spec, well_formed, jumps_balanced, Instruction,
    Lowered, CMD_CLOSE, CMD_DEC, CMD_GET, CMD_INC, CMD_NEXT, CMD_OPEN, CMD_PREV, CMD_PUT};
use crate::interpreter::{dec_cell, inc_cell, input_cells, run_spec, step_spec, store, Config, Outcome, Step};
use crate::source::{location_after, Location, Source};

pub use crate::ir::ParseError;

verus! {

/// Opcode of `Halt`.
pub const OP_HALT: u8 = 0;
/// Opcode of `Inc`.
pub const OP_INC: u8 = 1;
/// Opcode of `Dec`.
pub const OP_DEC: u8 = 2;
/// Opcode of `Next`.
pub const OP_NEXT: u8 = 3;
/// Opcode of `Prev`.
pub const OP_PREV: u8 = 4;
/// Opcode of `Put`.
pub const OP_PUT: u8 = 5;
/// Opcode of `Get`.
pub const OP_GET: u8 = 6;
/// Opcode of `Jz`.
pub const OP_JZ: u8 = 7;
/// Opcode of `Jnz`.
pub const OP_JNZ: u8 = 8;

/// Bytes taken by an opcode.
pub const LEN_OPCODE: usize = 1;
/// Bytes taken by a label.
pub const LEN_LABEL: usize = 4;
/// Bytes taken by a jump: its opcode and its label.
pub const LEN_JMP: usize = 5;

/// The four little-endian bytes of `v`.
pub open spec fn le32(v: u32) -> Seq<u8> {
    seq![(v & 0xff) as u8, ((v >> 8u32) & 0xff) as u8, ((v >> 16u32) & 0xff) as u8, ((v >> 24u32) & 0xff) as u8]
}

/// The value of four little-endian bytes.
pub open spec fn from_le32(b0: u8, b1: u8, b2: u8, b3: u8) -> u32 {
    (b0 as u32) | ((b1 as u32) << 8u32) | ((b2 as u32) << 16u32) | ((b3 as u32) << 24u32)
}

/// Reading back the four bytes of a label gives the label.
pub proof fn lemma_le32_round_trip(v: u32)
    ensures
        from_le32(le32(v)[0], le32(v)[1], le32(v)[2], le32(v)[3]) == v,
{
    let b0 = (v & 0xff) as u8;
    let b1 = ((v >> 8u32) & 0xff) as u8;
    let b2 = ((v >> 16u32) & 0xff) as u8;
    let b3 = ((v >> 24u32) & 0xff) as u8;
    assert((b0 as u32) | ((b1 as u32) << 8u32) | ((b2 as u32) << 16u32) | ((b3 as u32) << 24u32) == v) by (bit_vector)
        requires
            b0 == (v & 0xff) as u8,
            b1 == ((v >> 8u32) & 0xff) as u8,
            b2 == ((v >> 16u32) & 0xff) as u8,
            b3 == ((v >> 24u32) & 0xff) as u8,
    ;
}

/// The opcode of an instruction.
pub open spec fn opcode_of(i: Instruction) -> u8 {
    match i {
        Instruction::Halt => OP_HALT,
        Instruction::Inc => OP_INC,
        Instruction::Dec => OP_DEC,
        Instruction::Next => OP_NEXT,
        Instruction::Prev => OP_PREV,
        Instruction::Put => OP_PUT,
        Instruction::Get => OP_GET,
        Instruction::Jz(_) => OP_JZ,
        Instruction::Jnz(_) => OP_JNZ,
    }
}

/// The bytes of one instruction whose label, if any, is already a byte
/// offset: the opcode, then for jumps the label cut to 32 bits.
pub open spec fn encode_raw(i: Instruction) -> Seq<u8> {
    match i {
        Instruction::Jz(l) => seq![OP_JZ] + le32(l as u32),
        Instruction::Jnz(l) => seq![OP_JNZ] + le32(l as u32),
        _ => seq![opcode_of(i)],
    }
}

/// `buf` with `bytes` written from `at` on, grown where they pass its end.
pub open spec fn overwrite(buf: Seq<u8>, at: int, bytes: Seq<u8>) -> Seq<u8> {
    if at + bytes.len() <= buf.len() {
        buf.subrange(0, at) + bytes + buf.subrange(at + bytes.len(), buf.len() as int)
    } else {
        buf.subrange(0, at) + bytes
    }
}

/// Writes instructions into a growing byte buffer.
#[derive(Debug, Clone)]
pub struct Encoder {
    buffer: Vec<u8>,
}

impl Encoder {
    /// The bytes written so far.
    pub closed spec fn bytes(&self) -> Seq<u8> {
        self.buffer@
    }

    /// An encoder with nothing written.
    pub fn new() -> (r: Encoder)
        ensures
            r.bytes() == Seq::<u8>::empty(),
    {
        Encoder { buffer: Vec::new() }
    }

    fn write(&mut self, dest_pos: usize, bytes: &[u8])
        requires
            dest_pos <= old(self).bytes().len(),
            dest_pos + bytes@.len() <= usize::MAX,
        ensures
            final(self).bytes() == overwrite(old(self).bytes(), dest_pos as int, bytes@),
    {
        let mut i: usize = 0;
        while i < bytes.len()
            invariant
                i <= bytes@.len(),
                dest_pos + bytes@.len() <= usize::MAX,
                dest_pos <= old(self).bytes().len(),
                self.buffer@.len() == if dest_pos + i <= old(self).buffer@.len() { old(self).buffer@.len() as int } else { dest_pos + i },
                forall|j: int| 0 <= j < self.buffer@.len() ==> #[trigger] self.buffer@[j] == if dest_pos <= j < dest_pos + i {
                    bytes@[j - dest_pos]
                } else {
                    old(self).buffer@[j]
                },
            decreases bytes@.len() - i,
        {
            let at = dest_pos + i;
            if at < self.buffer.len() {
                self.buffer.set(at, bytes[i]);
            } else {
                self.buffer.push(bytes[i]);
            }
            i = i + 1;
        }
        assert(self.buffer@ =~= overwrite(old(self).bytes(), dest_pos as int, bytes@));
    }

    fn encode_opcode(&mut self, dest_pos: usize, opcode: u8)
        requires
            dest_pos <= old(self).bytes().len(),
            dest_pos + LEN_OPCODE <= usize::MAX,
        ensures
            final(self).bytes() == overwrite(old(self).bytes(), dest_pos as int, seq![opcode]),
    {
        let buf = [opcode];
        assert(buf@ =~= seq![opcode]);
        self.write(dest_pos, &buf);
    }

    fn encode_label(&mut self, dest_pos: usize, label: usize)
        requires
            dest_pos <= old(self).bytes().len(),
            dest_pos + LEN_LABEL <= usize::MAX,
        ensures
            final(self).bytes() == overwrite(old(self).bytes(), dest_pos as int, le32(label as u32)),
    {
        let v = label as u32;
        let buf = [(v & 0xff) as u8, ((v >> 8u32) & 0xff) as u8, ((v >> 16u32) & 0xff) as u8, ((v >> 24u32) & 0xff) as u8];
        assert(buf@ =~= le32(v));
        self.write(dest_pos, &buf);
    }

    /// Writes the bytes of `instruction` from `dest_pos` on.
    pub fn encode_instr(&mut self, dest_pos: usize, instruction: Instruction)
        requires
            dest_pos <= old(self).bytes().len(),
            dest_pos + LEN_JMP <= usize::MAX,
        ensures
            final(self).bytes() == overwrite(old(self).bytes(), dest_pos as int, encode_raw(instruction)),
    {
        match instruction {
            Instruction::Halt => self.encode_opcode(dest_pos, OP_HALT),
            Instruction::Inc => self.encode_opcode(dest_pos, OP_INC),
            Instruction::Dec => self.encode_opcode(dest_pos, OP_DEC),
            Instruction::Next => self.encode_opcode(dest_pos, OP_NEXT),
            Instruction::Prev => self.encode_opcode(dest_pos, OP_PREV),
            Instruction::Get => self.encode_opcode(dest_pos, OP_GET),
            Instruction::Put => self.encode_opcode(dest_pos, OP_PUT),
            Instruction::Jz(label) => {
                self.encode_opcode(dest_pos, OP_JZ);
                self.encode_label(dest_pos + LEN_OPCODE, label);
                proof {
                    lemma_overwrite_pair(old(self).bytes(), dest_pos as int, seq![OP_JZ], le32(label as u32));
                }
            },
            Instruction::Jnz(label) => {
                self.encode_opcode(dest_pos, OP_JNZ);
                self.encode_label(dest_pos + LEN_OPCODE, label);
                proof {
                    lemma_overwrite_pair(old(self).bytes(), dest_pos as int, seq![OP_JNZ], le32(label as u32));
                }
            },
        }
    }

    /// Where the next instruction goes: the length written so far.
    pub fn ip(&self) -> (r: usize)
        ensures
            r == self.bytes().len(),
    {
        self.buffer.len()
    }

    /// The bytes written.
    pub fn finish(self) -> (r: Vec<u8>)
        ensures
            r@ == self.bytes(),
    {
        self.buffer
    }
}

/// Writing `a` then `b` right after it is writing `a + b`.
proof fn lemma_overwrite_pair(buf: Seq<u8>, at: int, a: Seq<u8>, b: Seq<u8>)
    requires
        0 <= at <= buf.len(),
    ensures
        overwrite(overwrite(buf, at, a), at + a.len(), b) == overwrite(buf, at, a + b),
{
    let one = overwrite(buf, at, a);
    assert(overwrite(one, at + a.len(), b) =~= overwrite(buf, at, a + b));
}

/// Bytes that an instruction takes in the stream.
pub open spec fn width(i: Instruction) -> nat {
    match i {
        Instruction::Jz(_) | Instruction::Jnz(_) => LEN_JMP as nat,
        _ => LEN_OPCODE as nat,
    }
}

/// Byte offset in the stream of instruction `k` of `code`.
pub open spec fn offset(code: Seq<Instruction>, k: int) -> nat
    decreases k,
{
    if k <= 0 {
        0
    } else {
        offset(code, k - 1) + width(code[k - 1])
    }
}

/// `i` with its label, if any, turned from an index of `code` into the
/// byte offset of that instruction.
pub open spec fn relabel(i: Instruction, code: Seq<Instruction>) -> Instruction {
    match i {
        Instruction::Jz(t) => Instruction::Jz(offset(code, t as int) as usize),
        Instruction::Jnz(t) => Instruction::Jnz(offset(code, t as int) as usize),
        _ => i,
    }
}

/// The bytes of the first `n` instructions of `code`.
pub open spec fn encode_prefix(code: Seq<Instruction>, n: int) -> Seq<u8>
    decreases n,
{
    if n <= 0 {
        Seq::empty()
    } else {
        encode_prefix(code, n - 1) + encode_raw(relabel(code[n - 1], code))
    }
}

/// The byte stream that carries the IR program `code`.
pub open spec fn encode_program(code: Seq<Instruction>) -> Seq<u8> {
    encode_prefix(code, code.len() as int)
}

/// Every label of `code` is at most its length.
pub open spec fn labels_bounded(code: Seq<Instruction>) -> bool {
    forall|i: int| 0 <= i < code.len() ==> match #[trigger] code[i] {
        Instruction::Jz(t) | Instruction::Jnz(t) => t <= code.len(),
        _ => true,
    }
}

proof fn lemma_offset_bounds(code: Seq<Instruction>, k: int)
    requires
        0 <= k,
    ensures
        k <= offset(code, k) <= LEN_JMP * k,
    decreases k,
{
    if k > 0 {
        lemma_offset_bounds(code, k - 1);
    }
}

proof fn lemma_offset_monotonic(code: Seq<Instruction>, j: int, k: int)
    requires
        0 <= j <= k,
    ensures
        offset(code, j) + (k - j) <= offset(code, k),
    decreases k,
{
    if j < k {
        lemma_offset_monotonic(code, j, k - 1);
    }
}

proof fn lemma_offset_same(a: Seq<Instruction>, b: Seq<Instruction>, k: int)
    requires
        0 <= k,
        forall|j: int| 0 <= j < k ==> width(#[trigger] a[j]) == width(b[j]),
    ensures
        offset(a, k) == offset(b, k),
    decreases k,
{
    if k > 0 {
        lemma_offset_same(a, b, k - 1);
    }
}

proof fn lemma_encode_prefix_len(code: Seq<Instruction>, n: int)
    requires
        0 <= n,
    ensures
        encode_prefix(code, n).len() == offset(code, n),
    decreases n,
{
    if n > 0 {
        lemma_encode_prefix_len(code, n - 1);
    }
}

/// Appending an instruction appends its bytes.
proof fn lemma_encode_push(code: Seq<Instruction>, x: Instruction)
    requires
        labels_bounded(code),
    ensures
        encode_program(code.push(x)) == encode_program(code) + encode_raw(relabel(x, code.push(x))),
{
    let c2 = code.push(x);
    lemma_encode_prefix_push_upto(code, x, code.len() as int);
    assert(c2[code.len() as int] == x);
    assert(encode_program(c2) == encode_prefix(c2, code.len() as int) + encode_raw(relabel(x, c2)));
}

proof fn lemma_encode_prefix_push_upto(code: Seq<Instruction>, x: Instruction, n: int)
    requires
        labels_bounded(code),
        0 <= n <= code.len(),
    ensures
        encode_prefix(code.push(x), n) == encode_prefix(code, n),
    decreases n,
{
    let c2 = code.push(x);
    if n > 0 {
        lemma_encode_prefix_push_upto(code, x, n - 1);
        assert(c2[n - 1] == code[n - 1]);
        match code[n - 1] {
            Instruction::Jz(t) | Instruction::Jnz(t) => {
                assert forall|j: int| 0 <= j < t implies width(#[trigger] c2[j]) == width(code[j]) by {
                    assert(c2[j] == code[j]);
                }
                lemma_offset_same(c2, code, t as int);
            },
            _ => {},
        }
    }
}

/// Replacing an instruction by one of the same width overwrites its bytes.
proof fn lemma_encode_update(code: Seq<Instruction>, p: int, y: Instruction)
    requires
        0 <= p < code.len(),
        width(y) == width(code[p]),
        labels_bounded(code),
        labels_bounded(code.update(p, y)),
    ensures
        encode_program(code.update(p, y)) == overwrite(encode_program(code), offset(code, p) as int, encode_raw(relabel(y, code.update(p, y)))),
{
    let c2 = code.update(p, y);
    assert forall|j: int| 0 <= j < code.len() implies width(#[trigger] c2[j]) == width(code[j]) by {
        if j != p {
            assert(c2[j] == code[j]);
        }
    }
    assert forall|k: int| 0 <= k <= code.len() implies #[trigger] offset(c2, k) == offset(code, k) by {
        lemma_offset_same(c2, code, k);
    }
    lemma_encode_update_upto(code, p, y, code.len() as int);
}

proof fn lemma_encode_update_upto(code: Seq<Instruction>, p: int, y: Instruction, n: int)
    requires
        0 <= p < code.len(),
        width(y) == width(code[p]),
        labels_bounded(code),
        labels_bounded(code.update(p, y)),
        forall|k: int| 0 <= k <= code.len() ==> #[trigger] offset(code.update(p, y), k) == offset(code, k),
        0 <= n <= code.len(),
    ensures
        n <= p ==> encode_prefix(code.update(p, y), n) == encode_prefix(code, n),
        n > p ==> encode_prefix(code.update(p, y), n) == overwrite(encode_prefix(code, n), offset(code, p) as int, encode_raw(relabel(y, code.update(p, y)))),
    decreases n,
{
    let c2 = code.update(p, y);
    if n > 0 {
        lemma_encode_update_upto(code, p, y, n - 1);
        lemma_encode_prefix_len(code, n - 1);
        lemma_encode_prefix_len(code, p);
        let i = n - 1;
        if i != p {
            assert(c2[i] == code[i]);
            assert(relabel(c2[i], c2) == relabel(code[i], code));
        }
        let enc_y = encode_raw(relabel(y, c2));
        let enc_old = encode_raw(relabel(code[p], code));
        assert(enc_y.len() == width(y));
        assert(enc_old.len() == width(code[p]));
        if n - 1 == p {
            assert(encode_prefix(c2, n) =~= overwrite(encode_prefix(code, n), offset(code, p) as int, enc_y));
        } else if n - 1 > p {
            lemma_offset_monotonic(code, p + 1, n - 1);
            assert(encode_prefix(c2, n) =~= overwrite(encode_prefix(code, n), offset(code, p) as int, enc_y));
        }
    }
}

/// The bytes of instruction `k` stand at its offset in the stream.
proof fn lemma_encode_at(code: Seq<Instruction>, k: int)
    requires
        0 <= k < code.len(),
    ensures
        offset(code, k + 1) <= encode_program(code).len(),
        encode_program(code).subrange(offset(code, k) as int, offset(code, k + 1) as int) == encode_raw(relabel(code[k], code)),
{
    lemma_encode_prefix_extends(code, k + 1, code.len() as int);
    lemma_encode_prefix_len(code, k);
    lemma_encode_prefix_len(code, k + 1);
    let pre = encode_prefix(code, k + 1);
    assert(pre.subrange(offset(code, k) as int, offset(code, k + 1) as int) =~= encode_raw(relabel(code[k], code)));
}

proof fn lemma_encode_prefix_extends(code: Seq<Instruction>, m: int, n: int)
    requires
        0 <= m <= n,
    ensures
        encode_prefix(code, m).len() <= encode_prefix(code, n).len(),
        encode_prefix(code, n).subrange(0, encode_prefix(code, m).len() as int) == encode_prefix(code, m),
    decreases n,
{
    if m < n {
        lemma_encode_prefix_extends(code, m, n - 1);
        let a = encode_prefix(code, n - 1);
        assert(encode_prefix(code, n).subrange(0, a.len() as int) =~= a);
        assert(encode_prefix(code, n).subrange(0, encode_prefix(code, m).len() as int) =~= a.subrange(0, encode_prefix(code, m).len() as int));
    } else {
        assert(encode_prefix(code, n).subrange(0, encode_prefix(code, n).len() as int) =~= encode_prefix(code, n));
    }
}

proof fn lemma_balanced_labels_bounded(state: Lowered)
    requires
        lowered_balanced(state),
    ensures
        labels_bounded(state.0),
{
    let (code, opens) = state;
    assert forall|i: int| 0 <= i < code.len() implies match #[trigger] code[i] {
        Instruction::Jz(t) | Instruction::Jnz(t) => t <= code.len(),
        _ => true,
    } by {
        match code[i] {
            Instruction::Jz(t) => {
                if t == 0 {
                } else {
                }
            },
            _ => {},
        }
    }
}

/// Number of command bytes in `bytes`: `Program::parse` asks that five
/// bytes per command, and five more, fit in a 32-bit label.
pub fn count_commands(bytes: &[u8]) -> (r: usize)
    ensures
        r == command_count(bytes@),
{
    let mut n: usize = 0;
    let mut i: usize = 0;
    while i < bytes.len()
        invariant
            i <= bytes@.len(),
            n <= i,
            n == command_count(bytes@.subrange(0, i as int)),
        decreases bytes@.len() - i,
    {
        let byte = bytes[i];
        proof {
            assert(bytes@.subrange(0, i + 1).drop_last() =~= bytes@.subrange(0, i as int));
        }
        if byte == CMD_INC || byte == CMD_DEC || byte == CMD_NEXT || byte == CMD_PREV || byte == CMD_GET || byte == CMD_PUT
            || byte == CMD_OPEN || byte == CMD_CLOSE {
            n = n + 1;
        }
        i = i + 1;
    }
    assert(bytes@.subrange(0, i as int) =~= bytes@);
    n
}

/// A program in the serialized form.
pub struct Program {
    code: Vec<u8>,
    /// The IR program that the bytes carry.
    ir: Ghost<Seq<Instruction>>,
}

impl Program {
    /// The bytes of the stream.
    pub closed spec fn bytes(&self) -> Seq<u8> {
        self.code@
    }

    /// The IR program that the stream carries.
    pub closed spec fn instructions(&self) -> Seq<Instruction> {
        self.ir@
    }

    /// The stream carries a well-formed IR program, and every offset in it
    /// fits in a label.
    pub closed spec fn wf(&self) -> bool {
        &&& well_formed(self.ir@)
        &&& self.code@ == encode_program(self.ir@)
        &&& self.code@.len() <= u32::MAX
    }

    /// A copy of the bytes of the stream.
    pub fn to_bytes(&self) -> (r: Vec<u8>)
        ensures
            r@ == self.bytes(),
    {
        let mut r: Vec<u8> = Vec::new();
        let mut i: usize = 0;
        while i < self.code.len()
            invariant
                i <= self.code@.len(),
                r@ == self.code@.subrange(0, i as int),
            decreases self.code@.len() - i,
        {
            r.push(self.code[i]);
            i = i + 1;
            assert(r@ =~= self.code@.subrange(0, i as int));
        }
        assert(r@ =~= self.code@);
        r
    }

    /// Parses the rest of `source` straight into the serialized form. The
    /// stream carries the program that `ir::Program::parse` gives, each label
    /// being the byte offset of the instruction it names.
    pub fn parse(source: Source) -> (r: Result<Program, ParseError>)
        requires
            LEN_JMP * command_count(source.remaining()) + LEN_JMP <= u32::MAX,
        ensures
            match r {
                Ok(p) => parse_spec(source.location(), source.remaining()) == Ok::<Seq<Instruction>, ParseError>(p.instructions())
                    && p.bytes() == encode_program(p.instructions()) && p.wf(),
                Err(e) => parse_spec(source.location(), source.remaining()) == Err::<Seq<Instruction>, ParseError>(e),
            },
    {
        let mut input = source;
        let ghost start = input.location();
        let ghost all = input.remaining();
        let ghost mut consumed: Seq<u8> = Seq::empty();
        let ghost mut state: Lowered = (Seq::empty(), Seq::empty());
        let mut encoder = Encoder::new();
        let mut loop_starts: Vec<(usize, Location)> = Vec::new();
        proof {
            assert(encode_program(state.0) =~= Seq::<u8>::empty());
        }
        loop
            invariant
                start == source.location(),
                all == source.remaining(),
                LEN_JMP * command_count(all) + LEN_JMP <= u32::MAX,
                command_count(consumed) <= command_count(all),
                consumed + input.remaining() == all,
                input.location() == location_after(start, consumed),
                lower(start, consumed) == Ok::<Lowered, ParseError>(state),
                lowered_balanced(state),
                state.0.len() <= command_count(consumed),
                encoder.bytes() == encode_program(state.0),
                loop_starts@.len() == state.1.len(),
                forall|k: int| 0 <= k < state.1.len() ==> #[trigger] loop_starts@[k] == (offset(state.0, state.1[k].0 as int) as usize, state.1[k].1),
            ensures
                consumed == all,
                lower(start, consumed) == Ok::<Lowered, ParseError>(state),
                lowered_balanced(state),
                state.0.len() <= command_count(consumed),
                encoder.bytes() == encode_program(state.0),
                loop_starts@.len() == state.1.len(),
                forall|k: int| 0 <= k < state.1.len() ==> #[trigger] loop_starts@[k] == (offset(state.0, state.1[k].0 as int) as usize, state.1[k].1),
            decreases input.remaining().len(),
        {
            let ghost before = consumed;
            let ghost code = state.0;
            let ghost opens = state.1;
            let next = input.try_next();
            let (byte, location) = match next {
                None => {
                    assert(consumed =~= all);
                    break;
                },
                Some(item) => item,
            };
            proof {
                consumed = consumed.push(byte);
                assert(consumed.drop_last() =~= before);
                assert(consumed + input.remaining() =~= all);
                lemma_command_count_concat(consumed, input.remaining());
                lemma_balanced_labels_bounded(state);
                lemma_encode_prefix_len(code, code.len() as int);
                lemma_offset_bounds(code, code.len() as int);
            }
            let ip = encoder.ip();
            if byte == CMD_OPEN || byte == CMD_INC || byte == CMD_DEC || byte == CMD_NEXT || byte == CMD_PREV || byte == CMD_GET
                || byte == CMD_PUT {
                let instruction = if byte == CMD_INC {
                    Instruction::Inc
                } else if byte == CMD_DEC {
                    Instruction::Dec
                } else if byte == CMD_NEXT {
                    Instruction::Next
                } else if byte == CMD_PREV {
                    Instruction::Prev
                } else if byte == CMD_GET {
                    Instruction::Get
                } else if byte == CMD_PUT {
                    Instruction::Put
                } else {
                    loop_starts.push((ip, location));
                    Instruction::Jz(0)
                };
                encoder.encode_instr(ip, instruction);
                proof {
                    lemma_encode_push(code, instruction);
                    assert(encoder.bytes() =~= encode_program(code) + encode_raw(relabel(instruction, code.push(instruction))));
                    state = lower_byte(state, byte, location)->Ok_0;
                    lemma_lower_balanced(start, consumed);
                    assert forall|k: int| 0 <= k < state.1.len() implies #[trigger] loop_starts@[k] == (offset(state.0, state.1[k].0 as int) as usize, state.1[k].1) by {
                        let t = state.1[k].0 as int;
                        assert(t <= code.len());
                        assert forall|j: int| 0 <= j < t implies width(#[trigger] state.0[j]) == width(code[j]) by {
                            assert(state.0[j] == code[j]);
                        }
                        lemma_offset_same(state.0, code, t);
                    }
                }
            } else if byte == CMD_CLOSE {
                let popped = loop_starts.pop();
                let (label, _) = match popped {
                    None => {
                        proof {
                            assert(consumed.last() == byte);
                            assert(lower(start, consumed) == Err::<Lowered, ParseError>(ParseError::UnmatchedLoopClose(location)));
                            lemma_lower_error_persists(start, consumed, input.remaining());
                            assert(consumed + input.remaining() == all);
                        }
                        return Err(ParseError::UnmatchedLoopClose(location));
                    },
                    Some(item) => item,
                };
                let ghost p = opens.last().0 as int;
                let ghost n = code.len() as int;
                let ghost code1 = code.push(Instruction::Jnz((p + 1) as usize));
                proof {
                    assert(label == offset(code, p) as usize);
                    assert(code[p] == Instruction::Jz(0));
                    lemma_offset_bounds(code, p);
                    lemma_offset_monotonic(code, p, n);
                }
                let loop_body = label + LEN_JMP;
                encoder.encode_instr(ip, Instruction::Jnz(loop_body));
                proof {
                    assert forall|j: int| 0 <= j < p + 1 implies width(#[trigger] code1[j]) == width(code[j]) by {
                        assert(code1[j] == code[j]);
                    }
                    lemma_offset_same(code1, code, p + 1);
                    lemma_encode_push(code, Instruction::Jnz((p + 1) as usize));
                    assert(encoder.bytes() =~= encode_program(code1));
                    lemma_encode_prefix_len(code1, n + 1);
                    lemma_offset_bounds(code1, n + 1);
                }
                let loop_end = encoder.ip();
                proof {
                    assert forall|i: int| 0 <= i < code1.len() implies match #[trigger] code1[i] {
                        Instruction::Jz(t) | Instruction::Jnz(t) => t <= code1.len(),
                        _ => true,
                    } by {
                        if i < n {
                            assert(code1[i] == code[i]);
                        }
                    }
                    assert forall|j: int| 0 <= j < p implies width(#[trigger] code1[j]) == width(code[j]) by {
                        assert(code1[j] == code[j]);
                    }
                    lemma_offset_same(code1, code, p);
                }
                encoder.encode_instr(label, Instruction::Jz(loop_end));
                proof {
                    let code2 = code1.update(p, Instruction::Jz((n + 1) as usize));
                    state = lower_byte(state, byte, location)->Ok_0;
                    assert(state.0 == code2);
                    lemma_lower_balanced(start, consumed);
                    lemma_balanced_labels_bounded(state);
                    lemma_encode_update(code1, p, Instruction::Jz((n + 1) as usize));
                    assert forall|j: int| 0 <= j < n + 1 implies width(#[trigger] code2[j]) == width(code1[j]) by {
                        if j != p {
                            assert(code2[j] == code1[j]);
                        }
                    }
                    lemma_offset_same(code2, code1, n + 1);
                    assert forall|k: int| 0 <= k < state.1.len() implies #[trigger] loop_starts@[k] == (offset(state.0, state.1[k].0 as int) as usize, state.1[k].1) by {
                        let t = state.1[k].0 as int;
                        assert(state.1[k] == opens[k]);
                        assert(t < code.len());
                        assert forall|j: int| 0 <= j < t implies width(#[trigger] code2[j]) == width(code[j]) by {
                            if j != p {
                                assert(code2[j] == code[j]);
                            }
                        }
                        lemma_offset_same(code2, code, t);
                    }
                }
            } else {
                proof {
                    state = lower_byte(state, byte, location)->Ok_0;
                }
            }
        }
        if loop_starts.len() > 0 {
            let (_, location) = loop_starts[0];
            return Err(ParseError::UnmatchedLoopOpen(location));
        }
        let ip = encoder.ip();
        let ghost code = state.0;
        proof {
            lemma_balanced_labels_bounded(state);
            lemma_encode_prefix_len(code, code.len() as int);
            lemma_offset_bounds(code, code.len() as int);
        }
        encoder.encode_instr(ip, Instruction::Halt);
        let ghost ir = code.push(Instruction::Halt);
        proof {
            lemma_encode_push(code, Instruction::Halt);
            assert(encoder.bytes() =~= encode_program(ir));
            lemma_encode_prefix_len(ir, ir.len() as int);
            lemma_offset_bounds(ir, ir.len() as int);
            lemma_parse_well_formed(start, all);
        }
        Ok(Program { code: encoder.finish(), ir: Ghost(ir) })
    }
}


/// Offsets of distinct instructions differ.
proof fn lemma_offset_injective(code: Seq<Instruction>, j: int, k: int)
    requires
        0 <= j,
        0 <= k,
        offset(code, j) == offset(code, k),
    ensures
        j == k,
{
    if j < k {
        lemma_offset_monotonic(code, j + 1, k);
    } else if k < j {
        lemma_offset_monotonic(code, k + 1, j);
    }
}

/// Reads instructions back out of a stream.
pub struct Decoder {
    program: Program,
    ip: usize,
    /// Index in the IR program of the instruction at `ip`.
    index: Ghost<int>,
}

impl Decoder {
    /// The program is well formed and `ip` is the offset of instruction
    /// `index`, or the end of the stream.
    pub closed spec fn wf(&self) -> bool {
        &&& self.program.wf()
        &&& 0 <= self.index@ <= self.program.instructions().len()
        &&& self.ip == offset(self.program.instructions(), self.index@)
    }

    /// The IR program that the stream carries.
    pub closed spec fn instructions(&self) -> Seq<Instruction> {
        self.program.instructions()
    }

    /// Index in the IR program of the next instruction.
    pub closed spec fn index(&self) -> int {
        self.index@
    }

    /// A decoder at the start of `program`.
    pub fn new(program: Program) -> (r: Decoder)
        requires
            program.wf(),
        ensures
            r.wf(),
            r.instructions() == program.instructions(),
            r.index() == 0,
    {
        Decoder { program, ip: 0, index: Ghost(0) }
    }

    fn read(&mut self) -> (r: u8)
        requires
            old(self).ip < old(self).program.code@.len(),
        ensures
            r == old(self).program.code@[old(self).ip as int],
            final(self).ip == old(self).ip + 1,
            final(self).program == old(self).program,
            final(self).index == old(self).index,
    {
        let byte = self.program.code[self.ip];
        assert(self.program.code@.len() == self.program.code.len());
        self.ip = self.ip + 1;
        byte
    }

    fn decode_opcode(&mut self) -> (r: u8)
        requires
            old(self).ip + LEN_OPCODE <= old(self).program.code@.len(),
        ensures
            r == old(self).program.code@[old(self).ip as int],
            final(self).ip == old(self).ip + LEN_OPCODE,
            final(self).program == old(self).program,
            final(self).index == old(self).index,
    {
        self.read()
    }

    fn decode_label(&mut self) -> (r: u32)
        requires
            old(self).ip + LEN_LABEL <= old(self).program.code@.len(),
        ensures
            r == from_le32(
                old(self).program.code@[old(self).ip as int],
                old(self).program.code@[old(self).ip + 1],
                old(self).program.code@[old(self).ip + 2],
                old(self).program.code@[old(self).ip + 3],
            ),
            final(self).ip == old(self).ip + LEN_LABEL,
            final(self).program == old(self).program,
            final(self).index == old(self).index,
    {
        let b0 = self.read();
        let b1 = self.read();
        let b2 = self.read();
        let b3 = self.read();
        (b0 as u32) | ((b1 as u32) << 8u32) | ((b2 as u32) << 16u32) | ((b3 as u32) << 24u32)
    }

    /// Decodes the next instruction, its label being a byte offset, and
    /// moves past it.
    pub fn decode_instr(&mut self) -> (r: Instruction)
        requires
            old(self).wf(),
            old(self).index() < old(self).instructions().len(),
        ensures
            final(self).wf(),
            final(self).instructions() == old(self).instructions(),
            r == relabel(old(self).instructions()[old(self).index()], old(self).instructions()),
            final(self).index() == old(self).index() + 1,
    {
        let ghost ir = self.program.instructions();
        let ghost k = self.index@;
        proof {
            lemma_encode_at(ir, k);
            lemma_encode_prefix_len(ir, ir.len() as int);
        }
        let ghost at = self.ip as int;
        let ghost enc = encode_raw(relabel(ir[k], ir));
        assert(self.program.code@[at] == enc[0]);
        let opcode = self.decode_opcode();
        let r = if opcode == OP_HALT {
            Instruction::Halt
        } else if opcode == OP_INC {
            Instruction::Inc
        } else if opcode == OP_DEC {
            Instruction::Dec
        } else if opcode == OP_NEXT {
            Instruction::Next
        } else if opcode == OP_PREV {
            Instruction::Prev
        } else if opcode == OP_GET {
            Instruction::Get
        } else if opcode == OP_PUT {
            Instruction::Put
        } else {
            proof {
                assert(ir[k] is Jz || ir[k] is Jnz);
                match ir[k] {
                    Instruction::Jz(t) | Instruction::Jnz(t) => {
                        assert(0 <= t < ir.len()) by {
                            assert(well_formed(ir));
                        }
                        lemma_offset_monotonic(ir, t as int, ir.len() as int);
                        lemma_le32_round_trip((offset(ir, t as int) as usize) as u32);
                        assert(enc =~= seq![opcode] + le32((offset(ir, t as int) as usize) as u32));
                    },
                    _ => {},
                }
                assert(self.program.code@[at + 1] == enc[1]);
                assert(self.program.code@[at + 2] == enc[2]);
                assert(self.program.code@[at + 3] == enc[3]);
                assert(self.program.code@[at + 4] == enc[4]);
            }
            let label = self.decode_label() as usize;
            if opcode == OP_JZ {
                Instruction::Jz(label)
            } else {
                Instruction::Jnz(label)
            }
        };
        proof {
            self.index = Ghost(k + 1);
        }
        r
    }

    /// Moves to the instruction at byte offset `new_ip`.
    pub fn jump(&mut self, new_ip: usize)
        requires
            old(self).wf(),
            exists|t: int| 0 <= t < old(self).instructions().len() && offset(old(self).instructions(), t) == new_ip,
        ensures
            final(self).wf(),
            final(self).instructions() == old(self).instructions(),
            0 <= final(self).index() < final(self).instructions().len(),
            offset(final(self).instructions(), final(self).index()) == new_ip,
    {
        let ghost t = choose|t: int| 0 <= t < self.program.instructions().len() && offset(self.program.instructions(), t) == new_ip;
        self.ip = new_ip;
        self.index = Ghost(t);
    }
}

/// Cursor position after `>` on a tape of `size` cells: past the end it
/// wraps to the first cell.
pub open spec fn wrap_next(cursor: int, size: int) -> int {
    if cursor + 1 >= size {
        0
    } else {
        cursor + 1
    }
}

/// Cursor position after `<` on a tape of `size` cells: before the first
/// cell it wraps to the last.
pub open spec fn wrap_prev(cursor: int, size: int) -> int {
    if cursor == 0 {
        size - 1
    } else {
        cursor - 1
    }
}

/// `cells` after a read at `cursor`: a byte stores the record `1, byte` from
/// the cursor on, the second cell being the one `>` reaches; the end of input
/// stores `0` at the cursor.
pub open spec fn fixed_input_cells(cells: Seq<u8>, cursor: int, result: Option<u8>) -> Seq<u8> {
    match result {
        Some(byte) => cells.update(cursor, 1).update(wrap_next(cursor, cells.len() as int), byte),
        None => cells.update(cursor, 0),
    }
}

/// On a tape of `size` cells, `<` from the first cell reaches the last, and
/// `>` from the last reaches the first.
pub proof fn lemma_cursor_wraps(size: int)
    requires
        size > 0,
    ensures
        wrap_prev(0, size) == size - 1,
        wrap_next(size - 1, size) == 0,
{
}

/// A tape of fixed size whose cursor wraps at both ends.
#[derive(Debug, Clone)]
pub struct Tape {
    cells: Vec<u8>,
    cursor: usize,
}

impl Tape {
    /// The tape has a cell, and the cursor stands on one.
    pub closed spec fn wf(&self) -> bool {
        0 <= self.cursor < self.cells@.len()
    }

    /// The cells.
    pub closed spec fn cells(&self) -> Seq<u8> {
        self.cells@
    }

    /// The position of the cursor.
    pub closed spec fn cursor(&self) -> int {
        self.cursor as int
    }

    /// A tape of `size` zero cells, the cursor on the first.
    pub fn new(size: usize) -> (r: Tape)
        requires
            size > 0,
        ensures
            r.wf(),
            r.cells() == Seq::new(size as nat, |i: int| 0u8),
            r.cursor() == 0,
    {
        let cells: Vec<u8> = vec![0; size];
        assert forall|i: int| 0 <= i < size implies cells@[i] == 0u8 by {
            assert(cloned::<u8>(0, cells@[i]));
        }
        assert(cells@ =~= Seq::new(size as nat, |i: int| 0u8));
        Tape { cells, cursor: 0 }
    }

    /// Adds one to the current cell, wrapping from 255 to 0.
    pub fn inc(&mut self)
        requires
            old(self).wf(),
        ensures
            final(self).wf(),
            final(self).cursor() == old(self).cursor(),
            final(self).cells() == old(self).cells().update(old(self).cursor(), inc_cell(old(self).cells()[old(self).cursor()])),
    {
        let v = self.cells[self.cursor];
        let w = if v == 255 { 0 } else { v + 1 };
        self.cells.set(self.cursor, w);
    }

    /// Subtracts one from the current cell, wrapping from 0 to 255.
    pub fn dec(&mut self)
        requires
            old(self).wf(),
        ensures
            final(self).wf(),
            final(self).cursor() == old(self).cursor(),
            final(self).cells() == old(self).cells().update(old(self).cursor(), dec_cell(old(self).cells()[old(self).cursor()])),
    {
        let v = self.cells[self.cursor];
        let w = if v == 0 { 255 } else { v - 1 };
        self.cells.set(self.cursor, w);
    }

    /// Moves the cursor forwards, from the last cell to the first.
    pub fn next(&mut self)
        requires
            old(self).wf(),
        ensures
            final(self).wf(),
            final(self).cells() == old(self).cells(),
            final(self).cursor() == wrap_next(old(self).cursor(), old(self).cells().len() as int),
    {
        if self.cursor >= self.cells.len() - 1 {
            self.cursor = 0;
        } else {
            self.cursor = self.cursor + 1;
        }
    }

    /// Moves the cursor backwards, from the first cell to the last.
    pub fn prev(&mut self)
        requires
            old(self).wf(),
        ensures
            final(self).wf(),
            final(self).cells() == old(self).cells(),
            final(self).cursor() == wrap_prev(old(self).cursor(), old(self).cells().len() as int),
    {
        if self.cursor == 0 {
            self.cursor = self.cells.len() - 1;
        } else {
            self.cursor = self.cursor - 1;
        }
    }

    /// Stores the outcome of a read: after a byte, the current cell is 1 and
    /// the next one holds the byte; at the end of input the current cell is 0.
    pub fn input(&mut self, result: Option<u8>)
        requires
            old(self).wf(),
        ensures
            final(self).wf(),
            final(self).cursor() == old(self).cursor(),
            final(self).cells() == fixed_input_cells(old(self).cells(), old(self).cursor(), result),
    {
        match result {
            Some(byte) => {
                self.cells.set(self.cursor, 1);
                self.next();
                self.cells.set(self.cursor, byte);
                self.prev();
            },
            None => {
                self.cells.set(self.cursor, 0);
            },
        }
    }

    /// The current cell.
    pub fn output(&self) -> (r: u8)
        requires
            self.wf(),
        ensures
            r == self.cells()[self.cursor()],
    {
        self.cells[self.cursor]
    }

    /// Whether the current cell is zero.
    pub fn is_zero(&self) -> (r: bool)
        requires
            self.wf(),
        ensures
            r == (self.cells()[self.cursor()] == 0),
    {
        self.cells[self.cursor] == 0
    }
}

/// A configuration of the serialized machine: the index of the next
/// instruction in the IR program, the cursor, and the cells.
pub type FixedConfig = (int, int, Seq<u8>);

/// The configuration after executing instruction `c.0` of `code` on a tape
/// that wraps. A `Get` only moves past itself here: what it reads is stored
/// by `fixed_input_cells`.
pub open spec fn fixed_step_spec(code: Seq<Instruction>, c: FixedConfig) -> FixedConfig {
    let (k, cursor, cells) = c;
    match code[k] {
        Instruction::Inc => (k + 1, cursor, cells.update(cursor, inc_cell(cells[cursor]))),
        Instruction::Dec => (k + 1, cursor, cells.update(cursor, dec_cell(cells[cursor]))),
        Instruction::Next => (k + 1, wrap_next(cursor, cells.len() as int), cells),
        Instruction::Prev => (k + 1, wrap_prev(cursor, cells.len() as int), cells),
        Instruction::Jz(t) => (if cells[cursor] == 0 { t as int } else { k + 1 }, cursor, cells),
        Instruction::Jnz(t) => (if cells[cursor] != 0 { t as int } else { k + 1 }, cursor, cells),
        _ => (k + 1, cursor, cells),
    }
}

/// What the step from `c` asks of the world around the machine.
pub open spec fn fixed_step_request(code: Seq<Instruction>, c: FixedConfig) -> Step {
    match code[c.0] {
        Instruction::Halt => Step::Halted,
        Instruction::Get => Step::Input,
        Instruction::Put => Step::Output(c.2[c.1]),
        _ => Step::Running,
    }
}

/// Runs `code` from `c` for at most `fuel` steps with `input` to read: the
/// bytes written, and whether `Halt` was reached.
pub open spec fn fixed_run_spec(code: Seq<Instruction>, c: FixedConfig, input: Seq<u8>, fuel: nat) -> (Seq<u8>, bool)
    decreases fuel,
{
    if fuel == 0 {
        (Seq::empty(), false)
    } else if !(0 <= c.0 < code.len()) {
        (Seq::empty(), true)
    } else {
        let next = fixed_step_spec(code, c);
        match code[c.0] {
            Instruction::Halt => (Seq::empty(), true),
            Instruction::Get => if input.len() > 0 {
                fixed_run_spec(code, (next.0, next.1, fixed_input_cells(next.2, next.1, Some(input[0]))), input.drop_first(), (fuel - 1) as nat)
            } else {
                fixed_run_spec(code, (next.0, next.1, fixed_input_cells(next.2, next.1, None)), input, (fuel - 1) as nat)
            },
            Instruction::Put => {
                let (more, halted) = fixed_run_spec(code, next, input, (fuel - 1) as nat);
                (seq![c.2[c.1]] + more, halted)
            },
            _ => fixed_run_spec(code, next, input, (fuel - 1) as nat),
        }
    }
}

/// The interpreter over a serialized program, on a tape of fixed size.
pub struct Machine {
    decoder: Decoder,
    tape: Tape,
}

impl Machine {
    /// The decoder and the tape are well formed.
    pub closed spec fn wf(&self) -> bool {
        self.decoder.wf() && self.tape.wf()
    }

    /// The IR program that the stream carries.
    pub closed spec fn instructions(&self) -> Seq<Instruction> {
        self.decoder.instructions()
    }

    /// The current configuration.
    pub closed spec fn config(&self) -> FixedConfig {
        (self.decoder.index(), self.tape.cursor(), self.tape.cells())
    }

    /// A machine about to run `program` from its first instruction on `tape`.
    pub fn new(program: Program, tape: Tape) -> (r: Machine)
        requires
            program.wf(),
            tape.wf(),
        ensures
            r.wf(),
            r.instructions() == program.instructions(),
            r.config() == (0int, tape.cursor(), tape.cells()),
    {
        Machine { decoder: Decoder::new(program), tape }
    }

    /// Executes one instruction. A `Put` hands back the byte to write; a
    /// `Get` asks for the outcome of a read, to be handed to `feed`. Once
    /// `Halt` has run, every further step reports it again.
    pub fn step(&mut self) -> (r: Step)
        requires
            old(self).wf(),
        ensures
            final(self).wf(),
            final(self).instructions() == old(self).instructions(),
            old(self).config().0 < old(self).instructions().len() ==> r == fixed_step_request(old(self).instructions(), old(self).config())
                && final(self).config() == fixed_step_spec(old(self).instructions(), old(self).config()),
            old(self).config().0 >= old(self).instructions().len() ==> r == Step::Halted && final(self).config() == old(self).config(),
    {
        proof {
            lemma_encode_prefix_len(self.decoder.instructions(), self.decoder.instructions().len() as int);
        }
        if self.decoder.ip >= self.decoder.program.code.len() {
            proof {
                if self.decoder.index@ < self.decoder.instructions().len() {
                    lemma_offset_monotonic(self.decoder.instructions(), self.decoder.index@ + 1, self.decoder.instructions().len() as int);
                }
            }
            return Step::Halted;
        }
        let ghost ir = self.decoder.instructions();
        let ghost k = self.decoder.index@;
        let instruction = self.decoder.decode_instr();
        match instruction {
            Instruction::Halt => {
                return Step::Halted;
            },
            Instruction::Inc => self.tape.inc(),
            Instruction::Dec => self.tape.dec(),
            Instruction::Next => self.tape.next(),
            Instruction::Prev => self.tape.prev(),
            Instruction::Get => {
                return Step::Input;
            },
            Instruction::Put => {
                return Step::Output(self.tape.output());
            },
            Instruction::Jz(label) => {
                if self.tape.is_zero() {
                    let ghost t = ir[k]->Jz_0 as int;
                    proof {
                        lemma_jump_target(ir, k, t as usize);
                        assert(label == offset(ir, t));
                        assert(0 <= t < ir.len() && offset(ir, t) == label);
                    }
                    self.decoder.jump(label);
                    proof {
                        lemma_offset_injective(ir, self.decoder.index@, t);
                    }
                }
            },
            Instruction::Jnz(label) => {
                if !self.tape.is_zero() {
                    let ghost t = ir[k]->Jnz_0 as int;
                    proof {
                        lemma_jump_target(ir, k, t as usize);
                        assert(label == offset(ir, t));
                        assert(0 <= t < ir.len() && offset(ir, t) == label);
                    }
                    self.decoder.jump(label);
                    proof {
                        lemma_offset_injective(ir, self.decoder.index@, t);
                    }
                }
            },
        }
        Step::Running
    }

    /// Stores the outcome of the read that a `Get` asked for.
    pub fn feed(&mut self, input: Option<u8>)
        requires
            old(self).wf(),
        ensures
            final(self).wf(),
            final(self).instructions() == old(self).instructions(),
            final(self).config() == (old(self).config().0, old(self).config().1,
                fixed_input_cells(old(self).config().2, old(self).config().1, input)),
    {
        self.tape.input(input);
    }

    /// Runs for at most `max_steps` steps, reading from `input` (its end is
    /// the end of input) and collecting what is written.
    pub fn run(self, input: &[u8], max_steps: usize) -> (r: Outcome)
        requires
            self.wf(),
        ensures
            fixed_run_spec(self.instructions(), self.config(), input@, max_steps as nat) == (r.output@, r.halted),
    {
        let mut machine = self;
        let mut output: Vec<u8> = Vec::new();
        let mut pos: usize = 0;
        let mut left: usize = max_steps;
        proof {
            assert(input@.subrange(0, input@.len() as int) =~= input@);
            assert(output@ + fixed_run_spec(self.instructions(), self.config(), input@, max_steps as nat).0
                =~= fixed_run_spec(self.instructions(), self.config(), input@, max_steps as nat).0);
        }
        while left > 0
            invariant
                machine.wf(),
                machine.instructions() == self.instructions(),
                pos <= input@.len(),
                ({
                    let all = fixed_run_spec(self.instructions(), self.config(), input@, max_steps as nat);
                    let rest = fixed_run_spec(machine.instructions(), machine.config(), input@.subrange(pos as int, input@.len() as int), left as nat);
                    all == (output@ + rest.0, rest.1)
                }),
            decreases left,
        {
            let ghost rest = input@.subrange(pos as int, input@.len() as int);
            let stepped = machine.step();
            match stepped {
                Step::Halted => {
                    assert(output@ + Seq::<u8>::empty() =~= output@);
                    return Outcome { output, halted: true };
                },
                Step::Running => {},
                Step::Output(byte) => {
                    proof {
                        let tail = fixed_run_spec(machine.instructions(), machine.config(), rest, (left - 1) as nat);
                        assert(output@ + (seq![byte] + tail.0) =~= output@.push(byte) + tail.0);
                    }
                    output.push(byte);
                },
                Step::Input => {
                    let result = if pos < input.len() {
                        Some(input[pos])
                    } else {
                        None
                    };
                    machine.feed(result);
                    if pos < input.len() {
                        pos = pos + 1;
                        assert(input@.subrange(pos as int, input@.len() as int) =~= rest.drop_first());
                    }
                },
            }
            left = left - 1;
        }
        proof {
            assert(output@ + Seq::<u8>::empty() =~= output@);
        }
        Outcome { output, halted: false }
    }
}

/// The target of the jump at `k` is an instruction of the program, and its
/// offset lies inside the stream.
proof fn lemma_jump_target(code: Seq<Instruction>, k: int, t: usize)
    requires
        well_formed(code),
        0 <= k < code.len(),
        code[k] == Instruction::Jz(t) || code[k] == Instruction::Jnz(t),
    ensures
        t < code.len(),
        offset(code, t as int) <= encode_program(code).len(),
{
    assert(jumps_balanced(code));
    assert(t < code.len());
    lemma_offset_monotonic(code, t as int, code.len() as int);
    lemma_encode_prefix_len(code, code.len() as int);
}

/// Cell `h` of the growing tape lies in the window of `size` cells from `lo`.
pub open spec fn in_window(h: int, lo: int, size: int) -> bool {
    lo <= h < lo + size
}

/// The growing-tape configuration `g` and the fixed-tape configuration `f`
/// agree on the window of `f.2.len()` cells from `lo`: the fixed tape holds
/// cell `k` of the window at `k mod size`, and its cursor is the growing
/// cursor taken mod `size`.
pub open spec fn agree_in_window(g: Config, f: FixedConfig, lo: int) -> bool {
    let size = f.2.len() as int;
    &&& size > 0
    &&& g.0 == f.0
    &&& in_window(g.1, lo, size)
    &&& f.1 == g.1 % size
    &&& forall|k: int| #[trigger] in_window(k, lo, size) ==> (g.2)(k) == f.2[k % size]
}

/// Running `code` on the growing tape from `g` for `fuel` steps keeps every
/// cell it visits, including the second cell of each read, inside the
/// window of `size` cells from `lo`.
pub open spec fn visits_within(code: Seq<Instruction>, g: Config, input: Seq<u8>, fuel: nat, lo: int, size: int) -> bool
    decreases fuel,
{
    in_window(g.1, lo, size) && if fuel == 0 || !(0 <= g.0 < code.len()) {
        true
    } else {
        let next = step_spec(code, g);
        match code[g.0] {
            Instruction::Halt => true,
            Instruction::Get => in_window(g.1 + 1, lo, size) && if input.len() > 0 {
                visits_within(code, (next.0, next.1, input_cells(next.2, next.1, Some(input[0]))), input.drop_first(), (fuel - 1) as nat, lo, size)
            } else {
                visits_within(code, (next.0, next.1, input_cells(next.2, next.1, None)), input, (fuel - 1) as nat, lo, size)
            },
            _ => visits_within(code, next, input, (fuel - 1) as nat, lo, size),
        }
    }
}

proof fn lemma_mod_step(h: int, size: int)
    requires
        size > 0,
    ensures
        (h + 1) % size == wrap_next(h % size, size),
        (h - 1) % size == wrap_prev(h % size, size),
        0 <= h % size < size,
{
    let q = h / size;
    let r = h % size;
    vstd::arithmetic::div_mod::lemma_fundamental_div_mod(h, size);
    assert(0 <= r < size);
    if r + 1 < size {
        vstd::arithmetic::div_mod::lemma_fundamental_div_mod_converse(h + 1, size, q, r + 1);
    } else {
        assert(h + 1 == (q + 1) * size + 0) by (nonlinear_arith)
            requires
                h == size * q + r,
                r + 1 == size,
        ;
        vstd::arithmetic::div_mod::lemma_fundamental_div_mod_converse(h + 1, size, q + 1, 0);
    }
    if r > 0 {
        vstd::arithmetic::div_mod::lemma_fundamental_div_mod_converse(h - 1, size, q, r - 1);
    } else {
        assert(h - 1 == (q - 1) * size + (size - 1)) by (nonlinear_arith)
            requires
                h == size * q + r,
                r == 0,
        ;
        vstd::arithmetic::div_mod::lemma_fundamental_div_mod_converse(h - 1, size, q - 1, size - 1);
    }
}

proof fn lemma_window_mod_injective(a: int, b: int, lo: int, size: int)
    requires
        size > 0,
        in_window(a, lo, size),
        in_window(b, lo, size),
        a % size == b % size,
    ensures
        a == b,
{
    vstd::arithmetic::div_mod::lemma_fundamental_div_mod(a, size);
    vstd::arithmetic::div_mod::lemma_fundamental_div_mod(b, size);
    let qa = a / size;
    let qb = b / size;
    assert(qa == qb) by (nonlinear_arith)
        requires
            a == size * qa + a % size,
            b == size * qb + b % size,
            a % size == b % size,
            -size < a - b < size,
            size > 0,
    ;
}

/// On a well-formed program, from configurations that agree on a window of
/// the fixed tape's size, the growing tape and the fixed tape write the same
/// bytes and halt alike, as long as every cell the run visits stays in that
/// window: a program that uses at most `size` consecutive cells runs the same
/// on both tapes, wherever those cells lie.
pub proof fn lemma_tapes_agree_in_window(code: Seq<Instruction>, g: Config, f: FixedConfig, lo: int, input: Seq<u8>, fuel: nat)
    requires
        well_formed(code),
        0 <= g.0 < code.len(),
        agree_in_window(g, f, lo),
        visits_within(code, g, input, fuel, lo, f.2.len() as int),
    ensures
        run_spec(code, g, input, fuel) == Ok::<(Seq<u8>, bool), crate::interpreter::ControlError>(fixed_run_spec(code, f, input, fuel)),
    decreases fuel,
{
    let size = f.2.len() as int;
    if fuel > 0 {
        let k = g.0;
        let gn = step_spec(code, g);
        let fnext = fixed_step_spec(code, f);
        let head = g.1;
        lemma_mod_step(head, size);
        assert(in_window(head, lo, size));
        assert((g.2)(head) == f.2[head % size]);
        assert(jumps_balanced(code));
        if !(code[k] is Halt) {
            assert(k != code.len() - 1);
            assert(0 <= gn.0 < code.len());
            match code[k] {
                Instruction::Get => {
                    let c1 = (head + 1) % size;
                    assert(in_window(head + 1, lo, size));
                    let res = if input.len() > 0 { Some(input[0]) } else { None };
                    let g2 = (gn.0, gn.1, input_cells(gn.2, gn.1, res));
                    let f2 = (fnext.0, fnext.1, fixed_input_cells(fnext.2, fnext.1, res));
                    assert forall|j: int| #[trigger] in_window(j, lo, size) implies (g2.2)(j) == f2.2[j % size] by {
                        lemma_mod_step(j, size);
                        assert((g.2)(j) == f.2[j % size]);
                        if j != head {
                            if j % size == head % size {
                                lemma_window_mod_injective(j, head, lo, size);
                            }
                        }
                        if j != head + 1 {
                            if j % size == c1 {
                                assert(c1 == (head + 1) % size);
                                lemma_window_mod_injective(j, head + 1, lo, size);
                            }
                        }
                    }
                    if input.len() > 0 {
                        lemma_tapes_agree_in_window(code, g2, f2, lo, input.drop_first(), (fuel - 1) as nat);
                    } else {
                        lemma_tapes_agree_in_window(code, g2, f2, lo, input, (fuel - 1) as nat);
                    }
                },
                _ => {
                    assert forall|j: int| #[trigger] in_window(j, lo, size) implies (gn.2)(j) == fnext.2[j % size] by {
                        lemma_mod_step(j, size);
                        assert((g.2)(j) == f.2[j % size]);
                        if j != head && j % size == head % size {
                            lemma_window_mod_injective(j, head, lo, size);
                        }
                    }
                    assert(visits_within(code, gn, input, (fuel - 1) as nat, lo, size));
                    assert(in_window(gn.1, lo, size));
                    assert(fnext.2.len() == size);
                    assert(fnext.1 == gn.1 % size);
                    assert(gn.0 == fnext.0);
                    lemma_tapes_agree_in_window(code, gn, fnext, lo, input, (fuel - 1) as nat);
                },
            }
        }
    }
}

/// For the same source and the same input, the interpreter on the growing
/// tape and the one on a fixed tape of `size` cells, both started blank,
/// write the same bytes and halt alike, provided the cells the run visits
/// on the growing tape lie within `size` consecutive cells, from `lo` on.
pub proof fn lemma_interpreters_agree(start: Location, text: Seq<u8>, input: Seq<u8>, size: nat, lo: int, fuel: nat)
    requires
        parse_spec(start, text) is Ok,
        parse_spec(start, text)->Ok_0.len() <= usize::MAX,
        size > 0,
        visits_within(parse_spec(start, text)->Ok_0, (0, 0, |k: int| 0u8), input, fuel, lo, size as int),
    ensures
        run_spec(parse_spec(start, text)->Ok_0, (0, 0, |k: int| 0u8), input, fuel) == Ok::<(Seq<u8>, bool), crate::interpreter::ControlError>(
            fixed_run_spec(parse_spec(start, text)->Ok_0, (0, 0, Seq::new(size, |i: int| 0u8)), input, fuel),
        ),
{
    let code = parse_spec(start, text)->Ok_0;
    lemma_parse_well_formed(start, text);
    let g: Config = (0, 0, |k: int| 0u8);
    let f: FixedConfig = (0, 0, Seq::new(size, |i: int| 0u8));
    vstd::arithmetic::div_mod::lemma_small_mod(0, size);
    assert forall|k: int| #[trigger] in_window(k, lo, size as int) implies (g.2)(k) == f.2[k % (size as int)] by {
        vstd::arithmetic::div_mod::lemma_fundamental_div_mod(k, size as int);
    }
    lemma_tapes_agree_in_window(code, g, f, lo, input, fuel);
}

} // verus!
