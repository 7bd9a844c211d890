//! Just-in-time emitter: assembles an IR program into x86_64 machine code
//! in two passes. The first writes each instruction's template with four zero
//! bytes in place of every jump displacement; the second patches each
//! placeholder once all labels are known.
//!
//! The code keeps the interface pointer in `rbx`, the tape start in `r12`,
//! the tape length in `r13` and the cursor in `r14`, and calls the runtime
//! by absolute address.
use vstd::prelude::*;
use crate::interpreted::serialized::le32;
use crate::ir::{jumps_balanced, well_formed, Instruction, Program};

verus! {

/// Growth granularity of the tape that the runtime manages, in bytes.
pub const TAPE_CHUNK_SIZE: u32 = 8192;

/// Label slots of one IR instruction: 0 is its entry, 1 and 2 are targets
/// inside its code.
pub const SUB_LABELS: usize = 3;

/// Most IR instructions a program may have: each template takes under 128
/// bytes, so every displacement of the code fits in 32 bits.
pub const MAX_INSTRUCTIONS: usize = 0x100_0000;

/// Most bytes that one template writes.
pub const MAX_TEMPLATE: usize = 128;

/// Why a program could not be compiled just in time.
#[derive(Debug, Clone, Copy, PartialEq, Eq, Structural)]
pub enum Error {
    /// The target is not x86_64 Linux.
    UnsupportedTarget,
    /// A placeholder names a label that was never defined.
    BadLabelIndex(usize),
    /// The program has more than `MAX_INSTRUCTIONS` instructions.
    ProgramTooLarge,
    /// Executable memory could not be allocated; the OS error code.
    AllocError(i32),
    /// Executable memory could not be made executable; the OS error code.
    Permission(i32),
}

/// Absolute addresses of the runtime's entry points, which the code calls.
#[derive(Debug, Clone, Copy, PartialEq, Eq, Structural)]
pub struct Runtime {
    /// `create_tape() -> *mut u8`
    pub create_tape: u64,
    /// `destroy_tape(*mut u8)`
    pub destroy_tape: u64,
    /// `grow_next(*mut u8, usize) -> *mut u8`
    pub grow_next: u64,
    /// `grow_prev(*mut u8, usize) -> *mut u8`
    pub grow_prev: u64,
    /// `get(*mut Interface) -> i16`
    pub get: u64,
    /// `put(*mut Interface, u8) -> i8`
    pub put: u64,
}

/// The eight little-endian bytes of `v`.
pub open spec fn le64(v: u64) -> Seq<u8> {
    seq![
        (v & 0xff) as u8, ((v >> 8u64) & 0xff) as u8, ((v >> 16u64) & 0xff) as u8, ((v >> 24u64) & 0xff) as u8,
        ((v >> 32u64) & 0xff) as u8, ((v >> 40u64) & 0xff) as u8, ((v >> 48u64) & 0xff) as u8, ((v >> 56u64) & 0xff) as u8,
    ]
}

/// `movabs rax, addr; call rax`
pub open spec fn call_bytes(addr: u64) -> Seq<u8> {
    seq![0x48u8, 0xb8] + le64(addr) + seq![0xffu8, 0xd0]
}

/// The four zero bytes of a placeholder.
pub open spec fn hole() -> Seq<u8> {
    seq![0u8, 0, 0, 0]
}

/// Code of a template, its placeholders as (offset in the template, IR
/// label, sub-label), and the sub-labels it defines with their offsets.
pub type Template = (Seq<u8>, Seq<(int, int, int)>, Seq<(int, int)>);

/// Saves the registers, keeps the interface pointer, creates the tape.
pub open spec fn enter_template(last: int, rt: Runtime) -> Template {
    (
        seq![0x41u8, 0x56, 0x41, 0x55, 0x41, 0x54, 0x53, 0x48, 0x89, 0xfb, 0x4d, 0x31, 0xf6] + call_bytes(rt.create_tape)
            + seq![0x48u8, 0x85, 0xc0, 0x0f, 0x84] + hole() + seq![0x49u8, 0xc7, 0xc5] + le32(TAPE_CHUNK_SIZE)
            + seq![0x49u8, 0x89, 0xc4],
        seq![(30int, last, 1int)],
        seq![],
    )
}

/// Writes the status, frees the tape, restores the registers and returns.
/// Sub-label 1 is the error exit, sub-label 2 the common tail.
pub open spec fn leave_template(last: int, rt: Runtime) -> Template {
    (
        seq![0x45u8, 0x30, 0xf6, 0xe9] + hole() + seq![0x41u8, 0xb6, 0xff, 0x4c, 0x89, 0xe7] + call_bytes(rt.destroy_tape)
            + seq![0x44u8, 0x88, 0xf0, 0x5b, 0x41, 0x5c, 0x41, 0x5d, 0x41, 0x5e, 0xc3],
        seq![(4int, last, 2int)],
        seq![(1int, 8int), (2int, 11int)],
    )
}

/// Grows the tape forwards when the cell after the cursor lies past its end,
/// so that the cursor can move there and a two-cell record fits; sub-label 1
/// is where that room is known.
pub open spec fn guard_next_bytes(rt: Runtime) -> Seq<u8> {
    seq![0x49u8, 0x8d, 0x46, 0x01, 0x4c, 0x39, 0xe8, 0x0f, 0x85] + hole() + seq![0x4cu8, 0x89, 0xe7, 0x4c, 0x89, 0xee] + call_bytes(rt.grow_next)
        + seq![0x48u8, 0x85, 0xc0, 0x0f, 0x84] + hole() + seq![0x49u8, 0x89, 0xc4, 0x49, 0x81, 0xc5] + le32(TAPE_CHUNK_SIZE)
}

/// The template of one IR instruction at index `ir`; `last` is the index
/// past the program, which owns the exits.
pub open spec fn instruction_template(i: Instruction, ir: int, last: int, rt: Runtime) -> Template {
    match i {
        Instruction::Inc => (seq![0x43u8, 0xfe, 0x04, 0x34], seq![], seq![]),
        Instruction::Dec => (seq![0x43u8, 0xfe, 0x0c, 0x34], seq![], seq![]),
        Instruction::Next => (
            guard_next_bytes(rt) + seq![0x49u8, 0xff, 0xc6],
            seq![(9int, ir, 1int), (36int, last, 1int)],
            seq![(1int, 50int)],
        ),
        Instruction::Prev => (
            seq![0x4du8, 0x85, 0xf6, 0x0f, 0x85] + hole() + seq![0x4cu8, 0x89, 0xe7, 0x4c, 0x89, 0xee] + call_bytes(rt.grow_prev)
                + seq![0x48u8, 0x85, 0xc0, 0x0f, 0x84] + hole() + seq![0x49u8, 0x81, 0xc6] + le32(TAPE_CHUNK_SIZE)
                + seq![0x49u8, 0x89, 0xc4, 0x49, 0x81, 0xc5] + le32(TAPE_CHUNK_SIZE) + seq![0x49u8, 0xff, 0xce],
            seq![(5int, ir, 1int), (32int, last, 1int)],
            seq![(1int, 53int)],
        ),
        Instruction::Put => (
            seq![0x48u8, 0x89, 0xdf, 0x31, 0xc0, 0x43, 0x8a, 0x04, 0x34, 0x66, 0x89, 0xc6] + call_bytes(rt.put)
                + seq![0x84u8, 0xc0, 0x0f, 0x88] + hole(),
            seq![(28int, last, 1int)],
            seq![],
        ),
        Instruction::Get => (
            guard_next_bytes(rt) + seq![0x48u8, 0x89, 0xdf] + call_bytes(rt.get) + seq![0x66u8, 0x85, 0xc0, 0x0f, 0x88]
                + hole() + seq![0x66u8, 0xc1, 0xc8, 0x08, 0x66, 0x43, 0x89, 0x04, 0x34],
            seq![(9int, ir, 1int), (36int, last, 1int), (70int, last, 1int)],
            seq![(1int, 50int)],
        ),
        Instruction::Halt => (seq![0xe9u8] + hole(), seq![(1int, last, 0int)], seq![]),
        Instruction::Jz(t) => (seq![0x43u8, 0x8a, 0x04, 0x34, 0x84, 0xc0, 0x0f, 0x84] + hole(), seq![(8int, t as int, 0int)], seq![]),
        Instruction::Jnz(t) => (seq![0x43u8, 0x8a, 0x04, 0x34, 0x84, 0xc0, 0x0f, 0x85] + hole(), seq![(8int, t as int, 0int)], seq![]),
    }
}

/// Placeholders of a template written at `base`.
pub open spec fn shifted(holes: Seq<(int, int, int)>, base: int) -> Seq<(usize, usize, usize)> {
    Seq::new(holes.len(), |i: int| ((holes[i].0 + base) as usize, holes[i].1 as usize, holes[i].2 as usize))
}

/// Index of the slot of label `(ir, sub)`.
pub open spec fn slot(ir: int, sub: int) -> int {
    ir * SUB_LABELS + sub
}

/// `slots` after defining, for IR instruction `ir`, each sub-label of `defs`
/// at its offset past `base`.
pub open spec fn define_all(slots: Seq<Option<usize>>, ir: int, defs: Seq<(int, int)>, base: int) -> Seq<Option<usize>>
    decreases defs.len(),
{
    if defs.len() == 0 {
        slots
    } else {
        define_all(slots, ir, defs.drop_last(), base).update(slot(ir, defs.last().0), Some((base + defs.last().1) as usize))
    }
}

/// What the compiler holds: the code, the placeholders, the label slots.
pub type Assembly = (Seq<u8>, Seq<(usize, usize, usize)>, Seq<Option<usize>>);

/// `a` after writing template `t` for IR instruction `ir`.
pub open spec fn emit(a: Assembly, t: Template, ir: int) -> Assembly {
    (a.0 + t.0, a.1 + shifted(t.1, a.0.len() as int), define_all(a.2, ir, t.2, a.0.len() as int))
}

/// `a` with label `(ir, 0)` defined at the end of the code.
pub open spec fn define_main(a: Assembly, ir: int) -> Assembly {
    (a.0, a.1, a.2.update(slot(ir, 0), Some(a.0.len() as usize)))
}

/// The assembly once the entry code and the first `n` instructions of
/// `code` are written.
pub open spec fn assembled(code: Seq<Instruction>, n: int, rt: Runtime) -> Assembly
    decreases n,
{
    let last = code.len() as int;
    if n <= 0 {
        emit((Seq::empty(), Seq::empty(), Seq::new(((last + 1) * SUB_LABELS) as nat, |i: int| None)), enter_template(last, rt), last)
    } else {
        emit(define_main(assembled(code, n - 1, rt), n - 1), instruction_template(code[n - 1], n - 1, last, rt), n - 1)
    }
}

/// The assembly after the first pass over `code`.
pub open spec fn first_pass_spec(code: Seq<Instruction>, rt: Runtime) -> Assembly {
    let last = code.len() as int;
    emit(define_main(assembled(code, last, rt), last), leave_template(last, rt), last)
}

/// The label `(ir, sub)` in `slots`, if it was defined.
pub open spec fn label_of(slots: Seq<Option<usize>>, ir: int, sub: int) -> Option<usize> {
    if 0 <= sub < SUB_LABELS && 0 <= ir < slots.len() / (SUB_LABELS as nat) {
        slots[slot(ir, sub)]
    } else {
        None
    }
}

/// The displacement of a jump whose next instruction is at `from` to `to`,
/// as 32 bits.
pub open spec fn rel32(from: int, to: int) -> u32 {
    if to - from < 0 {
        (to - from + 0x1_0000_0000) as u32
    } else {
        (to - from) as u32
    }
}

/// `bytes` with the four bytes at `at` replaced by `v` in little-endian.
pub open spec fn patch(bytes: Seq<u8>, at: int, v: u32) -> Seq<u8> {
    bytes.subrange(0, at) + le32(v) + bytes.subrange(at + 4, bytes.len() as int)
}

/// The code once each placeholder of `holes` holds the displacement to its
/// label, or the first placeholder whose label is missing.
pub open spec fn resolve(bytes: Seq<u8>, holes: Seq<(usize, usize, usize)>, slots: Seq<Option<usize>>) -> Result<Seq<u8>, Error>
    decreases holes.len(),
{
    if holes.len() == 0 {
        Ok(bytes)
    } else {
        match resolve(bytes, holes.drop_last(), slots) {
            Err(e) => Err(e),
            Ok(done) => {
                let (at, ir, sub) = holes.last();
                match label_of(slots, ir as int, sub as int) {
                    None => Err(Error::BadLabelIndex(ir)),
                    Some(to) => Ok(patch(done, at as int, rel32(at + 4, to as int))),
                }
            },
        }
    }
}

/// The machine code of `code`, or why it has none.
pub open spec fn compile_spec(code: Seq<Instruction>, rt: Runtime) -> Result<Seq<u8>, Error> {
    if code.len() > MAX_INSTRUCTIONS {
        Err(Error::ProgramTooLarge)
    } else {
        let a = first_pass_spec(code, rt);
        resolve(a.0, a.1, a.2)
    }
}

/// Machine code being assembled, with its placeholders and labels.
#[derive(Debug, Clone)]
pub struct Compiler {
    buf: Vec<u8>,
    /// Each placeholder: its offset, then the IR label and sub-label it
    /// jumps to. Offsets grow in the order of the entries.
    placeholders: Vec<(usize, usize, usize)>,
    /// The offset of label `(ir, sub)` in slot `ir * SUB_LABELS + sub`.
    labels: Vec<Option<usize>>,
}

impl Compiler {
    /// The code, the placeholders and the label slots.
    pub closed spec fn view(&self) -> Assembly {
        (self.buf@, self.placeholders@, self.labels@)
    }

    /// Every placeholder lies inside the code, the placeholders are recorded
    /// in increasing order of offset without overlapping, and every label is
    /// an offset of the code.
    pub closed spec fn wf(&self) -> bool {
        &&& forall|i: int| 0 <= i < self.placeholders@.len() ==> #[trigger] self.placeholders@[i].0 + 4 <= self.buf@.len()
        &&& forall|i: int, j: int| 0 <= i < j < self.placeholders@.len() ==> #[trigger] self.placeholders@[i].0 + 4
            <= #[trigger] self.placeholders@[j].0
        &&& forall|i: int| 0 <= i < self.labels@.len() ==> (#[trigger] self.labels@[i] matches Some(v) ==> v <= self.buf@.len())
        &&& self.labels@.len() % (SUB_LABELS as nat) == 0
    }

    /// A compiler with nothing written.
    pub fn new() -> (r: Compiler)
        ensures
            r.wf(),
            r.view() == (Seq::<u8>::empty(), Seq::<(usize, usize, usize)>::empty(), Seq::<Option<usize>>::empty()),
    {
        Compiler { buf: Vec::new(), placeholders: Vec::new(), labels: Vec::new() }
    }

    /// Appends `bytes` to the code.
    pub fn write(&mut self, bytes: &[u8])
        requires
            old(self).wf(),
            old(self).view().0.len() + bytes@.len() <= usize::MAX,
        ensures
            final(self).wf(),
            final(self).view() == (old(self).view().0 + bytes@, old(self).view().1, old(self).view().2),
    {
        let mut i: usize = 0;
        while i < bytes.len()
            invariant
                i <= bytes@.len(),
                old(self).buf@.len() + bytes@.len() <= usize::MAX,
                self.buf@ == old(self).buf@ + bytes@.subrange(0, i as int),
                self.placeholders == old(self).placeholders,
                self.labels == old(self).labels,
                old(self).wf(),
            decreases bytes@.len() - i,
        {
            self.buf.push(bytes[i]);
            i = i + 1;
            assert(self.buf@ =~= old(self).buf@ + bytes@.subrange(0, i as int));
        }
        assert(bytes@.subrange(0, i as int) =~= bytes@);
    }

    /// Appends the little-endian bytes of `v`.
    fn write_u32(&mut self, v: u32)
        requires
            old(self).wf(),
            old(self).view().0.len() + 4 <= usize::MAX,
        ensures
            final(self).wf(),
            final(self).view() == (old(self).view().0 + le32(v), old(self).view().1, old(self).view().2),
    {
        let bytes = [(v & 0xff) as u8, ((v >> 8u32) & 0xff) as u8, ((v >> 16u32) & 0xff) as u8, ((v >> 24u32) & 0xff) as u8];
        assert(bytes@ =~= le32(v));
        self.write(&bytes);
    }

    /// Defines label `(ir, 0)` at the end of the code.
    pub fn def_main_label(&mut self, ir_label: usize)
        requires
            old(self).wf(),
            slot(ir_label as int, 0) < old(self).view().2.len(),
        ensures
            final(self).wf(),
            final(self).view() == define_main(old(self).view(), ir_label as int),
    {
        self.def_label(ir_label, 0);
    }

    /// Defines label `(ir, sub)` at the end of the code.
    pub fn def_label(&mut self, ir_label: usize, sub_label: usize)
        requires
            old(self).wf(),
            sub_label < SUB_LABELS,
            slot(ir_label as int, sub_label as int) < old(self).view().2.len(),
        ensures
            final(self).wf(),
            final(self).view() == (old(self).view().0, old(self).view().1,
                old(self).view().2.update(slot(ir_label as int, sub_label as int), Some(old(self).view().0.len() as usize))),
    {
        let at = self.buf.len();
        assert(self.labels@.len() == self.labels.len());
        self.labels.set(ir_label * SUB_LABELS + sub_label, Some(at));
    }

    /// Records a placeholder for a jump to `(ir, sub)` and writes its four
    /// zero bytes.
    pub fn make_placeholder(&mut self, ir_label: usize, sub_label: usize)
        requires
            old(self).wf(),
            old(self).view().0.len() + 4 <= usize::MAX,
        ensures
            final(self).wf(),
            final(self).view() == (old(self).view().0 + hole(), old(self).view().1.push((old(self).view().0.len() as usize, ir_label, sub_label)),
                old(self).view().2),
    {
        let at = self.buf.len();
        self.write(&[0, 0, 0, 0]);
        assert(self.buf@ == old(self).buf@ + seq![0u8, 0, 0, 0]);
        self.placeholders.push((at, ir_label, sub_label));
    }

    /// Calls the function at `func_ptr`.
    pub fn call_absolute(&mut self, func_ptr: u64)
        requires
            old(self).wf(),
            old(self).view().0.len() + 12 <= usize::MAX,
        ensures
            final(self).wf(),
            final(self).view() == (old(self).view().0 + call_bytes(func_ptr), old(self).view().1, old(self).view().2),
    {
        self.write(&[0x48, 0xb8]);
        let v = func_ptr;
        let bytes = [
            (v & 0xff) as u8, ((v >> 8u64) & 0xff) as u8, ((v >> 16u64) & 0xff) as u8, ((v >> 24u64) & 0xff) as u8,
            ((v >> 32u64) & 0xff) as u8, ((v >> 40u64) & 0xff) as u8, ((v >> 48u64) & 0xff) as u8, ((v >> 56u64) & 0xff) as u8,
        ];
        assert(bytes@ =~= le64(v));
        self.write(&bytes);
        self.write(&[0xff, 0xd0]);
        assert(self.buf@ =~= old(self).buf@ + call_bytes(func_ptr));
    }

    /// Gives every label of IR instructions `0 ..= last_ir_label` a slot,
    /// none of them defined yet.
    fn reserve_labels(&mut self, last_ir_label: usize)
        requires
            old(self).wf(),
            old(self).view().2.len() == 0,
            last_ir_label <= MAX_INSTRUCTIONS,
        ensures
            final(self).wf(),
            final(self).view() == (old(self).view().0, old(self).view().1,
                Seq::new(((last_ir_label + 1) * SUB_LABELS) as nat, |i: int| None::<usize>)),
    {
        let n = (last_ir_label + 1) * SUB_LABELS;
        let mut i: usize = 0;
        while i < n
            invariant
                i <= n,
                self.labels@ == Seq::new(i as nat, |j: int| None::<usize>),
                self.buf == old(self).buf,
                self.placeholders == old(self).placeholders,
                old(self).wf(),
            decreases n - i,
        {
            self.labels.push(None);
            i = i + 1;
            assert(self.labels@ =~= Seq::new(i as nat, |j: int| None::<usize>));
        }
    }

    /// `incb [r12 + r14]`.
    pub fn write_inc(&mut self)
        requires
            old(self).wf(),
            old(self).view().0.len() + MAX_TEMPLATE <= usize::MAX,
        ensures
            final(self).wf(),
            final(self).view() == (old(self).view().0 + seq![0x43u8, 0xfe, 0x04, 0x34], old(self).view().1, old(self).view().2),
    {
        // incb [r12 + r14]
        self.write(&[0x43, 0xfe, 0x04, 0x34]);
    }

    /// `decb [r12 + r14]`.
    pub fn write_dec(&mut self)
        requires
            old(self).wf(),
            old(self).view().0.len() + MAX_TEMPLATE <= usize::MAX,
        ensures
            final(self).wf(),
            final(self).view() == (old(self).view().0 + seq![0x43u8, 0xfe, 0x0c, 0x34], old(self).view().1, old(self).view().2),
    {
        // decb [r12 + r14]
        self.write(&[0x43, 0xfe, 0x0c, 0x34]);
    }

    /// The entry code: saves the registers, keeps the interface pointer and creates the tape.
    pub fn write_enter(&mut self, last_ir_label: usize, rt: Runtime)
        requires
            old(self).wf(),
            old(self).view().0.len() + MAX_TEMPLATE <= usize::MAX,
        ensures
            final(self).wf(),
            final(self).view() == emit(old(self).view(), enter_template(last_ir_label as int, rt), last_ir_label as int),
    {
        // push r14; push r13; push r12; push rbx; mov rbx, rdi; xor r14, r14
        self.write(&[0x41, 0x56, 0x41, 0x55, 0x41, 0x54, 0x53, 0x48, 0x89, 0xfb, 0x4d, 0x31, 0xf6]);
        self.call_absolute(rt.create_tape);
        // test rax, rax; je <error exit>
        self.write(&[0x48, 0x85, 0xc0, 0x0f, 0x84]);
        self.make_placeholder(last_ir_label, 1);
        // mov r13, imm32; mov r12, rax
        self.write(&[0x49, 0xc7, 0xc5]);
        self.write_u32(TAPE_CHUNK_SIZE);
        self.write(&[0x49, 0x89, 0xc4]);
        proof {
            let t = enter_template(last_ir_label as int, rt);
            assert(self.buf@ =~= old(self).buf@ + t.0);
            assert(self.placeholders@ =~= old(self).placeholders@ + shifted(t.1, old(self).buf@.len() as int));
        }
    }

    /// The exits at `ir_label`, the label past the program: the normal exit, the error exit, and the common tail that frees the tape and returns the status.
    pub fn write_leave(&mut self, ir_label: usize, rt: Runtime)
        requires
            old(self).wf(),
            old(self).view().0.len() + MAX_TEMPLATE <= usize::MAX,
            slot(ir_label as int, 2) < old(self).view().2.len(),
        ensures
            final(self).wf(),
            final(self).view() == emit(old(self).view(), leave_template(ir_label as int, rt), ir_label as int),
    {
        // xor r14b, r14b; jmp <common tail>
        self.write(&[0x45, 0x30, 0xf6, 0xe9]);
        self.make_placeholder(ir_label, 2);
        self.def_label(ir_label, 1);
        // mov r14b, -1
        self.write(&[0x41, 0xb6, 0xff]);
        self.def_label(ir_label, 2);
        // mov rdi, r12
        self.write(&[0x4c, 0x89, 0xe7]);
        self.call_absolute(rt.destroy_tape);
        // mov al, r14b; pop rbx; pop r12; pop r13; pop r14; ret
        self.write(&[0x44, 0x88, 0xf0, 0x5b, 0x41, 0x5c, 0x41, 0x5d, 0x41, 0x5e, 0xc3]);
        proof {
            let t = leave_template(ir_label as int, rt);
            assert(self.buf@ =~= old(self).buf@ + t.0);
            assert(self.placeholders@ =~= old(self).placeholders@ + shifted(t.1, old(self).buf@.len() as int));
            assert(t.2.drop_last().drop_last() =~= Seq::<(int, int)>::empty());
            assert(t.2.drop_last() =~= seq![(1int, 8int)]);
            reveal_with_fuel(define_all, 3);
        }
    }

    /// The guard of `>` and `,`: grows the tape when the cell after the
    /// cursor lies past its end. The caller defines sub-label 1 after it.
    fn write_guard_next(&mut self, ir_label: usize, last_ir_label: usize, rt: Runtime)
        requires
            old(self).wf(),
            old(self).view().0.len() + MAX_TEMPLATE <= usize::MAX,
        ensures
            final(self).wf(),
            final(self).view() == (old(self).view().0 + guard_next_bytes(rt),
                old(self).view().1 + shifted(seq![(9int, ir_label as int, 1int), (36int, last_ir_label as int, 1int)], old(self).view().0.len() as int),
                old(self).view().2),
    {
        // lea rax, [r14 + 1]; cmp rax, r13; jne <room>
        self.write(&[0x49, 0x8d, 0x46, 0x01, 0x4c, 0x39, 0xe8, 0x0f, 0x85]);
        self.make_placeholder(ir_label, 1);
        // mov rdi, r12; mov rsi, r13
        self.write(&[0x4c, 0x89, 0xe7, 0x4c, 0x89, 0xee]);
        self.call_absolute(rt.grow_next);
        // test rax, rax; je <error exit>
        self.write(&[0x48, 0x85, 0xc0, 0x0f, 0x84]);
        self.make_placeholder(last_ir_label, 1);
        // mov r12, rax; add r13, imm32
        self.write(&[0x49, 0x89, 0xc4, 0x49, 0x81, 0xc5]);
        self.write_u32(TAPE_CHUNK_SIZE);
        proof {
            assert(self.buf@ =~= old(self).buf@ + guard_next_bytes(rt));
            assert(self.placeholders@ =~= old(self).placeholders@
                + shifted(seq![(9int, ir_label as int, 1int), (36int, last_ir_label as int, 1int)], old(self).buf@.len() as int));
        }
    }

    /// `>`: grows the tape when the cursor is at its end, then moves the cursor.
    pub fn write_next(&mut self, ir_label: usize, last_ir_label: usize, rt: Runtime)
        requires
            old(self).wf(),
            old(self).view().0.len() + MAX_TEMPLATE <= usize::MAX,
            slot(ir_label as int, 1) < old(self).view().2.len(),
        ensures
            final(self).wf(),
            final(self).view() == emit(old(self).view(), instruction_template(Instruction::Next, ir_label as int, last_ir_label as int, rt), ir_label as int),
    {
        self.write_guard_next(ir_label, last_ir_label, rt);
        self.def_label(ir_label, 1);
        // inc r14
        self.write(&[0x49, 0xff, 0xc6]);
        proof {
            let t = instruction_template(Instruction::Next, ir_label as int, last_ir_label as int, rt);
            assert(self.buf@ =~= old(self).buf@ + t.0);
            assert(t.2.drop_last() =~= Seq::<(int, int)>::empty());
            reveal_with_fuel(define_all, 2);
        }
    }

    /// `<`: grows the tape backwards when the cursor is at its start, then moves the cursor.
    #[verifier::rlimit(40)]
    pub fn write_prev(&mut self, ir_label: usize, last_ir_label: usize, rt: Runtime)
        requires
            old(self).wf(),
            old(self).view().0.len() + MAX_TEMPLATE <= usize::MAX,
            slot(ir_label as int, 1) < old(self).view().2.len(),
        ensures
            final(self).wf(),
            final(self).view() == emit(old(self).view(), instruction_template(Instruction::Prev, ir_label as int, last_ir_label as int, rt), ir_label as int),
    {
        // test r14, r14; jne <room>
        self.write(&[0x4d, 0x85, 0xf6, 0x0f, 0x85]);
        self.make_placeholder(ir_label, 1);
        // mov rdi, r12; mov rsi, r13
        self.write(&[0x4c, 0x89, 0xe7, 0x4c, 0x89, 0xee]);
        self.call_absolute(rt.grow_prev);
        // test rax, rax; je <error exit>
        self.write(&[0x48, 0x85, 0xc0, 0x0f, 0x84]);
        self.make_placeholder(last_ir_label, 1);
        // add r14, imm32
        self.write(&[0x49, 0x81, 0xc6]);
        self.write_u32(TAPE_CHUNK_SIZE);
        // mov r12, rax; add r13, imm32
        self.write(&[0x49, 0x89, 0xc4, 0x49, 0x81, 0xc5]);
        self.write_u32(TAPE_CHUNK_SIZE);
        self.def_label(ir_label, 1);
        // dec r14
        self.write(&[0x49, 0xff, 0xce]);
        proof {
            let t = instruction_template(Instruction::Prev, ir_label as int, last_ir_label as int, rt);
            assert(self.buf@ =~= old(self).buf@ + t.0);
            assert(self.placeholders@ =~= old(self).placeholders@ + shifted(t.1, old(self).buf@.len() as int));
            assert(t.2.drop_last() =~= Seq::<(int, int)>::empty());
            reveal_with_fuel(define_all, 2);
        }
    }

    /// `.`: calls the runtime to write the current cell.
    pub fn write_put(&mut self, last_ir_label: usize, rt: Runtime)
        requires
            old(self).wf(),
            old(self).view().0.len() + MAX_TEMPLATE <= usize::MAX,
        ensures
            final(self).wf(),
            forall|ir: int| final(self).view() == #[trigger] emit(old(self).view(), instruction_template(Instruction::Put, ir, last_ir_label as int, rt), ir),
    {
        // mov rdi, rbx; xor eax, eax; mov al, [r12 + r14]; mov si, ax
        self.write(&[0x48, 0x89, 0xdf, 0x31, 0xc0, 0x43, 0x8a, 0x04, 0x34, 0x66, 0x89, 0xc6]);
        self.call_absolute(rt.put);
        // test al, al; js <error exit>
        self.write(&[0x84, 0xc0, 0x0f, 0x88]);
        self.make_placeholder(last_ir_label, 1);
        proof {
            let t = instruction_template(Instruction::Put, 0, last_ir_label as int, rt);
            assert(self.buf@ =~= old(self).buf@ + t.0);
            assert(self.placeholders@ =~= old(self).placeholders@ + shifted(t.1, old(self).buf@.len() as int));
        }
    }

    /// `,`: makes room for the two-cell record, calls the runtime to read, and stores flag and byte in one 16-bit write.
    pub fn write_get(&mut self, ir_label: usize, last_ir_label: usize, rt: Runtime)
        requires
            old(self).wf(),
            old(self).view().0.len() + MAX_TEMPLATE <= usize::MAX,
            slot(ir_label as int, 1) < old(self).view().2.len(),
        ensures
            final(self).wf(),
            final(self).view() == emit(old(self).view(), instruction_template(Instruction::Get, ir_label as int, last_ir_label as int, rt), ir_label as int),
    {
        self.write_guard_next(ir_label, last_ir_label, rt);
        self.def_label(ir_label, 1);
        // mov rdi, rbx
        self.write(&[0x48, 0x89, 0xdf]);
        self.call_absolute(rt.get);
        // test ax, ax; js <error exit>
        self.write(&[0x66, 0x85, 0xc0, 0x0f, 0x88]);
        self.make_placeholder(last_ir_label, 1);
        // ror ax, 8; mov [r12 + r14], ax
        self.write(&[0x66, 0xc1, 0xc8, 0x08, 0x66, 0x43, 0x89, 0x04, 0x34]);
        proof {
            let t = instruction_template(Instruction::Get, ir_label as int, last_ir_label as int, rt);
            assert(self.buf@ =~= old(self).buf@ + t.0);
            assert(self.placeholders@ =~= old(self).placeholders@ + shifted(t.1, old(self).buf@.len() as int));
            assert(t.2.drop_last() =~= Seq::<(int, int)>::empty());
            reveal_with_fuel(define_all, 2);
        }
    }

    /// `Halt`: jumps to the normal exit.
    pub fn write_halt(&mut self, last_ir_label: usize)
        requires
            old(self).wf(),
            old(self).view().0.len() + MAX_TEMPLATE <= usize::MAX,
        ensures
            final(self).wf(),
            forall|ir: int, rt: Runtime| final(self).view() == #[trigger] emit(old(self).view(), instruction_template(Instruction::Halt, ir, last_ir_label as int, rt), ir),
    {
        // jmp <normal exit>
        self.write(&[0xe9]);
        self.make_placeholder(last_ir_label, 0);
        proof {
            let t = instruction_template(Instruction::Halt, 0, last_ir_label as int, Runtime { create_tape: 0, destroy_tape: 0, grow_next: 0, grow_prev: 0, get: 0, put: 0 });
            assert(self.buf@ =~= old(self).buf@ + t.0);
            assert(self.placeholders@ =~= old(self).placeholders@ + shifted(t.1, old(self).buf@.len() as int));
        }
    }

    /// `[`: jumps to the target when the current cell is zero.
    pub fn write_jz(&mut self, target_ir_label: usize)
        requires
            old(self).wf(),
            old(self).view().0.len() + MAX_TEMPLATE <= usize::MAX,
        ensures
            final(self).wf(),
            forall|ir: int, last: int, rt: Runtime| final(self).view() == #[trigger] emit(old(self).view(),
                instruction_template(Instruction::Jz(target_ir_label), ir, last, rt), ir),
    {
        // mov al, [r12 + r14]; test al, al; je <target>
        self.write(&[0x43, 0x8a, 0x04, 0x34, 0x84, 0xc0, 0x0f, 0x84]);
        self.make_placeholder(target_ir_label, 0);
        proof {
            let t = instruction_template(Instruction::Jz(target_ir_label), 0, 0, Runtime { create_tape: 0, destroy_tape: 0, grow_next: 0, grow_prev: 0, get: 0, put: 0 });
            assert(self.buf@ =~= old(self).buf@ + t.0);
            assert(self.placeholders@ =~= old(self).placeholders@ + shifted(t.1, old(self).buf@.len() as int));
        }
    }

    /// `]`: jumps to the target when the current cell is not zero.
    pub fn write_jnz(&mut self, target_ir_label: usize)
        requires
            old(self).wf(),
            old(self).view().0.len() + MAX_TEMPLATE <= usize::MAX,
        ensures
            final(self).wf(),
            forall|ir: int, last: int, rt: Runtime| final(self).view() == #[trigger] emit(old(self).view(),
                instruction_template(Instruction::Jnz(target_ir_label), ir, last, rt), ir),
    {
        // mov al, [r12 + r14]; test al, al; jne <target>
        self.write(&[0x43, 0x8a, 0x04, 0x34, 0x84, 0xc0, 0x0f, 0x85]);
        self.make_placeholder(target_ir_label, 0);
        proof {
            let t = instruction_template(Instruction::Jnz(target_ir_label), 0, 0, Runtime { create_tape: 0, destroy_tape: 0, grow_next: 0, grow_prev: 0, get: 0, put: 0 });
            assert(self.buf@ =~= old(self).buf@ + t.0);
            assert(self.placeholders@ =~= old(self).placeholders@ + shifted(t.1, old(self).buf@.len() as int));
        }
    }

    /// Writes the template of `instr`, the instruction at `ir_label`.
    pub fn handle_instruction(&mut self, ir_label: usize, instr: Instruction, last_ir_label: usize, rt: Runtime)
        requires
            old(self).wf(),
            old(self).view().0.len() + MAX_TEMPLATE <= usize::MAX,
            slot(ir_label as int, 1) < old(self).view().2.len(),
        ensures
            final(self).wf(),
            final(self).view() == emit(old(self).view(), instruction_template(instr, ir_label as int, last_ir_label as int, rt), ir_label as int),
    {
        match instr {
            Instruction::Inc => self.write_inc(),
            Instruction::Dec => self.write_dec(),
            Instruction::Next => self.write_next(ir_label, last_ir_label, rt),
            Instruction::Prev => self.write_prev(ir_label, last_ir_label, rt),
            Instruction::Get => self.write_get(ir_label, last_ir_label, rt),
            Instruction::Put => self.write_put(last_ir_label, rt),
            Instruction::Jz(target_ir_label) => self.write_jz(target_ir_label),
            Instruction::Jnz(target_ir_label) => self.write_jnz(target_ir_label),
            Instruction::Halt => self.write_halt(last_ir_label),
        }
        proof {
            let t = instruction_template(instr, ir_label as int, last_ir_label as int, rt);
            assert(shifted(t.1, old(self).view().0.len() as int) =~= Seq::<(usize, usize, usize)>::empty() ==> old(self).view().1 + shifted(t.1, old(self).view().0.len() as int) =~= old(self).view().1);
            if instr is Inc || instr is Dec {
                assert(shifted(t.1, old(self).view().0.len() as int) =~= Seq::<(usize, usize, usize)>::empty());
                assert(old(self).view().1 + shifted(t.1, old(self).view().0.len() as int) =~= old(self).view().1);
            }
        }
    }

    /// Writes the entry code, every instruction's template, and the exits,
    /// leaving each jump displacement as a placeholder.
    pub fn first_pass(&mut self, program: &Program, rt: Runtime)
        requires
            old(self).wf(),
            old(self).view() == (Seq::<u8>::empty(), Seq::<(usize, usize, usize)>::empty(), Seq::<Option<usize>>::empty()),
            program.code@.len() <= MAX_INSTRUCTIONS,
        ensures
            final(self).wf(),
            final(self).view() == first_pass_spec(program.code@, rt),
            final(self).view().0.len() <= MAX_TEMPLATE * (program.code@.len() + 2),
    {
        let last_ir_label = program.code.len();
        self.reserve_labels(last_ir_label);
        self.write_enter(last_ir_label, rt);
        let ghost code = program.code@;
        let mut ir_label: usize = 0;
        while ir_label < last_ir_label
            invariant
                last_ir_label == code.len(),
                code.len() <= MAX_INSTRUCTIONS,
                code == program.code@,
                ir_label <= last_ir_label,
                self.wf(),
                self.view() == assembled(code, ir_label as int, rt),
                self.view().0.len() <= MAX_TEMPLATE * (ir_label + 1),
                self.view().2.len() == (last_ir_label + 1) * SUB_LABELS,
            decreases last_ir_label - ir_label,
        {
            self.def_main_label(ir_label);
            let ghost before = self.view();
            self.handle_instruction(ir_label, program.code[ir_label], last_ir_label, rt);
            proof {
                lemma_define_all_len(before.2, ir_label as int, instruction_template(code[ir_label as int], ir_label as int, last_ir_label as int, rt).2, before.0.len() as int);
            }
            ir_label = ir_label + 1;
        }
        self.def_main_label(last_ir_label);
        self.write_leave(last_ir_label, rt);
    }

    /// Writes into every placeholder the displacement from the end of the
    /// placeholder to its label.
    pub fn second_pass(&mut self) -> (r: Result<(), Error>)
        requires
            old(self).wf(),
            old(self).view().0.len() + 4 <= u32::MAX,
        ensures
            match resolve(old(self).view().0, old(self).view().1, old(self).view().2) {
                Ok(code) => r is Ok && final(self).view().0 == code,
                Err(e) => r == Err::<(), Error>(e),
            },
    {
        let ghost start = self.buf@;
        let mut i: usize = 0;
        proof {
            assert(old(self).placeholders@.subrange(0, 0) =~= Seq::<(usize, usize, usize)>::empty());
        }
        while i < self.placeholders.len()
            invariant
                i <= self.placeholders@.len(),
                self.placeholders == old(self).placeholders,
                self.labels == old(self).labels,
                self.buf@.len() == start.len(),
                start == old(self).buf@,
                old(self).wf(),
                start.len() + 4 <= u32::MAX,
                resolve(start, self.placeholders@.subrange(0, i as int), self.labels@) == Ok::<Seq<u8>, Error>(self.buf@),
            decreases self.placeholders@.len() - i,
        {
            let (at, ir_label, sub_label) = self.placeholders[i];
            let ghost holes = self.placeholders@.subrange(0, i as int + 1);
            proof {
                assert(holes.drop_last() =~= self.placeholders@.subrange(0, i as int));
                assert(holes.last() == self.placeholders@[i as int]);
                assert(at + 4 <= start.len());
            }
            let found = if sub_label < SUB_LABELS && ir_label < self.labels.len() / SUB_LABELS {
                self.labels[ir_label * SUB_LABELS + sub_label]
            } else {
                None
            };
            let label = match found {
                None => {
                    proof {
                        lemma_resolve_error_persists(start, self.placeholders@, i as int + 1, self.labels@);
                        assert(self.placeholders@.subrange(0, self.placeholders@.len() as int) =~= self.placeholders@);
                    }
                    return Err(Error::BadLabelIndex(ir_label));
                },
                Some(label) => label,
            };
            let from = (at + 4) as u32;
            let to = label as u32;
            let distance = to.wrapping_sub(from);
            let ghost before = self.buf@;
            self.buf.set(at, (distance & 0xff) as u8);
            self.buf.set(at + 1, ((distance >> 8u32) & 0xff) as u8);
            self.buf.set(at + 2, ((distance >> 16u32) & 0xff) as u8);
            self.buf.set(at + 3, ((distance >> 24u32) & 0xff) as u8);
            proof {
                assert(distance == rel32(at + 4, label as int));
                assert(self.buf@ =~= patch(before, at as int, distance));
            }
            i = i + 1;
        }
        proof {
            assert(self.placeholders@.subrange(0, i as int) =~= self.placeholders@);
        }
        Ok(())
    }
}

/// Defining labels keeps the number of slots.
proof fn lemma_define_all_len(slots: Seq<Option<usize>>, ir: int, defs: Seq<(int, int)>, base: int)
    requires
        forall|k: int| 0 <= k < defs.len() ==> 0 <= #[trigger] slot(ir, defs[k].0) < slots.len(),
    ensures
        define_all(slots, ir, defs, base).len() == slots.len(),
    decreases defs.len(),
{
    if defs.len() > 0 {
        assert forall|k: int| 0 <= k < defs.drop_last().len() implies 0 <= #[trigger] slot(ir, defs.drop_last()[k].0) < slots.len() by {
            assert(defs.drop_last()[k] == defs[k]);
        }
        lemma_define_all_len(slots, ir, defs.drop_last(), base);
    }
}

/// Once a placeholder cannot be resolved, neither can any longer list.
proof fn lemma_resolve_error_persists(bytes: Seq<u8>, holes: Seq<(usize, usize, usize)>, n: int, slots: Seq<Option<usize>>)
    requires
        0 <= n <= holes.len(),
        resolve(bytes, holes.subrange(0, n), slots) is Err,
    ensures
        resolve(bytes, holes, slots) == resolve(bytes, holes.subrange(0, n), slots),
    decreases holes.len() - n,
{
    if n < holes.len() {
        assert(holes.subrange(0, n + 1).drop_last() =~= holes.subrange(0, n));
        lemma_resolve_error_persists(bytes, holes, n + 1, slots);
    } else {
        assert(holes.subrange(0, n) =~= holes);
    }
}

/// Assembles `program` into machine code that calls the runtime at the
/// addresses of `rt`.
pub fn assemble(program: &Program, rt: Runtime) -> (r: Result<Vec<u8>, Error>)
    ensures
        compile_spec(program.code@, rt) == match r {
            Ok(code) => Ok(code@),
            Err(e) => Err(e),
        },
        well_formed(program.code@) && program.code@.len() <= MAX_INSTRUCTIONS ==> r is Ok,
{
    proof {
        if well_formed(program.code@) && program.code@.len() <= MAX_INSTRUCTIONS {
            lemma_well_formed_compiles(program.code@, rt);
        }
    }
    if program.code.len() > MAX_INSTRUCTIONS {
        return Err(Error::ProgramTooLarge);
    }
    let mut compiler = Compiler::new();
    compiler.first_pass(program, rt);
    match compiler.second_pass() {
        Ok(()) => Ok(compiler.buf),
        Err(e) => Err(e),
    }
}


/// A label that the first pass over `code` defines: every instruction's
/// entry and the one past the last, sub-label 1 of each `>`, `<` and `,`,
/// and the two exits.
pub open spec fn defined_label(code: Seq<Instruction>, ir: int, sub: int) -> bool {
    ||| sub == 0 && 0 <= ir <= code.len()
    ||| sub == 1 && ir == code.len()
    ||| sub == 1 && 0 <= ir < code.len() && (code[ir] is Next || code[ir] is Prev || code[ir] is Get)
    ||| sub == 2 && ir == code.len()
}

proof fn lemma_define_all_keeps(slots: Seq<Option<usize>>, ir: int, defs: Seq<(int, int)>, base: int, j: int)
    requires
        0 <= j < slots.len(),
        slots[j] is Some || exists|k: int| 0 <= k < defs.len() && slot(ir, #[trigger] defs[k].0) == j,
        forall|k: int| 0 <= k < defs.len() ==> 0 <= #[trigger] slot(ir, defs[k].0) < slots.len(),
    ensures
        define_all(slots, ir, defs, base)[j] is Some,
    decreases defs.len(),
{
    if defs.len() > 0 {
        let rest = defs.drop_last();
        lemma_define_all_len(slots, ir, rest, base);
        if slot(ir, defs.last().0) != j {
            if slots[j] is None {
                let k = choose|k: int| 0 <= k < defs.len() && slot(ir, #[trigger] defs[k].0) == j;
                assert(k != defs.len() - 1);
                assert(rest[k] == defs[k]);
            }
            assert forall|k: int| 0 <= k < rest.len() implies 0 <= #[trigger] slot(ir, rest[k].0) < slots.len() by {
                assert(rest[k] == defs[k]);
            }
            lemma_define_all_keeps(slots, ir, rest, base, j);
        }
    }
}

/// After the entry code and `n` instructions, the slots have room for every
/// label, and the entry of each instruction written, with sub-label 1 of
/// each `>`, `<` and `,` among them, is defined; every placeholder names a
/// label that the whole pass defines.
proof fn lemma_assembled_labels(code: Seq<Instruction>, n: int, rt: Runtime)
    requires
        well_formed(code),
        code.len() <= MAX_INSTRUCTIONS,
        0 <= n <= code.len(),
    ensures
        assembled(code, n, rt).2.len() == (code.len() + 1) * SUB_LABELS,
        forall|i: int| 0 <= i < n ==> (#[trigger] assembled(code, n, rt).2[slot(i, 0)]) is Some,
        forall|i: int| 0 <= i < n && (code[i] is Next || code[i] is Prev || code[i] is Get) ==> (#[trigger] assembled(code, n, rt).2[slot(i, 1)]) is Some,
        forall|h: int| 0 <= h < assembled(code, n, rt).1.len() ==> defined_label(code,
            (#[trigger] assembled(code, n, rt).1[h]).1 as int, assembled(code, n, rt).1[h].2 as int),
    decreases n,
{
    let last = code.len() as int;
    let a = assembled(code, n, rt);
    if n == 0 {
        let t = enter_template(last, rt);
        let empty: Seq<(usize, usize, usize)> = Seq::empty();
        assert(a.1 =~= empty + shifted(t.1, t.0.len() as int - t.0.len() as int));
    } else {
        lemma_assembled_labels(code, n - 1, rt);
        let prev = assembled(code, n - 1, rt);
        let m = define_main(prev, n - 1);
        let t = instruction_template(code[n - 1], n - 1, last, rt);
        assert forall|k: int| 0 <= k < t.2.len() implies 0 <= #[trigger] slot(n - 1, t.2[k].0) < m.2.len() by {}
        lemma_define_all_len(m.2, n - 1, t.2, m.0.len() as int);
        assert forall|i: int| 0 <= i < n implies (#[trigger] a.2[slot(i, 0)]) is Some by {
            lemma_define_all_keeps(m.2, n - 1, t.2, m.0.len() as int, slot(i, 0));
        }
        assert forall|i: int| 0 <= i < n && (code[i] is Next || code[i] is Prev || code[i] is Get) implies (#[trigger] a.2[slot(i, 1)]) is Some by {
            if i == n - 1 {
                assert(slot(n - 1, t.2[0].0) == slot(i, 1));
            }
            lemma_define_all_keeps(m.2, n - 1, t.2, m.0.len() as int, slot(i, 1));
        }
        assert forall|h: int| 0 <= h < a.1.len() implies defined_label(code, (#[trigger] a.1[h]).1 as int, a.1[h].2 as int) by {
            if h >= prev.1.len() {
                let k = h - prev.1.len();
                assert(a.1[h] == shifted(t.1, m.0.len() as int)[k]);
                match code[n - 1] {
                    Instruction::Jz(target) | Instruction::Jnz(target) => {
                        assert(jumps_balanced(code));
                        assert(target < code.len());
                    },
                    _ => {},
                }
            } else {
                assert(a.1[h] == prev.1[h]);
            }
        }
    }
}

/// Every placeholder whose label is defined can be resolved.
proof fn lemma_resolve_ok(bytes: Seq<u8>, holes: Seq<(usize, usize, usize)>, slots: Seq<Option<usize>>)
    requires
        forall|h: int| 0 <= h < holes.len() ==> label_of(slots, (#[trigger] holes[h]).1 as int, holes[h].2 as int) is Some,
    ensures
        resolve(bytes, holes, slots) is Ok,
    decreases holes.len(),
{
    if holes.len() > 0 {
        let rest = holes.drop_last();
        assert forall|h: int| 0 <= h < rest.len() implies label_of(slots, (#[trigger] rest[h]).1 as int, rest[h].2 as int) is Some by {
            assert(rest[h] == holes[h]);
        }
        lemma_resolve_ok(bytes, rest, slots);
        assert(label_of(slots, holes[holes.len() - 1].1 as int, holes[holes.len() - 1].2 as int) is Some);
    }
}

/// Every program the parser produces can be compiled just in time: each
/// jump and each exit lands on a label that the first pass defines, so no
/// placeholder is left unresolved.
pub proof fn lemma_well_formed_compiles(code: Seq<Instruction>, rt: Runtime)
    requires
        well_formed(code),
        code.len() <= MAX_INSTRUCTIONS,
    ensures
        compile_spec(code, rt) is Ok,
{
    let last = code.len() as int;
    lemma_assembled_labels(code, last, rt);
    let a = assembled(code, last, rt);
    let m = define_main(a, last);
    let t = leave_template(last, rt);
    let f = first_pass_spec(code, rt);
    assert forall|k: int| 0 <= k < t.2.len() implies 0 <= #[trigger] slot(last, t.2[k].0) < m.2.len() by {}
    lemma_define_all_len(m.2, last, t.2, m.0.len() as int);
    assert(f.2.len() / (SUB_LABELS as nat) == last + 1) by (nonlinear_arith)
        requires
            f.2.len() == (last + 1) * SUB_LABELS,
    ;
    assert forall|ir: int, sub: int| defined_label(code, ir, sub) implies #[trigger] label_of(f.2, ir, sub) is Some by {
        if sub == 0 {
            if ir == last {
                lemma_define_all_keeps(m.2, last, t.2, m.0.len() as int, slot(ir, 0));
            } else {
                lemma_define_all_keeps(m.2, last, t.2, m.0.len() as int, slot(ir, 0));
            }
        } else if ir == last {
            assert(slot(last, t.2[sub - 1].0) == slot(ir, sub));
            lemma_define_all_keeps(m.2, last, t.2, m.0.len() as int, slot(ir, sub));
        } else {
            lemma_define_all_keeps(m.2, last, t.2, m.0.len() as int, slot(ir, sub));
        }
    }
    assert forall|h: int| 0 <= h < f.1.len() implies label_of(f.2, (#[trigger] f.1[h]).1 as int, f.1[h].2 as int) is Some by {
        if h < a.1.len() {
            assert(f.1[h] == a.1[h]);
        } else {
            assert(f.1[h] == shifted(t.1, m.0.len() as int)[h - a.1.len()]);
        }
        assert(defined_label(code, f.1[h].1 as int, f.1[h].2 as int));
    }
    lemma_resolve_ok(f.0, f.1, f.2);
}

} // verus!
