//! Ahead-of-time emitter: expands each IR instruction into an assembly
//! snippet, labelled by its index, so that a system C compiler can assemble
//! and link the program against a small runtime.
use vstd::prelude::*;
use crate::ir::{Instruction, Program};

verus! {

/// The assembly text of each part of a program. A snippet names the local
/// label it needs by its marker (`next_marker` and the like); each use gets
/// the instruction's index appended so that labels do not collide. The jump
/// snippets name their target by their marker, which becomes `.label_<N>`.
#[derive(Debug, Clone)]
pub struct Templates {
    pub preamble: Vec<u8>,
    pub enter: Vec<u8>,
    pub leave: Vec<u8>,
    pub halt: Vec<u8>,
    pub inc: Vec<u8>,
    pub dec: Vec<u8>,
    pub next: Vec<u8>,
    pub prev: Vec<u8>,
    pub get: Vec<u8>,
    pub put: Vec<u8>,
    pub jz: Vec<u8>,
    pub jnz: Vec<u8>,
    /// The local label of `next`, such as `.growed_next`.
    pub next_marker: Vec<u8>,
    /// The local label of `prev`.
    pub prev_marker: Vec<u8>,
    /// The local label of `get`.
    pub get_marker: Vec<u8>,
    /// The target of `jz`.
    pub jz_marker: Vec<u8>,
    /// The target of `jnz`.
    pub jnz_marker: Vec<u8>,
}

/// The decimal digits of `n`.
pub open spec fn decimal(n: nat) -> Seq<u8>
    decreases n,
{
    if n < 10 {
        seq![(48 + n) as u8]
    } else {
        decimal(n / 10).push((48 + n % 10) as u8)
    }
}

/// `text` with every occurrence of `pattern`, from left to right and not
/// overlapping, replaced by `with`.
pub open spec fn replace_all(text: Seq<u8>, pattern: Seq<u8>, with: Seq<u8>) -> Seq<u8>
    decreases text.len(),
{
    if pattern.len() == 0 || text.len() < pattern.len() {
        text
    } else if text.subrange(0, pattern.len() as int) == pattern {
        with + replace_all(text.subrange(pattern.len() as int, text.len() as int), pattern, with)
    } else {
        seq![text[0]] + replace_all(text.subrange(1, text.len() as int), pattern, with)
    }
}

/// The bytes `.label_`.
pub open spec fn label_prefix() -> Seq<u8> {
    seq![0x2eu8, 0x6c, 0x61, 0x62, 0x65, 0x6c, 0x5f]
}

/// The label of IR instruction `n`: `.label_<n>`.
pub open spec fn label_name(n: nat) -> Seq<u8> {
    label_prefix() + decimal(n)
}

/// The line that defines the label of IR instruction `n`.
pub open spec fn label_line(n: nat) -> Seq<u8> {
    label_name(n) + seq![0x3au8, 0x0a]
}

/// `marker` made unique to instruction `n`: `<marker>_<n>`.
pub open spec fn local_label(marker: Seq<u8>, n: nat) -> Seq<u8> {
    marker + seq![0x5fu8] + decimal(n)
}

/// The snippet of instruction `i`, the one at index `n`.
pub open spec fn snippet(t: Templates, i: Instruction, n: nat) -> Seq<u8> {
    match i {
        Instruction::Halt => t.halt@,
        Instruction::Inc => t.inc@,
        Instruction::Dec => t.dec@,
        Instruction::Next => replace_all(t.next@, t.next_marker@, local_label(t.next_marker@, n)),
        Instruction::Prev => replace_all(t.prev@, t.prev_marker@, local_label(t.prev_marker@, n)),
        Instruction::Get => replace_all(t.get@, t.get_marker@, local_label(t.get_marker@, n)),
        Instruction::Put => t.put@,
        Instruction::Jz(to) => replace_all(t.jz@, t.jz_marker@, label_name(to as nat)),
        Instruction::Jnz(to) => replace_all(t.jnz@, t.jnz_marker@, label_name(to as nat)),
    }
}

/// The labelled snippets of the first `n` instructions of `code`.
pub open spec fn body(t: Templates, code: Seq<Instruction>, n: int) -> Seq<u8>
    decreases n,
{
    if n <= 0 {
        Seq::empty()
    } else {
        body(t, code, n - 1) + label_line((n - 1) as nat) + snippet(t, code[n - 1], (n - 1) as nat)
    }
}

/// The assembly of `code`: the preamble, the entry block, each labelled
/// snippet, the label past the last instruction, and the exit block.
pub open spec fn program_asm(t: Templates, code: Seq<Instruction>) -> Seq<u8> {
    t.preamble@ + t.enter@ + body(t, code, code.len() as int) + label_line(code.len() as nat) + t.leave@
}

/// Appends `bytes` to `out`.
fn append(out: &mut Vec<u8>, bytes: &[u8])
    ensures
        final(out)@ == old(out)@ + bytes@,
{
    let mut i: usize = 0;
    while i < bytes.len()
        invariant
            i <= bytes@.len(),
            out@ == old(out)@ + bytes@.subrange(0, i as int),
        decreases bytes@.len() - i,
    {
        out.push(bytes[i]);
        i = i + 1;
        assert(out@ =~= old(out)@ + bytes@.subrange(0, i as int));
    }
    assert(bytes@.subrange(0, i as int) =~= bytes@);
}

/// Appends the decimal digits of `n` to `out`.
fn push_decimal(out: &mut Vec<u8>, n: usize)
    ensures
        final(out)@ == old(out)@ + decimal(n as nat),
    decreases n,
{
    if n >= 10 {
        push_decimal(out, n / 10);
    }
    out.push((48 + n % 10) as u8);
    assert(out@ =~= old(out)@ + decimal(n as nat));
}

/// Whether `pattern` stands in `text` from `at` on.
fn matches_at(text: &[u8], at: usize, pattern: &[u8]) -> (r: bool)
    requires
        at <= text@.len(),
    ensures
        r == (pattern@.len() <= text@.len() - at && text@.subrange(at as int, at + pattern@.len()) == pattern@),
{
    if pattern.len() > text.len() - at {
        return false;
    }
    let end = at + pattern.len();
    let mut k: usize = 0;
    while k < pattern.len()
        invariant
            k <= pattern@.len(),
            end == at + pattern@.len(),
            pattern@.len() <= text@.len() - at,
            forall|j: int| 0 <= j < k ==> text@[at + j] == pattern@[j],
        decreases pattern@.len() - k,
    {
        if text[at + k] != pattern[k] {
            assert(text@.subrange(at as int, at + pattern@.len())[k as int] != pattern@[k as int]);
            return false;
        }
        k = k + 1;
    }
    assert(text@.subrange(at as int, at + pattern@.len()) =~= pattern@);
    true
}

/// Appends `text` to `out` with every occurrence of `pattern` replaced by
/// `with`.
fn append_replaced(out: &mut Vec<u8>, text: &[u8], pattern: &[u8], with: &[u8])
    ensures
        final(out)@ == old(out)@ + replace_all(text@, pattern@, with@),
{
    let mut i: usize = 0;
    assert(text@.subrange(0, text@.len() as int) =~= text@);
    while i < text.len()
        invariant
            i <= text@.len(),
            old(out)@ + replace_all(text@, pattern@, with@) == out@ + replace_all(text@.subrange(i as int, text@.len() as int), pattern@, with@),
        decreases text@.len() - i,
    {
        let rest = Ghost(text@.subrange(i as int, text@.len() as int));
        if pattern.len() > 0 && matches_at(text, i, pattern) {
            proof {
                assert(rest@.subrange(0, pattern@.len() as int) =~= text@.subrange(i as int, i + pattern@.len()));
                assert(rest@.subrange(pattern@.len() as int, rest@.len() as int) =~= text@.subrange(i + pattern@.len(), text@.len() as int));
            }
            append(out, with);
            i = i + pattern.len();
        } else {
            proof {
                if pattern@.len() > 0 && rest@.len() >= pattern@.len() {
                    assert(rest@.subrange(0, pattern@.len() as int) =~= text@.subrange(i as int, i + pattern@.len()));
                }
                assert(rest@.subrange(1, rest@.len() as int) =~= text@.subrange(i + 1, text@.len() as int));
                if pattern@.len() == 0 || rest@.len() < pattern@.len() {
                    assert(replace_all(rest@, pattern@, with@) == rest@);
                    assert(replace_all(rest@.subrange(1, rest@.len() as int), pattern@, with@) == rest@.subrange(1, rest@.len() as int));
                    assert(rest@ =~= seq![rest@[0]] + rest@.subrange(1, rest@.len() as int));
                }
            }
            out.push(text[i]);
            i = i + 1;
        }
    }
    proof {
        assert(text@.subrange(i as int, text@.len() as int) =~= Seq::<u8>::empty());
        assert(out@ + Seq::<u8>::empty() =~= out@);
    }
}

/// Appends the label of IR instruction `n` to `out`.
fn push_label_name(out: &mut Vec<u8>, n: usize)
    ensures
        final(out)@ == old(out)@ + label_name(n as nat),
{
    append(out, &[0x2e, 0x6c, 0x61, 0x62, 0x65, 0x6c, 0x5f]);
    push_decimal(out, n);
    assert(out@ =~= old(out)@ + label_name(n as nat));
}

/// `marker` made unique to instruction `n`.
fn make_local_label(marker: &Vec<u8>, n: usize) -> (r: Vec<u8>)
    ensures
        r@ == local_label(marker@, n as nat),
{
    let mut r: Vec<u8> = Vec::new();
    append(&mut r, marker.as_slice());
    r.push(0x5f);
    push_decimal(&mut r, n);
    assert(r@ =~= local_label(marker@, n as nat));
    r
}

/// Appends the snippet of `instruction`, at index `n`, to `out`.
fn push_snippet(out: &mut Vec<u8>, t: &Templates, instruction: Instruction, n: usize)
    ensures
        final(out)@ == old(out)@ + snippet(*t, instruction, n as nat),
{
    match instruction {
        Instruction::Halt => append(out, t.halt.as_slice()),
        Instruction::Inc => append(out, t.inc.as_slice()),
        Instruction::Dec => append(out, t.dec.as_slice()),
        Instruction::Put => append(out, t.put.as_slice()),
        Instruction::Next => {
            let label = make_local_label(&t.next_marker, n);
            append_replaced(out, t.next.as_slice(), t.next_marker.as_slice(), label.as_slice());
        },
        Instruction::Prev => {
            let label = make_local_label(&t.prev_marker, n);
            append_replaced(out, t.prev.as_slice(), t.prev_marker.as_slice(), label.as_slice());
        },
        Instruction::Get => {
            let label = make_local_label(&t.get_marker, n);
            append_replaced(out, t.get.as_slice(), t.get_marker.as_slice(), label.as_slice());
        },
        Instruction::Jz(to) => {
            let mut label: Vec<u8> = Vec::new();
            push_label_name(&mut label, to);
            append_replaced(out, t.jz.as_slice(), t.jz_marker.as_slice(), label.as_slice());
        },
        Instruction::Jnz(to) => {
            let mut label: Vec<u8> = Vec::new();
            push_label_name(&mut label, to);
            append_replaced(out, t.jnz.as_slice(), t.jnz_marker.as_slice(), label.as_slice());
        },
    }
}

/// The assembly source of `program`, built from `templates`.
pub fn generate_prog_asm(program: &Program, templates: &Templates) -> (r: Vec<u8>)
    ensures
        r@ == program_asm(*templates, program.code@),
{
    let mut out: Vec<u8> = Vec::new();
    append(&mut out, templates.preamble.as_slice());
    append(&mut out, templates.enter.as_slice());
    let ghost head = templates.preamble@ + templates.enter@;
    let mut i: usize = 0;
    while i < program.code.len()
        invariant
            i <= program.code@.len(),
            out@ == head + body(*templates, program.code@, i as int),
        decreases program.code@.len() - i,
    {
        push_label_name(&mut out, i);
        append(&mut out, &[0x3a, 0x0a]);
        push_snippet(&mut out, templates, program.code[i], i);
        i = i + 1;
        assert(out@ =~= head + body(*templates, program.code@, i as int));
    }
    push_label_name(&mut out, i);
    append(&mut out, &[0x3a, 0x0a]);
    append(&mut out, templates.leave.as_slice());
    assert(out@ =~= program_asm(*templates, program.code@));
    out
}

} // verus!
