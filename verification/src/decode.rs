//! x86-64 machine code as a listing of the instructions that the analysis tells apart.
use iced_x86::Decoder;
use iced_x86::DecoderOptions;
use vstd::prelude::*;

verus! {

/// The mnemonics that the analysis tells apart.
#[derive(Clone, Copy, PartialEq, Eq, Structural, Debug)]
pub enum Mnemonic {
    Endbr64,
    Jmp,
    Call,
    Other,
}

/// The kinds of a first operand that the analysis tells apart.
#[derive(Clone, Copy, PartialEq, Eq, Structural, Debug)]
pub enum OpKind {
    Memory,
    NearBranch64,
    Other,
}

/// One decoded instruction: its length in bytes, its mnemonic and the kind of its first operand,
/// the displacement of its memory operand, and the target of its near branch.
#[derive(Clone, Copy, PartialEq, Eq, Structural, Debug)]
pub struct Insn {
    pub len: usize,
    pub mnemonic: Mnemonic,
    pub op0: OpKind,
    pub displacement: u64,
    pub target: u64,
}

/// An instruction and the address at which it stands.
#[derive(Clone, Copy, PartialEq, Eq, Structural, Debug)]
pub struct Line {
    pub ip: u64,
    pub insn: Insn,
}

/// The first instruction that `iced_x86` decodes from these bytes, in 64-bit mode and without
/// decoder options, where they stand at the address `ip`.
pub uninterp spec fn first_insn(bytes: Seq<u8>, ip: u64) -> Insn;

/// `Decoder::with_ip` in 64-bit mode and `Decoder::decode`, the instruction as plain values. The
/// contract claims that the instruction depends on the bytes and their address alone, and that it
/// takes at least one byte and no more than there are.
#[verifier::external_body]
fn decode_first(bytes: &[u8], ip: u64) -> (insn: Insn)
    requires
        bytes@.len() > 0,
    ensures
        insn == first_insn(bytes@, ip),
        1 <= insn.len <= bytes@.len(),
{
    let instr = Decoder::with_ip(64, bytes, ip, DecoderOptions::NONE).decode();
    let mnemonic = match instr.mnemonic() {
        iced_x86::Mnemonic::Endbr64 => Mnemonic::Endbr64,
        iced_x86::Mnemonic::Jmp => Mnemonic::Jmp,
        iced_x86::Mnemonic::Call => Mnemonic::Call,
        _ => Mnemonic::Other,
    };
    let op0 = match instr.op0_kind() {
        iced_x86::OpKind::Memory => OpKind::Memory,
        iced_x86::OpKind::NearBranch64 => OpKind::NearBranch64,
        _ => OpKind::Other,
    };
    let (displacement, target) = (instr.memory_displacement64(), instr.near_branch_target());
    Insn { len: instr.len(), mnemonic, op0, displacement, target }
}

/// The address `n` bytes behind `ip`; addresses wrap around.
pub open spec fn advance(ip: u64, n: int) -> u64 {
    ((ip + n) % 0x1_0000_0000_0000_0000) as u64
}

/// The instructions in `code`, one behind the other, where it stands at the address `ip`.
pub open spec fn listing(code: Seq<u8>, ip: u64) -> Seq<Line>
    decreases code.len(),
{
    let insn = first_insn(code, ip);
    if code.len() == 0 || insn.len < 1 || insn.len > code.len() {
        Seq::empty()
    } else {
        seq![Line { ip, insn }] + listing(code.skip(insn.len as int), advance(ip, insn.len as int))
    }
}

/// How many bytes the instructions take.
pub open spec fn span(lines: Seq<Line>) -> nat
    decreases lines.len(),
{
    if lines.len() == 0 {
        0
    } else {
        span(lines.drop_last()) + lines.last().insn.len as nat
    }
}

/// Each instruction stands right behind the one before it, the first one at `ip`.
pub open spec fn laid_out(lines: Seq<Line>, ip: u64) -> bool {
    forall|i: int|
        0 <= i < lines.len() ==> (#[trigger] lines[i]).ip == advance(ip, span(lines.take(i)) as int)
}

proof fn lemma_advance(ip: u64, m: int, n: int)
    ensures
        advance(advance(ip, m), n) == advance(ip, m + n),
{
    let w = 0x1_0000_0000_0000_0000int;
    assert(((ip + m) % w + n) % w == (ip + m + n) % w);
}

proof fn lemma_laid_out_push(lines: Seq<Line>, line: Line, ip: u64)
    requires
        laid_out(lines, ip),
        line.ip == advance(ip, span(lines) as int),
    ensures
        laid_out(lines.push(line), ip),
        span(lines.push(line)) == span(lines) + line.insn.len,
{
    let more = lines.push(line);
    assert(more.drop_last() =~= lines);
    assert forall|i: int| 0 <= i < more.len() implies (#[trigger] more[i]).ip == advance(
        ip,
        span(more.take(i)) as int,
    ) by {
        if i < lines.len() {
            assert(more.take(i) =~= lines.take(i));
            assert(lines[i].ip == advance(ip, span(lines.take(i)) as int));
        } else {
            assert(more.take(i) =~= lines);
        }
    }
}

proof fn lemma_listing_len(code: Seq<u8>, ip: u64)
    ensures
        listing(code, ip).len() <= code.len(),
    decreases code.len(),
{
    let insn = first_insn(code, ip);
    if !(code.len() == 0 || insn.len < 1 || insn.len > code.len()) {
        lemma_listing_len(code.skip(insn.len as int), advance(ip, insn.len as int));
    }
}

proof fn lemma_listed_so_far(code: Seq<u8>, ip: u64, pos: int, at: u64, lines: Seq<Line>)
    requires
        0 <= pos < code.len(),
        lines + listing(code.skip(pos), at) == listing(code, ip),
        1 <= first_insn(code.skip(pos), at).len <= code.len() - pos,
    ensures
        ({
            let insn = first_insn(code.skip(pos), at);
            lines.push(Line { ip: at, insn }) + listing(
                code.skip(pos + insn.len),
                advance(at, insn.len as int),
            ) == listing(code, ip)
        }),
{
    let rest = code.skip(pos);
    let insn = first_insn(rest, at);
    let line = Line { ip: at, insn };
    let more = listing(rest.skip(insn.len as int), advance(at, insn.len as int));
    assert(rest.skip(insn.len as int) =~= code.skip(pos + insn.len));
    assert(listing(rest, at) == seq![line] + more);
    assert(lines.push(line) + more =~= lines + (seq![line] + more));
}

/// Decodes `code`, which stands at the address `ip`, to its end: the instructions take all of it.
pub fn disassemble(code: &[u8], ip: u64) -> (lines: Vec<Line>)
    ensures
        lines@ == listing(code@, ip),
        lines.len() <= code@.len(),
        span(lines@) == code@.len(),
        laid_out(lines@, ip),
{
    let mut lines: Vec<Line> = Vec::new();
    let mut pos: usize = 0;
    let mut at: u64 = ip;
    assert(code@.skip(0) =~= code@);
    while pos < code.len()
        invariant
            pos <= code@.len(),
            pos == span(lines@),
            at == advance(ip, pos as int),
            laid_out(lines@, ip),
            lines@ + listing(code@.skip(pos as int), at) == listing(code@, ip),
        decreases code@.len() - pos,
    {
        let rest = vstd::slice::slice_subrange(code, pos, code.len());
        assert(rest@ =~= code@.skip(pos as int));
        let insn = decode_first(rest, at);
        let ghost before = lines@;
        let ghost next = advance(at, insn.len as int);
        let line = Line { ip: at, insn };
        lines.push(line);
        proof {
            assert(lines@ == before.push(line));
            lemma_laid_out_push(before, line, ip);
            lemma_listed_so_far(code@, ip, pos as int, at, before);
        }
        pos = pos + insn.len;
        proof {
            lemma_advance(ip, pos - insn.len, insn.len as int);
        }
        at = at.wrapping_add(insn.len as u64);
        assert(at == next);
    }
    proof {
        assert(code@.skip(pos as int).len() == 0);
        assert(lines@ =~= listing(code@, ip));
        lemma_listing_len(code@, ip);
    }
    lines
}

/// A listing starts with the first instruction, at the address of the code, and goes on with the
/// listing of what is behind it; no code has no listing.
pub proof fn lemma_listing_in_turn(code: Seq<u8>, ip: u64)
    ensures
        code.len() == 0 ==> listing(code, ip) == Seq::<Line>::empty(),
        code.len() > 0 && 1 <= first_insn(code, ip).len <= code.len() ==> {
            let insn = first_insn(code, ip);
            let lines = listing(code, ip);
            &&& lines.len() > 0
            &&& lines[0] == Line { ip, insn }
            &&& lines.drop_first() == listing(
                code.skip(insn.len as int),
                ((ip + insn.len) % 0x1_0000_0000_0000_0000) as u64,
            )
        },
{
    if code.len() > 0 && 1 <= first_insn(code, ip).len <= code.len() {
        let insn = first_insn(code, ip);
        assert(listing(code, ip).drop_first() =~= listing(
            code.skip(insn.len as int),
            advance(ip, insn.len as int),
        ));
    }
}

} // verus!
