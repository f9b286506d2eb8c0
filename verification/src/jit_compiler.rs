//! Translation of a token stream into x86-64 machine code.
//!
//! The generated routine takes the address of the current cell in `rdi`
//! and keeps it there. Code is produced in two passes: the first emits the
//! instructions of every token and leaves the operand of each branch
//! blank, the second fills the operands in once the place of every token's
//! code is known.

use crate::code_memory::{executable_bytes, load};
use crate::tokenizer::{kind_step, kinds, target, well_bracketed, Token, TokenKind};
use vstd::prelude::*;

verus! {

/// The four bytes of `v`, least significant first.
pub open spec fn le_bytes(v: int) -> Seq<u8> {
    seq![
        (v % 256) as u8,
        ((v / 256) % 256) as u8,
        ((v / 65536) % 256) as u8,
        ((v / 16777216) % 256) as u8,
    ]
}

/// `add rdi, imm32`, without the operand.
pub open spec fn add_pointer() -> Seq<u8> {
    seq![0x48u8, 0x81u8, 0xc7u8]
}

/// `sub rdi, imm32`, without the operand.
pub open spec fn sub_pointer() -> Seq<u8> {
    seq![0x48u8, 0x81u8, 0xefu8]
}

/// `add byte [rdi], imm8`, without the operand.
pub open spec fn add_cell() -> Seq<u8> {
    seq![0x80u8, 0x07u8]
}

/// `sub byte [rdi], imm8`, without the operand.
pub open spec fn sub_cell() -> Seq<u8> {
    seq![0x80u8, 0x2fu8]
}

/// The system call that writes the current cell to descriptor 1: `rdi` is
/// saved, `rax`, `rsi`, `rdi` and `rdx` are loaded, and `rdi` is restored.
pub open spec fn write_call() -> Seq<u8> {
    seq![
        0x57u8,
        0x48u8,
        0xc7u8,
        0xc0u8,
        0x01u8,
        0x00u8,
        0x00u8,
        0x00u8,
        0x48u8,
        0x89u8,
        0xfeu8,
        0x48u8,
        0xc7u8,
        0xc7u8,
        0x01u8,
        0x00u8,
        0x00u8,
        0x00u8,
        0x48u8,
        0xc7u8,
        0xc2u8,
        0x01u8,
        0x00u8,
        0x00u8,
        0x00u8,
        0x0fu8,
        0x05u8,
        0x5fu8,
    ]
}

/// The system call that reads one byte from descriptor 0 into the current
/// cell, in the same shape as `write_call`.
pub open spec fn read_call() -> Seq<u8> {
    seq![
        0x57u8,
        0x48u8,
        0xc7u8,
        0xc0u8,
        0x00u8,
        0x00u8,
        0x00u8,
        0x00u8,
        0x48u8,
        0x89u8,
        0xfeu8,
        0x48u8,
        0xc7u8,
        0xc7u8,
        0x00u8,
        0x00u8,
        0x00u8,
        0x00u8,
        0x48u8,
        0xc7u8,
        0xc2u8,
        0x01u8,
        0x00u8,
        0x00u8,
        0x00u8,
        0x0fu8,
        0x05u8,
        0x5fu8,
    ]
}

/// `mov al, [rdi]`, `test al, al`, and `jz rel32` without its operand.
pub open spec fn branch_if_zero() -> Seq<u8> {
    seq![0x8au8, 0x07u8, 0x84u8, 0xc0u8, 0x0fu8, 0x84u8]
}

/// `mov al, [rdi]`, `test al, al`, and `jnz rel32` without its operand.
pub open spec fn branch_if_not_zero() -> Seq<u8> {
    seq![0x8au8, 0x07u8, 0x84u8, 0xc0u8, 0x0fu8, 0x85u8]
}

/// What stands in place of a branch operand until it is resolved.
pub open spec fn placeholder() -> Seq<u8> {
    seq![0x90u8, 0x90u8, 0x90u8, 0x90u8]
}

/// `block`, `n` times in a row.
pub open spec fn copies(block: Seq<u8>, n: int) -> Seq<u8>
    decreases n,
{
    if n <= 0 {
        Seq::empty()
    } else {
        copies(block, n - 1) + block
    }
}

/// How many bytes of code a token takes.
pub open spec fn code_size(token: Token) -> int {
    match token.kind() {
        TokenKind::Right => 7,
        TokenKind::Left => 7,
        TokenKind::Inc => 3,
        TokenKind::Dec => 3,
        TokenKind::Output => 28 * token.count(),
        TokenKind::Input => 28,
        TokenKind::JumpIfZero(_) => 10,
        TokenKind::JumpIfNZero(_) => 10,
    }
}

/// The offset in the code at which the code of token `k` begins. For `k`
/// equal to the number of tokens this is where the final `ret` stands.
pub open spec fn offset_of(tokens: Seq<Token>, k: int) -> int
    decreases k,
{
    if k <= 0 {
        0
    } else {
        offset_of(tokens, k - 1) + code_size(tokens[k - 1])
    }
}

/// The operand of a branch at `origin`, the offset just past the branch,
/// that goes to `destination`: their difference as an unsigned 32-bit
/// number.
pub open spec fn displacement(destination: int, origin: int) -> int {
    (destination - origin) % 0x1_0000_0000
}

/// The operand of the branch of token `i`, which jumps to token `to`.
pub open spec fn operand(tokens: Seq<Token>, i: int, to: int, resolved: bool) -> Seq<u8> {
    if resolved {
        le_bytes(displacement(offset_of(tokens, to), offset_of(tokens, i) + 10))
    } else {
        placeholder()
    }
}

/// The code of token `i`. With `resolved` false a branch has the
/// placeholder as its operand.
pub open spec fn block(tokens: Seq<Token>, i: int, resolved: bool) -> Seq<u8> {
    let n = tokens[i].count() as int;
    match tokens[i].kind() {
        TokenKind::Right => add_pointer() + le_bytes(n),
        TokenKind::Left => sub_pointer() + le_bytes(n),
        TokenKind::Inc => add_cell().push((n % 256) as u8),
        TokenKind::Dec => sub_cell().push((n % 256) as u8),
        TokenKind::Output => copies(write_call(), n),
        TokenKind::Input => read_call(),
        TokenKind::JumpIfZero(to) => branch_if_zero() + operand(tokens, i, to as int, resolved),
        TokenKind::JumpIfNZero(to) => branch_if_not_zero() + operand(
            tokens,
            i,
            to as int,
            resolved,
        ),
    }
}

/// The code of the first `k` tokens, every branch resolved.
pub open spec fn body(tokens: Seq<Token>, k: int) -> Seq<u8>
    decreases k,
{
    if k <= 0 {
        Seq::empty()
    } else {
        body(tokens, k - 1) + block(tokens, k - 1, true)
    }
}

/// The code of the first `k` tokens as the first pass leaves it: no branch
/// resolved.
pub open spec fn draft(tokens: Seq<Token>, k: int) -> Seq<u8>
    decreases k,
{
    if k <= 0 {
        Seq::empty()
    } else {
        draft(tokens, k - 1) + block(tokens, k - 1, false)
    }
}

/// The routine for a token stream: the code of every token in order, then
/// `ret`.
pub open spec fn machine_code(tokens: Seq<Token>) -> Seq<u8> {
    body(tokens, tokens.len() as int).push(0xc3u8)
}

/// No jump goes past the end of the stream.
pub open spec fn targets_in_range(tokens: Seq<Token>) -> bool {
    forall|i: int|
        0 <= i < tokens.len() ==> target(#[trigger] tokens[i].kind())
            <= tokens.len()
}

/// A branch operand that is still to be filled in.
#[derive(Clone, Copy, Debug, PartialEq, Eq, Structural)]
pub struct Relocation {
    /// Where in the code the four bytes of the operand stand.
    pub placeholder: usize,
    /// The offset just past the operand, from which the branch is taken.
    pub origin: usize,
    /// The token that the branch goes to.
    pub target: usize,
}

/// The relocation that a jump to token `to` leaves when its code begins at
/// offset `at`.
pub open spec fn relocation_at(at: int, to: usize) -> Relocation {
    Relocation { placeholder: (at + 6) as usize, origin: (at + 10) as usize, target: to }
}

/// The relocations that the first `k` tokens leave behind, one for each
/// jump, in the order of the tokens.
pub open spec fn relocations_of(tokens: Seq<Token>, k: int) -> Seq<Relocation>
    decreases k,
{
    if k <= 0 {
        Seq::empty()
    } else {
        let before = relocations_of(tokens, k - 1);
        let at = offset_of(tokens, k - 1);
        match tokens[k - 1].kind() {
            TokenKind::JumpIfZero(to) => before.push(relocation_at(at, to)),
            TokenKind::JumpIfNZero(to) => before.push(relocation_at(at, to)),
            _ => before,
        }
    }
}

/// `code` with `bytes` written over it from offset `at` on.
pub open spec fn overwritten(code: Seq<u8>, at: int, bytes: Seq<u8>) -> Seq<u8> {
    Seq::new(
        code.len(),
        |i: int|
            if at <= i < at + bytes.len() {
                bytes[i - at]
            } else {
                code[i]
            },
    )
}

/// `code` after every relocation of `relocations` is resolved in turn
/// against the address table `addresses`.
pub open spec fn patched(
    code: Seq<u8>,
    addresses: Seq<usize>,
    relocations: Seq<Relocation>,
) -> Seq<u8>
    decreases relocations.len(),
{
    if relocations.len() == 0 {
        code
    } else {
        let r = relocations.last();
        overwritten(
            patched(code, addresses, relocations.drop_last()),
            r.placeholder as int,
            le_bytes(displacement(addresses[r.target as int] as int, r.origin as int)),
        )
    }
}

/// What the first pass produces.
pub struct Emitted {
    /// The code of every token, branch operands still blank.
    pub code: Vec<u8>,
    /// For each token, the offset at which its code begins.
    pub addresses: Vec<usize>,
    /// One entry for each branch operand that is blank.
    pub relocations: Vec<Relocation>,
}

/// The code of a later token begins no earlier than that of an earlier
/// one.
pub proof fn lemma_offsets_grow(tokens: Seq<Token>, a: int, b: int)
    requires
        0 <= a <= b,
    ensures
        0 <= offset_of(tokens, a) <= offset_of(tokens, b),
    decreases b,
{
    if b > 0 {
        if a < b {
            lemma_offsets_grow(tokens, a, b - 1);
        } else {
            lemma_offsets_grow(tokens, a - 1, b - 1);
        }
    }
}

/// `n` copies of a block are `n` times as long as the block.
pub proof fn lemma_copies_length(block: Seq<u8>, n: int)
    requires
        0 <= n,
    ensures
        copies(block, n).len() == n * block.len(),
    decreases n,
{
    if n > 0 {
        lemma_copies_length(block, n - 1);
        assert((n - 1) * block.len() + block.len() == n * block.len()) by (nonlinear_arith);
    } else {
        assert(n * block.len() == 0) by (nonlinear_arith)
            requires
                n == 0,
        ;
    }
}

/// The code of a token is as long as `code_size` says, resolved or not.
pub proof fn lemma_block_len(tokens: Seq<Token>, i: int, resolved: bool)
    ensures
        block(tokens, i, resolved).len() == code_size(tokens[i]),
{
    lemma_copies_length(write_call(), tokens[i].count() as int);
}

/// The code of the first `k` tokens ends where the code of token `k`
/// begins, resolved or not.
pub proof fn lemma_code_len(tokens: Seq<Token>, k: int)
    requires
        0 <= k,
    ensures
        body(tokens, k).len() == offset_of(tokens, k),
        draft(tokens, k).len() == offset_of(tokens, k),
    decreases k,
{
    if k > 0 {
        lemma_code_len(tokens, k - 1);
        lemma_block_len(tokens, k - 1, true);
        lemma_block_len(tokens, k - 1, false);
    }
}

/// Appends the four bytes of `v`, least significant first.
fn push_le(code: &mut Vec<u8>, v: u32)
    ensures
        final(code)@ == old(code)@ + le_bytes(v as int),
{
    code.push((v % 256) as u8);
    code.push(((v / 256) % 256) as u8);
    code.push(((v / 65536) % 256) as u8);
    code.push(((v / 16777216) % 256) as u8);
    assert(code@ =~= old(code)@ + le_bytes(v as int));
}

/// Appends the system call that writes the current cell.
fn push_write_call(code: &mut Vec<u8>)
    ensures
        final(code)@ == old(code)@ + write_call(),
{
    code.extend_from_slice(
        &[
            0x57,
            0x48,
            0xc7,
            0xc0,
            0x01,
            0x00,
            0x00,
            0x00,
            0x48,
            0x89,
            0xfe,
            0x48,
            0xc7,
            0xc7,
            0x01,
            0x00,
            0x00,
            0x00,
            0x48,
            0xc7,
            0xc2,
            0x01,
            0x00,
            0x00,
            0x00,
            0x0f,
            0x05,
            0x5f,
        ],
    );
    assert(code@ =~= old(code)@ + write_call());
}

/// Appends the system call that reads into the current cell.
fn push_read_call(code: &mut Vec<u8>)
    ensures
        final(code)@ == old(code)@ + read_call(),
{
    code.extend_from_slice(
        &[
            0x57,
            0x48,
            0xc7,
            0xc0,
            0x00,
            0x00,
            0x00,
            0x00,
            0x48,
            0x89,
            0xfe,
            0x48,
            0xc7,
            0xc7,
            0x00,
            0x00,
            0x00,
            0x00,
            0x48,
            0xc7,
            0xc2,
            0x01,
            0x00,
            0x00,
            0x00,
            0x0f,
            0x05,
            0x5f,
        ],
    );
    assert(code@ =~= old(code)@ + read_call());
}

/// Appends a branch with a blank operand and notes where the operand is.
fn push_branch(code: &mut Vec<u8>, if_zero: bool, target: usize) -> (relocation: Relocation)
    ensures
        final(code)@ == old(code)@ + (if if_zero {
            branch_if_zero()
        } else {
            branch_if_not_zero()
        }) + placeholder(),
        relocation.placeholder == old(code)@.len() + 6,
        relocation.origin == old(code)@.len() + 10,
        relocation.target == target,
{
    if if_zero {
        code.extend_from_slice(&[0x8a, 0x07, 0x84, 0xc0, 0x0f, 0x84]);
    } else {
        code.extend_from_slice(&[0x8a, 0x07, 0x84, 0xc0, 0x0f, 0x85]);
    }
    let addr_arg_beginning: usize = code.len();
    code.extend_from_slice(&[0x90, 0x90, 0x90, 0x90]);
    let addr_arg_ending: usize = code.len();
    assert(code@ =~= old(code)@ + (if if_zero {
        branch_if_zero()
    } else {
        branch_if_not_zero()
    }) + placeholder());
    Relocation { placeholder: addr_arg_beginning, origin: addr_arg_ending, target }
}

/// The first pass: emits the code of every token in order, with the operand
/// of each branch left blank, and records where each token's code begins
/// and which operands are to be resolved.
pub fn emit(tokens: &Vec<Token>) -> (out: Emitted)
    ensures
        out.code@ == draft(tokens@, tokens.len() as int),
        out.addresses@.len() == tokens.len(),
        forall|k: int| 0 <= k < tokens.len() ==> out.addresses@[k] == offset_of(tokens@, k),
        out.relocations@ == relocations_of(tokens@, tokens.len() as int),
{
    let len: usize = tokens.len();
    let mut pc: usize = 0;
    let mut backpatch_stack: Vec<Relocation> = Vec::new();
    let mut address_stack: Vec<usize> = Vec::new();
    let mut asm_ins: Vec<u8> = Vec::new();
    while pc < len
        invariant
            len == tokens.len(),
            pc <= len,
            asm_ins@ == draft(tokens@, pc as int),
            asm_ins@.len() == offset_of(tokens@, pc as int),
            address_stack@.len() == pc,
            forall|k: int| 0 <= k < pc ==> address_stack@[k] == offset_of(tokens@, k),
            backpatch_stack@ == relocations_of(tokens@, pc as int),
        decreases len - pc,
    {
        let v: &Token = &tokens[pc];
        let ghost before = asm_ins@;
        proof {
            lemma_block_len(tokens@, pc as int, false);
        }
        address_stack.push(asm_ins.len());
        match *v.get_token_type() {
            TokenKind::Right => {
                let amount: u32 = v.get_successive_count() as u32;
                asm_ins.extend_from_slice(&[0x48, 0x81, 0xc7]);
                assert(asm_ins@ =~= before + add_pointer());
                push_le(&mut asm_ins, amount);
            },
            TokenKind::Left => {
                let amount: u32 = v.get_successive_count() as u32;
                asm_ins.extend_from_slice(&[0x48, 0x81, 0xef]);
                assert(asm_ins@ =~= before + sub_pointer());
                push_le(&mut asm_ins, amount);
            },
            TokenKind::Inc => {
                let amount: u8 = (v.get_successive_count() % 256) as u8;
                asm_ins.extend_from_slice(&[0x80, 0x07, amount]);
            },
            TokenKind::Dec => {
                let amount: u8 = (v.get_successive_count() % 256) as u8;
                asm_ins.extend_from_slice(&[0x80, 0x2f, amount]);
            },
            TokenKind::Output => {
                let times: u16 = v.get_successive_count();
                let mut k: u16 = 0;
                while k < times
                    invariant
                        k <= times,
                        asm_ins@ == before + copies(write_call(), k as int),
                    decreases times - k,
                {
                    push_write_call(&mut asm_ins);
                    k += 1;
                    assert(asm_ins@ =~= before + copies(write_call(), k as int));
                }
            },
            TokenKind::Input => {
                push_read_call(&mut asm_ins);
            },
            TokenKind::JumpIfZero(address) => {
                let jump_address = push_branch(&mut asm_ins, true, address);
                backpatch_stack.push(jump_address);
            },
            TokenKind::JumpIfNZero(address) => {
                let jump_address = push_branch(&mut asm_ins, false, address);
                backpatch_stack.push(jump_address);
            },
        }
        assert(asm_ins@ =~= before + block(tokens@, pc as int, false));
        pc += 1;
    }
    Emitted { code: asm_ins, addresses: address_stack, relocations: backpatch_stack }
}

/// The operand of a branch taken at `origin` that goes to `destination`.
fn displacement_of(destination: usize, origin: usize) -> (operand: u32)
    ensures
        operand == displacement(destination as int, origin as int),
{
    let dst_addr: u32 = ((destination as u64) % 0x1_0000_0000) as u32;
    let src_addr: u32 = ((origin as u64) % 0x1_0000_0000) as u32;
    dst_addr.wrapping_sub(src_addr)
}

/// Whether every relocation can be resolved: its operand lies within the
/// code, and its target has an entry in the address table.
pub open spec fn resolvable(
    code: Seq<u8>,
    addresses: Seq<usize>,
    relocations: Seq<Relocation>,
) -> bool {
    forall|j: int|
        0 <= j < relocations.len() ==> {
            &&& (#[trigger] relocations[j]).placeholder + 4 <= code.len()
            &&& relocations[j].target < addresses.len()
        }
}

/// The second pass: writes into each blank operand the displacement from
/// the end of its branch to the code of the branch's target, as the address
/// table gives it. Nothing else in the code changes.
pub fn relocate(code: &mut Vec<u8>, addresses: &Vec<usize>, relocations: &Vec<Relocation>)
    requires
        resolvable(old(code)@, addresses@, relocations@),
    ensures
        final(code)@ == patched(old(code)@, addresses@, relocations@),
{
    let mut j: usize = 0;
    while j < relocations.len()
        invariant
            j <= relocations.len(),
            code@.len() == old(code)@.len(),
            resolvable(old(code)@, addresses@, relocations@),
            code@ == patched(old(code)@, addresses@, relocations@.take(j as int)),
        decreases relocations.len() - j,
    {
        let b = relocations[j];
        assert(b == relocations@[j as int]);
        assert(b.placeholder + 4 <= code.len());
        let addr_arg = displacement_of(addresses[b.target], b.origin);
        let ghost before = code@;
        let at = b.placeholder;
        code.set(at, (addr_arg % 256) as u8);
        code.set(at + 1, ((addr_arg / 256) % 256) as u8);
        code.set(at + 2, ((addr_arg / 65536) % 256) as u8);
        code.set(at + 3, ((addr_arg / 16777216) % 256) as u8);
        proof {
            assert(relocations@.take(j + 1).drop_last() =~= relocations@.take(j as int));
            assert(relocations@.take(j + 1).last() == b);
            assert(code@ =~= overwritten(before, at as int, le_bytes(addr_arg as int)));
        }
        j += 1;
    }
    assert(relocations@.take(j as int) =~= relocations@);
}

/// The unresolved code of the tokens from `k` up to `n`.
spec fn draft_tail(tokens: Seq<Token>, k: int, n: int) -> Seq<u8>
    decreases n - k,
{
    if k >= n {
        Seq::empty()
    } else {
        block(tokens, k, false) + draft_tail(tokens, k + 1, n)
    }
}

/// The draft of `n` tokens is the draft of the first `k` followed by the
/// draft of the rest.
proof fn lemma_draft_splits(tokens: Seq<Token>, k: int, n: int)
    requires
        0 <= k <= n,
    ensures
        draft(tokens, k) + draft_tail(tokens, k, n) == draft(tokens, n),
    decreases n - k,
{
    if k < n {
        lemma_draft_splits(tokens, k + 1, n);
        assert(draft(tokens, k) + draft_tail(tokens, k, n) =~= draft(tokens, k + 1) + draft_tail(
            tokens,
            k + 1,
            n,
        ));
    } else {
        assert(draft(tokens, k) + draft_tail(tokens, k, n) =~= draft(tokens, n));
    }
}

/// Every relocation that the first `k` tokens leave points at an operand
/// inside their code and carries the target of a jump among them.
proof fn lemma_relocations_fit(tokens: Seq<Token>, k: int, n: int)
    requires
        0 <= k <= n <= tokens.len(),
        targets_in_range(tokens),
        offset_of(tokens, n) <= usize::MAX,
    ensures
        forall|j: int|
            0 <= j < relocations_of(tokens, k).len() ==> {
                let r = #[trigger] relocations_of(tokens, k)[j];
                &&& r.placeholder + 4 <= offset_of(tokens, k)
                &&& r.target <= tokens.len()
            },
    decreases k,
{
    if k > 0 {
        lemma_relocations_fit(tokens, k - 1, n);
        lemma_offsets_grow(tokens, k - 1, k);
        lemma_offsets_grow(tokens, k, n);
        assert(target(tokens[k - 1].kind()) <= tokens.len());
        let earlier = relocations_of(tokens, k - 1);
        let all = relocations_of(tokens, k);
        assert forall|j: int| 0 <= j < all.len() implies {
            &&& (#[trigger] all[j]).placeholder + 4 <= offset_of(tokens, k)
            &&& all[j].target <= tokens.len()
        } by {
            if j < earlier.len() {
                assert(all[j] == earlier[j]);
            }
        }
    }
}

/// Resolving the relocations of the first `k` tokens turns the draft into
/// the final code of those tokens, followed by the draft of the rest.
proof fn lemma_patched_prefix(tokens: Seq<Token>, addresses: Seq<usize>, k: int, n: int)
    requires
        0 <= k <= n == tokens.len(),
        targets_in_range(tokens),
        offset_of(tokens, n) <= usize::MAX,
        addresses.len() == n + 1,
        forall|i: int| 0 <= i <= n ==> addresses[i] == offset_of(tokens, i),
    ensures
        patched(draft(tokens, n), addresses, relocations_of(tokens, k)) == body(tokens, k)
            + draft_tail(tokens, k, n),
    decreases k,
{
    if k == 0 {
        lemma_draft_splits(tokens, 0, n);
        assert(body(tokens, 0) + draft_tail(tokens, 0, n) =~= draft(tokens, n));
    } else {
        lemma_patched_prefix(tokens, addresses, k - 1, n);
        lemma_code_len(tokens, k - 1);
        lemma_block_len(tokens, k - 1, false);
        lemma_block_len(tokens, k - 1, true);
        lemma_offsets_grow(tokens, k - 1, k);
        lemma_offsets_grow(tokens, k, n);
        let head = body(tokens, k - 1);
        let rest = draft_tail(tokens, k, n);
        let at = offset_of(tokens, k - 1);
        let earlier = relocations_of(tokens, k - 1);
        assert(draft_tail(tokens, k - 1, n) == block(tokens, k - 1, false) + rest);
        match tokens[k - 1].kind() {
            TokenKind::JumpIfZero(to) => {
                let r = relocation_at(at, to);
                assert(relocations_of(tokens, k).drop_last() =~= earlier);
                assert(relocations_of(tokens, k).last() == r);
                assert(target(tokens[k - 1].kind()) <= tokens.len());
                assert(addresses[to as int] == offset_of(tokens, to as int));
                let bytes = le_bytes(displacement(offset_of(tokens, to as int), at + 10));
                assert(overwritten(
                    head + (block(tokens, k - 1, false) + rest),
                    at + 6,
                    bytes,
                ) =~= (head + block(tokens, k - 1, true)) + rest);
            },
            TokenKind::JumpIfNZero(to) => {
                let r = relocation_at(at, to);
                assert(relocations_of(tokens, k).drop_last() =~= earlier);
                assert(relocations_of(tokens, k).last() == r);
                assert(target(tokens[k - 1].kind()) <= tokens.len());
                assert(addresses[to as int] == offset_of(tokens, to as int));
                let bytes = le_bytes(displacement(offset_of(tokens, to as int), at + 10));
                assert(overwritten(
                    head + (block(tokens, k - 1, false) + rest),
                    at + 6,
                    bytes,
                ) =~= (head + block(tokens, k - 1, true)) + rest);
            },
            _ => {
                assert(block(tokens, k - 1, false) == block(tokens, k - 1, true));
                assert(head + (block(tokens, k - 1, false) + rest) =~= (head + block(
                    tokens,
                    k - 1,
                    true,
                )) + rest);
            },
        }
    }
}

/// Whether no jump of the stream goes past its end.
pub fn has_valid_targets(tokens: &Vec<Token>) -> (valid: bool)
    ensures
        valid == targets_in_range(tokens@),
{
    let mut i: usize = 0;
    while i < tokens.len()
        invariant
            i <= tokens.len(),
            forall|k: int|
                0 <= k < i ==> target(#[trigger] tokens@[k].kind())
                    <= tokens.len(),
        decreases tokens.len() - i,
    {
        let in_range = match *tokens[i].get_token_type() {
            TokenKind::JumpIfZero(address) => address <= tokens.len(),
            TokenKind::JumpIfNZero(address) => address <= tokens.len(),
            _ => true,
        };
        if !in_range {
            assert(target(tokens@[i as int].kind()) > tokens.len());
            return false;
        }
        i += 1;
    }
    true
}

/// Compiles a token stream to the machine code of a routine that runs it.
///
/// The routine expects the address of the first cell of the tape in `rdi`
/// and returns when the program counter passes the last token. Each branch
/// carries the displacement from its own end to the code of its target.
pub fn compile(tokens: &Vec<Token>) -> (code: Vec<u8>)
    requires
        targets_in_range(tokens@),
    ensures
        code@ == machine_code(tokens@),
{
    let Emitted { code: mut asm_ins, addresses: mut address_stack, relocations: backpatch_stack } =
        emit(tokens);
    let ghost n = tokens.len() as int;
    proof {
        lemma_code_len(tokens@, n);
    }
    address_stack.push(asm_ins.len());
    proof {
        lemma_relocations_fit(tokens@, n, n);
        lemma_patched_prefix(tokens@, address_stack@, n, n);
        assert(body(tokens@, n) + draft_tail(tokens@, n, n) =~= body(tokens@, n));
    }
    relocate(&mut asm_ins, &address_stack, &backpatch_stack);
    asm_ins.push(0xc3);
    asm_ins
}

/// Compiles a token stream and places the code in executable memory.
///
/// Where the system grants the memory, the region holds exactly the
/// routine of `machine_code`; where it does not, its error is handed on.
pub fn prepare(tokens: &Vec<Token>) -> (loaded: Result<memmap2::Mmap, std::io::Error>)
    requires
        targets_in_range(tokens@),
    ensures
        loaded matches Ok(region) ==> executable_bytes(region) == machine_code(tokens@),
{
    let code = compile(tokens);
    load(&code)
}

/// In a stream whose jumps are paired, no jump goes past the end.
pub proof fn lemma_paired_targets_in_range(tokens: Seq<Token>)
    requires
        well_bracketed(kinds(tokens)),
    ensures
        targets_in_range(tokens),
{
    assert forall|i: int| 0 <= i < tokens.len() implies target(#[trigger] tokens[i].kind())
        <= tokens.len() by {
        assert(kinds(tokens)[i] == tokens[i].kind());
        assert(crate::tokenizer::paired(kinds(tokens), i));
    }
}

/// A 32-bit operand read as a signed number.
pub open spec fn signed(v: int) -> int {
    if v >= 0x8000_0000 {
        v - 0x1_0000_0000
    } else {
        v
    }
}

/// The number that four bytes stand for, least significant first.
pub open spec fn from_le_bytes(bytes: Seq<u8>) -> int {
    bytes[0] + 256 * bytes[1] + 65536 * bytes[2] + 16777216 * bytes[3]
}

/// `le_bytes` loses nothing of a 32-bit number.
pub proof fn lemma_le_bytes_round_trip(v: int)
    requires
        0 <= v < 0x1_0000_0000,
    ensures
        le_bytes(v).len() == 4,
        from_le_bytes(le_bytes(v)) == v,
{
}

/// Every branch can reach its target: from the end of each branch to the
/// code of its target it is no further than a signed 32-bit operand can
/// say.
pub open spec fn branches_fit(tokens: Seq<Token>) -> bool {
    forall|i: int|
        0 <= i < tokens.len() && kind_step((#[trigger] tokens[i]).kind()) != 0 ==> {
            let distance = offset_of(tokens, target(tokens[i].kind())) - (offset_of(tokens, i)
                + 10);
            -0x8000_0000 <= distance < 0x8000_0000
        }
}

/// An operand that can say the distance says it exactly: the origin plus
/// the operand, read as a signed number, is the destination.
pub proof fn lemma_displacement_exact(destination: int, origin: int)
    requires
        -0x8000_0000 <= destination - origin < 0x8000_0000,
    ensures
        origin + signed(displacement(destination, origin)) == destination,
        0 <= displacement(destination, origin) < 0x1_0000_0000,
{
}

/// A branch lands on the code of its target. Where every branch can reach
/// its target, the end of the branch of token `i` plus its operand, read as
/// a signed number, is the offset at which the code of the target begins;
/// for a target equal to the number of tokens that is the final `ret`.
pub proof fn lemma_branch_reaches_target(tokens: Seq<Token>, i: int)
    requires
        0 <= i < tokens.len(),
        kind_step(tokens[i].kind()) != 0,
        branches_fit(tokens),
    ensures
        ({
            let origin = offset_of(tokens, i) + 10;
            let to = offset_of(tokens, target(tokens[i].kind()));
            origin + signed(displacement(to, origin)) == to
        }),
{
    lemma_displacement_exact(
        offset_of(tokens, target(tokens[i].kind())),
        offset_of(tokens, i) + 10,
    );
}

/// In code shorter than 2 GiB every branch can reach its target.
pub proof fn lemma_short_code_fits(tokens: Seq<Token>)
    requires
        targets_in_range(tokens),
        offset_of(tokens, tokens.len() as int) < 0x8000_0000,
    ensures
        branches_fit(tokens),
{
    assert forall|i: int|
        0 <= i < tokens.len() && kind_step((#[trigger] tokens[i]).kind()) != 0 implies {
        let distance = offset_of(tokens, target(tokens[i].kind())) - (offset_of(tokens, i) + 10);
        -0x8000_0000 <= distance < 0x8000_0000
    } by {
        let to = target(tokens[i].kind());
        lemma_offsets_grow(tokens, 0, i);
        lemma_offsets_grow(tokens, i, i + 1);
        lemma_offsets_grow(tokens, i + 1, tokens.len() as int);
        lemma_offsets_grow(tokens, 0, to);
        lemma_offsets_grow(tokens, to, tokens.len() as int);
    }
}

} // verus!
