//! The generated routine behaves as the interpreter does.
//!
//! The proof goes token by token: the code of each token, run on the model
//! of the processor, does to the registers, the tape, the input and the
//! output what the interpreter's step does to the machine.

use crate::emulator::{at_start, entry};
use crate::interpreter::{added, halted, initial, proceed, repeated, run_of, starved, start};
use crate::interpreter::{lemma_step_keeps_valid, step_of, valid};
use crate::interpreter::{Action, Progress, RunError, State, TAPE_SIZE};
use crate::jit_compiler::{add_pointer, branch_if_not_zero, branch_if_zero, read_call};
use crate::jit_compiler::{block, body, branches_fit, copies, displacement, le_bytes};
use crate::jit_compiler::{lemma_block_len, lemma_branch_reaches_target, lemma_code_len};
use crate::jit_compiler::{lemma_copies_length, lemma_le_bytes_round_trip, lemma_offsets_grow};
use crate::jit_compiler::{machine_code, offset_of, signed, sub_pointer, targets_in_range};
use crate::jit_compiler::write_call;
use crate::native::{imm32, lemma_operand_range, lemma_reaches_join, lemma_returned_for_good};
use crate::native::lemma_run_after;
use crate::native::{native_move, native_run_of};
use crate::native::{on_tape, reaches, word, Cpu, Ending, Move, NativeProgress};
use crate::tokenizer::{target, Token, TokenKind};
use vstd::arithmetic::div_mod::{lemma_add_mod_noop, lemma_add_mod_noop_right, lemma_mod_mod};
use vstd::arithmetic::div_mod::{lemma_sub_mod_noop, lemma_sub_mod_noop_right};
use vstd::prelude::*;

verus! {

/// The bytes `bytes` stand in `code` from offset `at` on.
#[verifier::opaque]
pub open spec fn holds_at(code: Seq<u8>, at: int, bytes: Seq<u8>) -> bool {
    &&& 0 <= at
    &&& at + bytes.len() <= code.len()
    &&& forall|j: int| 0 <= j < bytes.len() ==> code[at + j] == #[trigger] bytes[j]
}

/// Bytes that stand in the code stand there piece by piece.
proof fn lemma_holds_split(code: Seq<u8>, at: int, a: Seq<u8>, b: Seq<u8>)
    requires
        holds_at(code, at, a + b),
    ensures
        holds_at(code, at, a),
        holds_at(code, at + a.len(), b),
{
    reveal(holds_at);
    let whole = a + b;
    assert forall|j: int| 0 <= j < a.len() implies code[at + j] == #[trigger] a[j] by {
        assert(whole[j] == a[j]);
    }
    assert forall|j: int| 0 <= j < b.len() implies code[at + a.len() + j] == #[trigger] b[j] by {
        assert(whole[a.len() + j] == b[j]);
    }
}

/// In the code of the first `k` tokens, the code of token `i` stands at its
/// offset.
proof fn lemma_block_in_body(tokens: Seq<Token>, k: int, i: int)
    requires
        0 <= i < k,
    ensures
        holds_at(body(tokens, k), offset_of(tokens, i), block(tokens, i, true)),
    decreases k,
{
    reveal(holds_at);
    lemma_code_len(tokens, k - 1);
    lemma_code_len(tokens, k);
    lemma_code_len(tokens, i);
    lemma_block_len(tokens, k - 1, true);
    lemma_block_len(tokens, i, true);
    lemma_offsets_grow(tokens, 0, i);
    lemma_offsets_grow(tokens, i + 1, k);
    lemma_offsets_grow(tokens, i, k - 1);
    let bytes = block(tokens, i, true);
    if i < k - 1 {
        lemma_block_in_body(tokens, k - 1, i);
        assert forall|j: int| 0 <= j < bytes.len() implies body(tokens, k)[offset_of(tokens, i)
            + j] == #[trigger] bytes[j] by {
            assert(body(tokens, k - 1)[offset_of(tokens, i) + j] == bytes[j]);
        }
    }
}

/// In the routine of a token stream the code of each token stands at its
/// offset.
pub proof fn lemma_block_in_code(tokens: Seq<Token>, i: int)
    requires
        0 <= i < tokens.len(),
    ensures
        holds_at(machine_code(tokens), offset_of(tokens, i), block(tokens, i, true)),
{
    reveal(holds_at);
    let n = tokens.len() as int;
    lemma_block_in_body(tokens, n, i);
    lemma_code_len(tokens, n);
    let bytes = block(tokens, i, true);
    assert forall|j: int| 0 <= j < bytes.len() implies machine_code(tokens)[offset_of(tokens, i)
        + j] == #[trigger] bytes[j] by {
        assert(body(tokens, n)[offset_of(tokens, i) + j] == bytes[j]);
    }
}

/// Where the four bytes of `v` stand, the operand that is decoded is `v`
/// read as a signed number.
proof fn lemma_operand_at(code: Seq<u8>, at: int, v: int)
    requires
        holds_at(code, at, le_bytes(v)),
        0 <= v < 0x1_0000_0000,
    ensures
        imm32(code, at) == signed(v),
        at + 4 <= code.len(),
{
    reveal(holds_at);
    let bytes = le_bytes(v);
    lemma_le_bytes_round_trip(v);
    assert(code[at] == bytes[0]);
    assert(code[at + 1] == bytes[1]);
    assert(code[at + 2] == bytes[2]);
    assert(code[at + 3] == bytes[3]);
}

/// `push rdi` puts `rdi` on the stack.
proof fn lemma_push(code: Seq<u8>, input: Seq<u8>, p: NativeProgress)
    requires
        0 <= p.cpu.rip < code.len(),
        code[p.cpu.rip] == 0x57,
    ensures
        native_move(code, input, p) == Move::To(
            NativeProgress {
                cpu: Cpu { rip: p.cpu.rip + 1, pushed: p.cpu.pushed.push(p.cpu.rdi), ..p.cpu },
                ..p
            },
        ),
{
    reveal(native_move);
}

/// `pop rdi` takes `rdi` back from the stack.
proof fn lemma_pop(code: Seq<u8>, input: Seq<u8>, p: NativeProgress)
    requires
        0 <= p.cpu.rip < code.len(),
        code[p.cpu.rip] == 0x5f,
        p.cpu.pushed.len() > 0,
    ensures
        native_move(code, input, p) == Move::To(
            NativeProgress {
                cpu: Cpu {
                    rip: p.cpu.rip + 1,
                    rdi: p.cpu.pushed.last(),
                    pushed: p.cpu.pushed.drop_last(),
                    ..p.cpu
                },
                ..p
            },
        ),
{
    reveal(native_move);
}

/// `mov rax, v`, `mov rdi, v` and `mov rdx, v` load a small number `v`.
proof fn lemma_load(code: Seq<u8>, input: Seq<u8>, p: NativeProgress, v: u8)
    requires
        0 <= p.cpu.rip,
        p.cpu.rip + 7 <= code.len(),
        code[p.cpu.rip] == 0x48,
        code[p.cpu.rip + 1] == 0xc7,
        code[p.cpu.rip + 3] == v,
        code[p.cpu.rip + 4] == 0,
        code[p.cpu.rip + 5] == 0,
        code[p.cpu.rip + 6] == 0,
    ensures
        code[p.cpu.rip + 2] == 0xc0 ==> native_move(code, input, p) == Move::To(
            NativeProgress { cpu: Cpu { rip: p.cpu.rip + 7, rax: v as int, ..p.cpu }, ..p },
        ),
        code[p.cpu.rip + 2] == 0xc7 ==> native_move(code, input, p) == Move::To(
            NativeProgress { cpu: Cpu { rip: p.cpu.rip + 7, rdi: v as int, ..p.cpu }, ..p },
        ),
        code[p.cpu.rip + 2] == 0xc2 ==> native_move(code, input, p) == Move::To(
            NativeProgress { cpu: Cpu { rip: p.cpu.rip + 7, rdx: v as int, ..p.cpu }, ..p },
        ),
{
    reveal(native_move);
    lemma_operand_range(code, p.cpu.rip + 3);
    assert(imm32(code, p.cpu.rip + 3) == v);
    assert((v as int) % word() == v);
}

/// `mov rsi, rdi` copies `rdi`.
proof fn lemma_copy(code: Seq<u8>, input: Seq<u8>, p: NativeProgress)
    requires
        0 <= p.cpu.rip,
        p.cpu.rip + 3 <= code.len(),
        code[p.cpu.rip] == 0x48,
        code[p.cpu.rip + 1] == 0x89,
        code[p.cpu.rip + 2] == 0xfe,
    ensures
        native_move(code, input, p) == Move::To(
            NativeProgress { cpu: Cpu { rip: p.cpu.rip + 3, rsi: p.cpu.rdi, ..p.cpu }, ..p },
        ),
{
    reveal(native_move);
}

/// `syscall` with the registers set for `write(1, rsi, 1)` writes the byte
/// at `rsi`.
proof fn lemma_write(code: Seq<u8>, input: Seq<u8>, p: NativeProgress)
    requires
        0 <= p.cpu.rip,
        p.cpu.rip + 2 <= code.len(),
        code[p.cpu.rip] == 0x0f,
        code[p.cpu.rip + 1] == 0x05,
        p.cpu.rax == 1,
        p.cpu.rdi == 1,
        p.cpu.rdx == 1,
        on_tape(p.cpu, p.cpu.rsi),
    ensures
        native_move(code, input, p) == Move::To(
            NativeProgress {
                cpu: Cpu { rip: p.cpu.rip + 2, rax: 1, ..p.cpu },
                output: p.output + repeated(p.cpu.tape[p.cpu.rsi - p.cpu.base], 1),
                ..p
            },
        ),
{
    reveal(native_move);
}

/// `syscall` with the registers set for `read(0, rsi, 1)` puts the next
/// byte of the input at `rsi`.
proof fn lemma_read(code: Seq<u8>, input: Seq<u8>, p: NativeProgress)
    requires
        0 <= p.cpu.rip,
        p.cpu.rip + 2 <= code.len(),
        code[p.cpu.rip] == 0x0f,
        code[p.cpu.rip + 1] == 0x05,
        p.cpu.rax == 0,
        p.cpu.rdi == 0,
        p.cpu.rdx == 1,
        on_tape(p.cpu, p.cpu.rsi),
        0 <= p.consumed < input.len(),
    ensures
        native_move(code, input, p) == Move::To(
            NativeProgress {
                cpu: Cpu {
                    rip: p.cpu.rip + 2,
                    rax: 1,
                    tape: p.cpu.tape.update(p.cpu.rsi - p.cpu.base, input[p.consumed]),
                    ..p.cpu
                },
                consumed: p.consumed + 1,
                ..p
            },
        ),
{
    reveal(native_move);
}

/// `mov al, [rdi]` loads the byte at `rdi` into the low byte of `rax`.
proof fn lemma_load_cell(code: Seq<u8>, input: Seq<u8>, p: NativeProgress)
    requires
        0 <= p.cpu.rip,
        p.cpu.rip + 2 <= code.len(),
        code[p.cpu.rip] == 0x8a,
        code[p.cpu.rip + 1] == 0x07,
        on_tape(p.cpu, p.cpu.rdi),
    ensures
        native_move(code, input, p) == Move::To(
            NativeProgress {
                cpu: Cpu {
                    rip: p.cpu.rip + 2,
                    rax: p.cpu.rax - p.cpu.rax % 256 + p.cpu.tape[p.cpu.rdi - p.cpu.base],
                    ..p.cpu
                },
                ..p
            },
        ),
{
    reveal(native_move);
}

/// `test al, al` sets the zero flag where the low byte of `rax` is zero.
proof fn lemma_test(code: Seq<u8>, input: Seq<u8>, p: NativeProgress)
    requires
        0 <= p.cpu.rip,
        p.cpu.rip + 2 <= code.len(),
        code[p.cpu.rip] == 0x84,
        code[p.cpu.rip + 1] == 0xc0,
    ensures
        native_move(code, input, p) == Move::To(
            NativeProgress {
                cpu: Cpu { rip: p.cpu.rip + 2, zero: p.cpu.rax % 256 == 0, ..p.cpu },
                ..p
            },
        ),
{
    reveal(native_move);
}

/// `jz` and `jnz` go to their own end plus the operand where the zero flag
/// is as they ask, and to their own end where it is not.
proof fn lemma_branch(code: Seq<u8>, input: Seq<u8>, p: NativeProgress, if_zero: bool)
    requires
        0 <= p.cpu.rip,
        p.cpu.rip + 6 <= code.len(),
        code[p.cpu.rip] == 0x0f,
        code[p.cpu.rip + 1] == (if if_zero {
            0x84u8
        } else {
            0x85u8
        }),
    ensures
        native_move(code, input, p) == Move::To(
            NativeProgress {
                cpu: Cpu {
                    rip: p.cpu.rip + 6 + (if p.cpu.zero == if_zero {
                        imm32(code, p.cpu.rip + 2)
                    } else {
                        0
                    }),
                    ..p.cpu
                },
                ..p
            },
        ),
{
    reveal(native_move);
    lemma_operand_range(code, p.cpu.rip + 2);
}

/// `add rdi, n` and `sub rdi, n` move `rdi` by `n`.
proof fn lemma_move(code: Seq<u8>, input: Seq<u8>, p: NativeProgress, right: bool)
    requires
        0 <= p.cpu.rip,
        p.cpu.rip + 7 <= code.len(),
        code[p.cpu.rip] == 0x48,
        code[p.cpu.rip + 1] == 0x81,
        code[p.cpu.rip + 2] == (if right {
            0xc7u8
        } else {
            0xefu8
        }),
    ensures
        native_move(code, input, p) == Move::To(
            NativeProgress {
                cpu: Cpu {
                    rip: p.cpu.rip + 7,
                    rdi: (if right {
                        p.cpu.rdi + imm32(code, p.cpu.rip + 3)
                    } else {
                        p.cpu.rdi - imm32(code, p.cpu.rip + 3)
                    }) % word(),
                    ..p.cpu
                },
                ..p
            },
        ),
{
    reveal(native_move);
    lemma_operand_range(code, p.cpu.rip + 3);
}

/// `add byte [rdi], v` and `sub byte [rdi], v` change the byte at `rdi` by
/// `v`, wrapping around.
proof fn lemma_change(code: Seq<u8>, input: Seq<u8>, p: NativeProgress, up: bool)
    requires
        0 <= p.cpu.rip,
        p.cpu.rip + 3 <= code.len(),
        code[p.cpu.rip] == 0x80,
        code[p.cpu.rip + 1] == (if up {
            0x07u8
        } else {
            0x2fu8
        }),
        on_tape(p.cpu, p.cpu.rdi),
    ensures
        native_move(code, input, p) == Move::To(
            NativeProgress {
                cpu: Cpu {
                    rip: p.cpu.rip + 3,
                    tape: p.cpu.tape.update(
                        p.cpu.rdi - p.cpu.base,
                        ((p.cpu.tape[p.cpu.rdi - p.cpu.base] + (if up {
                            code[p.cpu.rip + 2] as int
                        } else {
                            -(code[p.cpu.rip + 2] as int)
                        })) % 256) as u8,
                    ),
                    ..p.cpu
                },
                ..p
            },
        ),
{
    reveal(native_move);
}

/// `ret` with nothing of the routine's own on the stack returns.
proof fn lemma_return(code: Seq<u8>, input: Seq<u8>, p: NativeProgress)
    requires
        0 <= p.cpu.rip < code.len(),
        code[p.cpu.rip] == 0xc3,
        p.cpu.pushed.len() == 0,
    ensures
        native_move(code, input, p) == Move::Returned,
{
    reveal(native_move);
}

/// The number that a system call of the routine is known by: one for
/// `write`, zero for `read`. It is also the descriptor that the call uses.
spec fn call_number(write: bool) -> u8 {
    if write {
        1
    } else {
        0
    }
}

/// The routine after one of its two system calls. The registers are as the
/// call leaves them: the count of bytes in `rax`, the address of the cell
/// in `rsi`, one in `rdx`, and `rdi` as it was. A write has appended the
/// cell to the output; a read has put the next byte of the input into the
/// cell.
spec fn after_call(input: Seq<u8>, p: NativeProgress, write: bool) -> NativeProgress {
    let at = p.cpu.rdi - p.cpu.base;
    let cpu = Cpu { rip: p.cpu.rip + 28, rax: 1, rsi: p.cpu.rdi, rdx: 1, ..p.cpu };
    if write {
        NativeProgress { cpu, output: p.output + repeated(p.cpu.tape[at], 1), ..p }
    } else {
        NativeProgress {
            cpu: Cpu { tape: p.cpu.tape.update(at, input[p.consumed]), ..cpu },
            consumed: p.consumed + 1,
            ..p
        }
    }
}

/// The seven instructions of a system call of the routine do what
/// `after_call` says.
proof fn lemma_call_runs(code: Seq<u8>, input: Seq<u8>, p: NativeProgress, write: bool)
    requires
        holds_at(
            code,
            p.cpu.rip,
            if write {
                write_call()
            } else {
                read_call()
            },
        ),
        on_tape(p.cpu, p.cpu.rdi),
        write || 0 <= p.consumed < input.len(),
    ensures
        reaches(code, input, p, 7, after_call(input, p, write)),
{
    reveal(holds_at);
    let c = p.cpu;
    let at = c.rip;
    let number = call_number(write);
    let bytes = if write {
        write_call()
    } else {
        read_call()
    };
    assert(bytes[0] == 0x57u8);
    assert(bytes[1] == 0x48u8);
    assert(bytes[2] == 0xc7u8);
    assert(bytes[3] == 0xc0u8);
    assert(bytes[4] == number);
    assert(bytes[5] == 0x00u8);
    assert(bytes[6] == 0x00u8);
    assert(bytes[7] == 0x00u8);
    assert(bytes[8] == 0x48u8);
    assert(bytes[9] == 0x89u8);
    assert(bytes[10] == 0xfeu8);
    assert(bytes[11] == 0x48u8);
    assert(bytes[12] == 0xc7u8);
    assert(bytes[13] == 0xc7u8);
    assert(bytes[14] == number);
    assert(bytes[15] == 0x00u8);
    assert(bytes[16] == 0x00u8);
    assert(bytes[17] == 0x00u8);
    assert(bytes[18] == 0x48u8);
    assert(bytes[19] == 0xc7u8);
    assert(bytes[20] == 0xc2u8);
    assert(bytes[21] == 0x01u8);
    assert(bytes[22] == 0x00u8);
    assert(bytes[23] == 0x00u8);
    assert(bytes[24] == 0x00u8);
    assert(bytes[25] == 0x0fu8);
    assert(bytes[26] == 0x05u8);
    assert(bytes[27] == 0x5fu8);
    let c1 = Cpu { rip: at + 1, pushed: c.pushed.push(c.rdi), ..c };
    let c2 = Cpu { rip: at + 8, rax: number as int, ..c1 };
    let c3 = Cpu { rip: at + 11, rsi: c.rdi, ..c2 };
    let c4 = Cpu { rip: at + 18, rdi: number as int, ..c3 };
    let c5 = Cpu { rip: at + 25, rdx: 1, ..c4 };
    let p1 = NativeProgress { cpu: c1, ..p };
    let p2 = NativeProgress { cpu: c2, ..p };
    let p3 = NativeProgress { cpu: c3, ..p };
    let p4 = NativeProgress { cpu: c4, ..p };
    let p5 = NativeProgress { cpu: c5, ..p };
    let end = after_call(input, p, write);
    let p6 = NativeProgress {
        cpu: Cpu { rip: at + 27, rdi: number as int, pushed: c1.pushed, ..end.cpu },
        ..end
    };
    lemma_push(code, input, p);
    lemma_load(code, input, p1, number);
    lemma_copy(code, input, p2);
    lemma_load(code, input, p3, number);
    lemma_load(code, input, p4, 1);
    if write {
        lemma_write(code, input, p5);
    } else {
        lemma_read(code, input, p5);
    }
    lemma_pop(code, input, p6);
    assert(c1.pushed.drop_last() =~= c.pushed);
    assert(native_move(code, input, p6) == Move::To(end));
    assert(reaches(code, input, end, 0, end));
    assert(reaches(code, input, p6, 1, end));
    assert(reaches(code, input, p5, 2, end));
    assert(reaches(code, input, p4, 3, end));
    assert(reaches(code, input, p3, 4, end));
    assert(reaches(code, input, p2, 5, end));
    assert(reaches(code, input, p1, 6, end));
}

/// `n` write calls in a row write the current cell `n` times and leave
/// `rdi`, the tape and the stack as they were. The result is where the
/// routine stands after them, and after how many instructions.
proof fn lemma_write_calls_run(code: Seq<u8>, input: Seq<u8>, p: NativeProgress, n: nat) -> (r: (
    nat,
    NativeProgress,
))
    requires
        holds_at(code, p.cpu.rip, copies(write_call(), n as int)),
        on_tape(p.cpu, p.cpu.rdi),
    ensures
        reaches(code, input, p, r.0, r.1),
        r.1.cpu.rip == p.cpu.rip + 28 * n,
        r.1.cpu.rdi == p.cpu.rdi,
        r.1.cpu.tape == p.cpu.tape,
        r.1.cpu.pushed == p.cpu.pushed,
        r.1.cpu.base == p.cpu.base,
        r.1.consumed == p.consumed,
        r.1.output == p.output + repeated(p.cpu.tape[p.cpu.rdi - p.cpu.base], n as int),
    decreases n,
{
    let cell = p.cpu.tape[p.cpu.rdi - p.cpu.base];
    if n == 0 {
        assert(p.output + repeated(cell, 0) =~= p.output);
        (0, p)
    } else {
        let earlier = copies(write_call(), n - 1);
        assert(copies(write_call(), n as int) == earlier + write_call());
        lemma_holds_split(code, p.cpu.rip, earlier, write_call());
        lemma_copies_length(write_call(), n - 1);
        assert(write_call().len() == 28);
        assert(earlier.len() == 28 * (n - 1));
        let (m, mid) = lemma_write_calls_run(code, input, p, (n - 1) as nat);
        lemma_call_runs(code, input, mid, true);
        let q = after_call(input, mid, true);
        lemma_reaches_join(code, input, p, m, mid, 7, q);
        assert(q.output =~= p.output + repeated(cell, n as int));
        (m + 7, q)
    }
}

/// After a byte is loaded into `al`, `al` is that byte.
proof fn lemma_low_byte(rax: int, byte: u8)
    ensures
        (rax - rax % 256 + byte) % 256 == byte,
{
}

/// The three instructions of a branch go to the end of the branch plus its
/// operand where the byte at `rdi` is as the branch asks, and to the end of
/// the branch where it is not. They change nothing but `rax` and the flag.
proof fn lemma_branch_runs(
    code: Seq<u8>,
    input: Seq<u8>,
    q: NativeProgress,
    operand: int,
    if_zero: bool,
) -> (r: NativeProgress)
    requires
        holds_at(
            code,
            q.cpu.rip,
            (if if_zero {
                branch_if_zero()
            } else {
                branch_if_not_zero()
            }) + le_bytes(operand),
        ),
        0 <= operand < 0x1_0000_0000,
        on_tape(q.cpu, q.cpu.rdi),
    ensures
        reaches(code, input, q, 3, r),
        r.consumed == q.consumed,
        r.output == q.output,
        r.cpu.rdi == q.cpu.rdi,
        r.cpu.tape == q.cpu.tape,
        r.cpu.pushed == q.cpu.pushed,
        r.cpu.base == q.cpu.base,
        r.cpu.rip == q.cpu.rip + 10 + (if (q.cpu.tape[q.cpu.rdi - q.cpu.base] == 0) == if_zero {
            signed(operand)
        } else {
            0
        }),
{
    let c = q.cpu;
    let at = c.rip;
    let cell = c.tape[c.rdi - c.base];
    let opcode = if if_zero {
        branch_if_zero()
    } else {
        branch_if_not_zero()
    };
    lemma_holds_split(code, at, opcode, le_bytes(operand));
    lemma_operand_at(code, at + 6, operand);
    let condition = if if_zero {
        0x84u8
    } else {
        0x85u8
    };
    assert(0 <= at && at + 10 <= code.len() && code[at] == 0x8a && code[at + 1] == 0x07 && code[at
        + 2] == 0x84 && code[at + 3] == 0xc0 && code[at + 4] == 0x0f && code[at + 5]
        == condition) by {
        reveal(holds_at);
        assert(opcode[0] == 0x8a && opcode[1] == 0x07 && opcode[2] == 0x84);
        assert(opcode[3] == 0xc0 && opcode[4] == 0x0f && opcode[5] == condition);
    }
    let q1 = NativeProgress {
        cpu: Cpu { rip: at + 2, rax: c.rax - c.rax % 256 + cell, ..c },
        ..q
    };
    let q2 = NativeProgress { cpu: Cpu { rip: at + 4, zero: cell == 0, ..q1.cpu }, ..q };
    let q3 = NativeProgress {
        cpu: Cpu {
            rip: at + 10 + (if (cell == 0) == if_zero {
                signed(operand)
            } else {
                0
            }),
            ..q2.cpu
        },
        ..q
    };
    lemma_load_cell(code, input, q);
    lemma_low_byte(c.rax, cell);
    lemma_test(code, input, q1);
    lemma_branch(code, input, q2, if_zero);
    assert(reaches(code, input, q3, 0, q3));
    assert(reaches(code, input, q2, 1, q3));
    assert(reaches(code, input, q1, 2, q3));
    q3
}

/// How far `rdi` is from the first cell of the tape, as an unsigned 64-bit
/// number.
pub open spec fn reach(cpu: Cpu) -> int {
    (cpu.rdi - cpu.base) % word()
}

/// The processor stands where the machine stands: at the code of the token
/// under the program counter, with the same tape and nothing of its own on
/// the stack. The pointer is the distance of `rdi` from the first cell,
/// wrapped around the tape: `rdi` is on the current cell, or a whole number
/// of tapes away from it.
pub open spec fn in_step(tokens: Seq<Token>, s: State, cpu: Cpu) -> bool {
    &&& 0 <= s.pc <= tokens.len()
    &&& cpu.rip == offset_of(tokens, s.pc)
    &&& 0 <= cpu.rdi < word()
    &&& s.pointer == reach(cpu) % (TAPE_SIZE as int)
    &&& cpu.tape == s.tape
    &&& cpu.pushed.len() == 0
    &&& 0 <= cpu.base
    &&& cpu.base + TAPE_SIZE <= word()
}

/// The routine has come as far as the interpreter: the processor stands
/// where the machine stands, and both have read and written the same.
pub open spec fn agree(tokens: Seq<Token>, p: Progress, q: NativeProgress) -> bool {
    &&& in_step(tokens, p.state, q.cpu)
    &&& p.consumed == q.consumed
    &&& p.output == q.output
}

/// Whether a token looks at the current cell or changes it. The two that
/// move the pointer do not.
pub open spec fn uses_cell(kind: TokenKind) -> bool {
    kind != TokenKind::Right && kind != TokenKind::Left
}

/// The distance of `rdi` from the first cell after a token of `kind` and
/// run length `n`, where it was `from` before.
pub open spec fn reach_after(kind: TokenKind, n: int, from: int) -> int {
    match kind {
        TokenKind::Right => (from + n) % word(),
        TokenKind::Left => (from - n) % word(),
        _ => from,
    }
}

/// What the simulation of one step starts from: a stream whose jumps stay
/// inside it and can reach their targets, a machine and a processor that
/// agree, and a step that neither halts nor starves and that finds `rdi` on
/// the tape if it uses the cell.
spec fn ready(tokens: Seq<Token>, input: Seq<u8>, p: Progress, q: NativeProgress) -> bool {
    &&& targets_in_range(tokens)
    &&& branches_fit(tokens)
    &&& valid(p.state)
    &&& agree(tokens, p, q)
    &&& 0 <= p.consumed
    &&& !halted(tokens, p.state)
    &&& !starved(tokens, input, p)
    &&& uses_cell(tokens[p.state.pc].kind()) ==> reach(q.cpu) < TAPE_SIZE
}

/// What the simulation of one step arrives at: the routine has come from
/// `q` to `r` and agrees with the interpreter after its step, and `rdi` has
/// moved as the token says.
spec fn followed(
    tokens: Seq<Token>,
    input: Seq<u8>,
    p: Progress,
    q: NativeProgress,
    r: (nat, NativeProgress),
) -> bool {
    &&& reaches(machine_code(tokens), input, q, r.0, r.1)
    &&& agree(tokens, proceed(tokens, input, p), r.1)
    &&& reach(r.1.cpu) == reach_after(
        tokens[p.state.pc].kind(),
        tokens[p.state.pc].count() as int,
        reach(q.cpu),
    )
}

/// Where `rdi` is on the tape, it is on the current cell.
proof fn lemma_on_cell(tokens: Seq<Token>, s: State, cpu: Cpu)
    requires
        valid(s),
        in_step(tokens, s, cpu),
        reach(cpu) < TAPE_SIZE,
    ensures
        cpu.rdi == cpu.base + s.pointer,
        on_tape(cpu, cpu.rdi),
        reach(cpu) == s.pointer,
{
    let d = cpu.rdi - cpu.base;
    let m: int = 0x1_0000_0000_0000_0000;
    if d < 0 {
        assert(d % m == d + m) by (nonlinear_arith)
            requires
                -m <= d < 0,
        ;
    } else {
        lemma_below_modulus(d, m);
    }
    lemma_below_modulus(d, TAPE_SIZE as int);
}

/// Taking away before or after taking the remainder comes to the same.
proof fn lemma_mod_then_sub(x: int, y: int, m: int)
    requires
        0 < m,
    ensures
        ((x % m) - y) % m == (x - y) % m,
{
    lemma_sub_mod_noop(x, y, m);
    lemma_sub_mod_noop_right(x % m, y, m);
}

/// Adding before or after taking the remainder comes to the same.
proof fn lemma_mod_then_add(x: int, y: int, m: int)
    requires
        0 < m,
    ensures
        ((x % m) + y) % m == (x + y) % m,
{
    lemma_add_mod_noop(x, y, m);
    lemma_add_mod_noop_right(x % m, y, m);
}

/// Moving `rdi` by `by` moves its distance from the first cell by `by`,
/// and the pointer follows it around the tape.
proof fn lemma_pointer_follows(rdi: int, base: int, by: int)
    ensures
        (((rdi + by) % word()) - base) % word() == (((rdi - base) % word()) + by) % word(),
        ((((rdi - base) % word()) + by) % word()) % (TAPE_SIZE as int) == ((((rdi - base)
            % word()) % (TAPE_SIZE as int)) + by) % (TAPE_SIZE as int),
{
    let m: int = 0x1_0000_0000_0000_0000;
    let t: int = 65536;
    let d = (rdi - base) % m;
    lemma_mod_then_sub(rdi + by, base, m);
    lemma_mod_then_add(rdi - base, by, m);
    assert((((rdi + by) % m) - base) % m == (d + by) % m);
    lemma_mod_mod(d + by, t, 0x1_0000_0000_0000);
    assert(((d + by) % m) % t == (d + by) % t);
    lemma_mod_then_add(d, by, t);
}

/// A number below the modulus is its own remainder.
proof fn lemma_below_modulus(x: int, m: int)
    requires
        0 <= x < m,
    ensures
        x % m == x,
{
    assert(x % m == x) by (nonlinear_arith)
        requires
            0 <= x < m,
    ;
}

/// Adding the low byte of a count to a cell is adding the count.
proof fn lemma_count_in_byte(cell: u8, n: int)
    ensures
        ((cell + n % 256) % 256) as u8 == added(cell, n),
        ((cell - n % 256) % 256) as u8 == added(cell, -n),
{
    lemma_add_mod_noop_right(cell as int, n, 256);
    lemma_sub_mod_noop_right(cell as int, n, 256);
}

/// The code of `>` or `<` moves `rdi` as the step moves the pointer.
proof fn lemma_move_runs(tokens: Seq<Token>, input: Seq<u8>, p: Progress, q: NativeProgress) -> (r:
    (nat, NativeProgress))
    requires
        ready(tokens, input, p, q),
        tokens[p.state.pc].kind() == TokenKind::Right || tokens[p.state.pc].kind()
            == TokenKind::Left,
    ensures
        followed(tokens, input, p, q, r),
{
    let code = machine_code(tokens);
    let s = p.state;
    let i = s.pc;
    let at = offset_of(tokens, i);
    let n = tokens[i].count() as int;
    let right = tokens[i].kind() == TokenKind::Right;
    let c = q.cpu;
    let opcode = if right {
        add_pointer()
    } else {
        sub_pointer()
    };
    let by = if right {
        n
    } else {
        -n
    };
    lemma_block_in_code(tokens, i);
    lemma_holds_split(code, at, opcode, le_bytes(n));
    lemma_operand_at(code, at + 3, n);
    assert(0 <= at && code[at] == 0x48 && code[at + 1] == 0x81 && code[at + 2] == opcode[2]) by {
        reveal(holds_at);
        assert(opcode[0] == 0x48 && opcode[1] == 0x81 && opcode[2] == opcode[2]);
    }
    lemma_move(code, input, q, right);
    lemma_pointer_follows(c.rdi, c.base, by);
    let next = NativeProgress { cpu: Cpu { rip: at + 7, rdi: (c.rdi + by) % word(), ..c }, ..q };
    assert(reaches(code, input, next, 0, next));
    (1, next)
}

/// The code of `+` or `-` changes the byte at `rdi` as the step changes
/// the cell.
proof fn lemma_cell_runs(tokens: Seq<Token>, input: Seq<u8>, p: Progress, q: NativeProgress) -> (r:
    (nat, NativeProgress))
    requires
        ready(tokens, input, p, q),
        tokens[p.state.pc].kind() == TokenKind::Inc || tokens[p.state.pc].kind() == TokenKind::Dec,
    ensures
        followed(tokens, input, p, q, r),
{
    let code = machine_code(tokens);
    let s = p.state;
    let i = s.pc;
    let at = offset_of(tokens, i);
    let n = tokens[i].count() as int;
    let up = tokens[i].kind() == TokenKind::Inc;
    let c = q.cpu;
    let cell = s.tape[s.pointer];
    let v = (n % 256) as u8;
    let bytes = block(tokens, i, true);
    lemma_on_cell(tokens, s, c);
    lemma_block_in_code(tokens, i);
    assert(0 <= at && at + 3 <= code.len() && code[at] == 0x80 && code[at + 1] == bytes[1]
        && code[at + 2] == v) by {
        reveal(holds_at);
        assert(bytes[0] == 0x80 && bytes[1] == bytes[1] && bytes[2] == v);
    }
    lemma_change(code, input, q, up);
    lemma_count_in_byte(cell, n);
    let value = if up {
        added(cell, n)
    } else {
        added(cell, -n)
    };
    let next = NativeProgress {
        cpu: Cpu { rip: at + 3, tape: c.tape.update(s.pointer, value), ..c },
        ..q
    };
    assert(reaches(code, input, next, 0, next));
    (1, next)
}

/// The code of `.` writes the cell as often as the step does, and the code
/// of `,` reads into it as the step does.
proof fn lemma_io_runs(tokens: Seq<Token>, input: Seq<u8>, p: Progress, q: NativeProgress) -> (r: (
    nat,
    NativeProgress,
))
    requires
        ready(tokens, input, p, q),
        tokens[p.state.pc].kind() == TokenKind::Output || tokens[p.state.pc].kind()
            == TokenKind::Input,
    ensures
        followed(tokens, input, p, q, r),
{
    let code = machine_code(tokens);
    let i = p.state.pc;
    let n = tokens[i].count() as int;
    lemma_on_cell(tokens, p.state, q.cpu);
    lemma_block_in_code(tokens, i);
    if tokens[i].kind() == TokenKind::Output {
        lemma_write_calls_run(code, input, q, n as nat)
    } else {
        lemma_call_runs(code, input, q, false);
        (7, after_call(input, q, false))
    }
}

/// The code of `[` or `]` branches to the code of the jump's target where
/// the step takes the jump, and runs on where it does not.
proof fn lemma_jump_runs(tokens: Seq<Token>, input: Seq<u8>, p: Progress, q: NativeProgress) -> (r:
    (nat, NativeProgress))
    requires
        ready(tokens, input, p, q),
        tokens[p.state.pc].kind() is JumpIfZero || tokens[p.state.pc].kind() is JumpIfNZero,
    ensures
        followed(tokens, input, p, q, r),
{
    let code = machine_code(tokens);
    let i = p.state.pc;
    let at = offset_of(tokens, i);
    let to = target(tokens[i].kind());
    let if_zero = tokens[i].kind() is JumpIfZero;
    let operand = displacement(offset_of(tokens, to), at + 10);
    lemma_on_cell(tokens, p.state, q.cpu);
    lemma_block_in_code(tokens, i);
    lemma_branch_reaches_target(tokens, i);
    let next = lemma_branch_runs(code, input, q, operand, if_zero);
    (3, next)
}

/// The code of one token does what the interpreter's step does. The result
/// is where the routine stands after it, and after how many instructions.
proof fn lemma_token_runs(tokens: Seq<Token>, input: Seq<u8>, p: Progress, q: NativeProgress) -> (r:
    (nat, NativeProgress))
    requires
        ready(tokens, input, p, q),
    ensures
        followed(tokens, input, p, q, r),
{
    match tokens[p.state.pc].kind() {
        TokenKind::Right => lemma_move_runs(tokens, input, p, q),
        TokenKind::Left => lemma_move_runs(tokens, input, p, q),
        TokenKind::Inc => lemma_cell_runs(tokens, input, p, q),
        TokenKind::Dec => lemma_cell_runs(tokens, input, p, q),
        TokenKind::Output => lemma_io_runs(tokens, input, p, q),
        TokenKind::Input => lemma_io_runs(tokens, input, p, q),
        TokenKind::JumpIfZero(_) => lemma_jump_runs(tokens, input, p, q),
        TokenKind::JumpIfNZero(_) => lemma_jump_runs(tokens, input, p, q),
    }
}

/// At the end of the code the routine returns.
proof fn lemma_returns_at_end(tokens: Seq<Token>, input: Seq<u8>, q: NativeProgress)
    requires
        q.cpu.rip == offset_of(tokens, tokens.len() as int),
        q.cpu.pushed.len() == 0,
    ensures
        native_move(machine_code(tokens), input, q) == Move::Returned,
{
    lemma_code_len(tokens, tokens.len() as int);
    lemma_offsets_grow(tokens, 0, tokens.len() as int);
    lemma_return(machine_code(tokens), input, q);
}

/// The run from `p`, for at most `fuel` steps, is one on which the two
/// backends can agree: no step finds the input at its end, and whenever a
/// step uses the current cell, `rdi`, which is `from` bytes past the first
/// cell when the run begins, is on the tape.
///
/// The routine does not wrap the pointer around the tape as the
/// interpreter does. It may leave the tape and come back; what it may not
/// do is use a cell while it is away.
pub open spec fn in_bounds(
    tokens: Seq<Token>,
    input: Seq<u8>,
    p: Progress,
    from: int,
    fuel: nat,
) -> bool
    decreases fuel,
{
    let token = tokens[p.state.pc];
    halted(tokens, p.state) || fuel == 0 || {
        &&& uses_cell(token.kind()) ==> from < TAPE_SIZE
        &&& !starved(tokens, input, p)
        &&& in_bounds(
            tokens,
            input,
            proceed(tokens, input, p),
            reach_after(token.kind(), token.count() as int, from),
            (fuel - 1) as nat,
        )
    }
}

/// The routine follows the interpreter. From a processor and a machine
/// that agree, whatever number of steps the interpreter takes on a run
/// within bounds, the routine comes after some number of instructions to
/// where the two agree again: on the same token, with the same tape, having
/// read and written the same. Where the interpreter has halted, the routine
/// returns there. The result is that number and where the routine stands.
pub proof fn lemma_routine_follows(
    tokens: Seq<Token>,
    input: Seq<u8>,
    p: Progress,
    q: NativeProgress,
    fuel: nat,
) -> (r: (nat, NativeProgress))
    requires
        targets_in_range(tokens),
        branches_fit(tokens),
        valid(p.state),
        0 <= p.consumed,
        agree(tokens, p, q),
        in_bounds(tokens, input, p, reach(q.cpu), fuel),
    ensures
        reaches(machine_code(tokens), input, q, r.0, r.1),
        agree(tokens, run_of(tokens, input, p, fuel).0, r.1),
        run_of(tokens, input, p, fuel).1 is None ==> native_move(machine_code(tokens), input, r.1)
            == Move::Returned,
        run_of(tokens, input, p, fuel).1 != Some(RunError::InputExhausted),
    decreases fuel,
{
    let code = machine_code(tokens);
    if halted(tokens, p.state) {
        lemma_returns_at_end(tokens, input, q);
        (0, q)
    } else if fuel == 0 {
        (0, q)
    } else {
        let (a, mid) = lemma_token_runs(tokens, input, p, q);
        let next = proceed(tokens, input, p);
        lemma_step_keeps_valid(tokens, p.state, 0);
        if step_of(tokens, p.state).1 == Action::Read {
            lemma_step_keeps_valid(tokens, step_of(tokens, p.state).0, input[p.consumed]);
        }
        let (b, end) = lemma_routine_follows(tokens, input, next, mid, (fuel - 1) as nat);
        lemma_reaches_join(code, input, q, a, mid, b, end);
        (a + b, end)
    }
}

/// The routine as its caller enters it: the processor as given, nothing
/// read and nothing written.
pub open spec fn entered(cpu: Cpu) -> NativeProgress {
    NativeProgress { cpu, consumed: 0, output: Seq::empty() }
}

/// The processor as the caller leaves it on entry: at the first
/// instruction, `rdi` on the first cell of a zeroed tape that lies within
/// the address space, and the stack as the routine found it.
pub open spec fn at_entry(cpu: Cpu) -> bool {
    &&& cpu.rip == 0
    &&& cpu.rdi == cpu.base
    &&& cpu.tape == initial().tape
    &&& cpu.pushed.len() == 0
    &&& 0 <= cpu.base
    &&& cpu.base + TAPE_SIZE <= word()
}

/// The routine has returned, having written and read what the interpreter
/// has, and leaving the same tape.
pub open spec fn same_outcome(done: Progress, native: (NativeProgress, Ending)) -> bool {
    &&& native.1 == Ending::Returned
    &&& native.0.output == done.output
    &&& native.0.consumed == done.consumed
    &&& native.0.cpu.tape == done.state.tape
}

/// The two backends agree. On a run within bounds on which the interpreter
/// halts, the routine returns after having written the same bytes, having
/// read as much of the input, and leaving the same tape.
pub proof fn lemma_backends_agree(tokens: Seq<Token>, input: Seq<u8>, cpu: Cpu, fuel: nat)
    requires
        targets_in_range(tokens),
        branches_fit(tokens),
        at_entry(cpu),
        in_bounds(tokens, input, start(), 0, fuel),
        run_of(tokens, input, start(), fuel).1 is None,
    ensures
        exists|m: nat|
            same_outcome(
                run_of(tokens, input, start(), fuel).0,
                #[trigger] native_run_of(machine_code(tokens), input, entered(cpu), m),
            ),
{
    lemma_below_modulus(0, word());
    lemma_below_modulus(0, TAPE_SIZE as int);
    let (m, end) = lemma_routine_follows(tokens, input, start(), entered(cpu), fuel);
    lemma_run_after(machine_code(tokens), input, entered(cpu), m, end, 0);
    assert(native_run_of(machine_code(tokens), input, entered(cpu), m) == (
        end,
        Ending::Returned,
    ));
}

/// Emulated for `enough` instructions or more, the routine of the token
/// stream returns with the outcome `done`.
pub open spec fn returns_with(
    tokens: Seq<Token>,
    input: Seq<u8>,
    done: Progress,
    enough: nat,
) -> bool {
    forall|n: nat|
        n >= enough ==> same_outcome(
            done,
            #[trigger] native_run_of(machine_code(tokens), input, at_start(), n),
        )
}

/// The emulation of the routine of a token stream agrees with the
/// interpreter. On a run within bounds on which the interpreter halts, the
/// routine, emulated for enough instructions, returns with the same output,
/// having read as much of the input, and leaves the same tape.
pub proof fn lemma_emulation_agrees(tokens: Seq<Token>, input: Seq<u8>, fuel: nat)
    requires
        targets_in_range(tokens),
        branches_fit(tokens),
        in_bounds(tokens, input, start(), 0, fuel),
        run_of(tokens, input, start(), fuel).1 is None,
    ensures
        exists|enough: nat|
            #[trigger] returns_with(
                tokens,
                input,
                run_of(tokens, input, start(), fuel).0,
                enough,
            ),
{
    let code = machine_code(tokens);
    let done = run_of(tokens, input, start(), fuel).0;
    assert(entry().tape =~= initial().tape);
    lemma_backends_agree(tokens, input, entry(), fuel);
    assert(at_start() == entered(entry()));
    let m = choose|m: nat| same_outcome(done, #[trigger] native_run_of(code, input, at_start(), m));
    assert forall|n: nat| n >= m implies same_outcome(
        done,
        #[trigger] native_run_of(code, input, at_start(), n),
    ) by {
        lemma_returned_for_good(code, input, at_start(), m, (n - m) as nat);
    }
    assert(returns_with(tokens, input, done, m));
}

} // verus!
