//! What the generated routine does when the processor runs it.
//!
//! The processor is modelled as far as the code generator needs it: the
//! sixteen instruction forms that it emits, four registers, the zero flag,
//! what the routine has pushed, and the tape as the only memory. The two
//! system calls are taken to succeed: a write writes its byte, and a read
//! delivers the next byte of the input, or none at its end. Of anything
//! else (other bytes, other calls, memory off the tape) the model says
//! nothing.

use crate::interpreter::{repeated, Action};
use crate::jit_compiler::signed;
use vstd::prelude::*;

verus! {

/// The number of values a 64-bit register can hold.
pub open spec fn word() -> int {
    0x1_0000_0000_0000_0000
}

/// The instructions that the code generator emits.
#[derive(Clone, Copy, Debug, PartialEq, Eq, Structural)]
pub enum Instr {
    /// `push rdi`
    PushRdi,
    /// `pop rdi`
    PopRdi,
    /// `mov rax, imm32`
    MovRax(i64),
    /// `mov rdi, imm32`
    MovRdi(i64),
    /// `mov rdx, imm32`
    MovRdx(i64),
    /// `mov rsi, rdi`
    MovRsiRdi,
    /// `syscall`
    Syscall,
    /// `add rdi, imm32`
    AddRdi(i64),
    /// `sub rdi, imm32`
    SubRdi(i64),
    /// `add byte [rdi], imm8`
    AddCell(u8),
    /// `sub byte [rdi], imm8`
    SubCell(u8),
    /// `mov al, [rdi]`
    LoadAl,
    /// `test al, al`
    TestAl,
    /// `jz rel32`
    Jz(i64),
    /// `jnz rel32`
    Jnz(i64),
    /// `ret`
    Ret,
}

/// The 32-bit operand that stands at offset `at`, sign-extended.
pub open spec fn imm32(code: Seq<u8>, at: int) -> int {
    signed(code[at] + 256 * code[at + 1] + 65536 * code[at + 2] + 16777216 * code[at + 3])
}

/// An operand is a signed 32-bit number.
pub proof fn lemma_operand_range(code: Seq<u8>, at: int)
    ensures
        -0x8000_0000 <= imm32(code, at) < 0x8000_0000,
{
}

/// The instruction that begins at offset `at` and its length in bytes, or
/// `None` where the bytes are none of the forms above.
pub open spec fn decode(code: Seq<u8>, at: int) -> Option<(Instr, int)> {
    let b0 = code[at];
    let b1 = code[at + 1];
    let b2 = code[at + 2];
    let left = code.len() - at;
    if at < 0 || left < 1 {
        None
    } else if b0 == 0x57 {
        Some((Instr::PushRdi, 1))
    } else if b0 == 0x5f {
        Some((Instr::PopRdi, 1))
    } else if b0 == 0xc3 {
        Some((Instr::Ret, 1))
    } else if left < 2 {
        None
    } else if b0 == 0x0f && b1 == 0x05 {
        Some((Instr::Syscall, 2))
    } else if b0 == 0x8a && b1 == 0x07 {
        Some((Instr::LoadAl, 2))
    } else if b0 == 0x84 && b1 == 0xc0 {
        Some((Instr::TestAl, 2))
    } else if left < 3 {
        None
    } else if b0 == 0x48 && b1 == 0x89 && b2 == 0xfe {
        Some((Instr::MovRsiRdi, 3))
    } else if b0 == 0x80 && b1 == 0x07 {
        Some((Instr::AddCell(b2), 3))
    } else if b0 == 0x80 && b1 == 0x2f {
        Some((Instr::SubCell(b2), 3))
    } else if left < 6 {
        None
    } else if b0 == 0x0f && b1 == 0x84 {
        Some((Instr::Jz(imm32(code, at + 2) as i64), 6))
    } else if b0 == 0x0f && b1 == 0x85 {
        Some((Instr::Jnz(imm32(code, at + 2) as i64), 6))
    } else if left < 7 {
        None
    } else if b0 == 0x48 && b1 == 0xc7 && b2 == 0xc0 {
        Some((Instr::MovRax(imm32(code, at + 3) as i64), 7))
    } else if b0 == 0x48 && b1 == 0xc7 && b2 == 0xc7 {
        Some((Instr::MovRdi(imm32(code, at + 3) as i64), 7))
    } else if b0 == 0x48 && b1 == 0xc7 && b2 == 0xc2 {
        Some((Instr::MovRdx(imm32(code, at + 3) as i64), 7))
    } else if b0 == 0x48 && b1 == 0x81 && b2 == 0xc7 {
        Some((Instr::AddRdi(imm32(code, at + 3) as i64), 7))
    } else if b0 == 0x48 && b1 == 0x81 && b2 == 0xef {
        Some((Instr::SubRdi(imm32(code, at + 3) as i64), 7))
    } else {
        None
    }
}

/// The state of the processor while it runs the routine.
pub struct Cpu {
    /// The offset in the routine of the instruction that runs next.
    pub rip: int,
    pub rax: int,
    pub rdi: int,
    pub rsi: int,
    pub rdx: int,
    /// The zero flag.
    pub zero: bool,
    /// What the routine has pushed and not yet popped, the last on top.
    pub pushed: Seq<int>,
    /// The address of the first cell of the tape.
    pub base: int,
    /// The cells of the tape, the only memory that the routine may touch.
    pub tape: Seq<u8>,
}

/// Whether `address` is that of a cell of the tape.
pub open spec fn on_tape(cpu: Cpu, address: int) -> bool {
    cpu.base <= address < cpu.base + cpu.tape.len()
}

/// What one instruction of length `size` does: the state after it and what
/// it asks of the world, or `None` where the model does not say (an access
/// outside the tape, a pop or a return with nothing of the routine's own
/// on the stack, a system call other than the two that are emitted).
///
/// The two system calls are `write(1, rsi, 1)`, which asks for the byte at
/// `rsi` to be written, and `read(0, rsi, 1)`, which asks for a byte; both
/// leave the count of bytes in `rax`. The byte that is read is put in
/// place by `received`.
pub open spec fn execute(instr: Instr, size: int, cpu: Cpu) -> Option<(Cpu, Action)> {
    let next = Cpu { rip: cpu.rip + size, ..cpu };
    match instr {
        Instr::PushRdi => Some(
            (Cpu { pushed: cpu.pushed.push(cpu.rdi), ..next }, Action::Continue),
        ),
        Instr::PopRdi => if cpu.pushed.len() > 0 {
            Some(
                (
                    Cpu { rdi: cpu.pushed.last(), pushed: cpu.pushed.drop_last(), ..next },
                    Action::Continue,
                ),
            )
        } else {
            None
        },
        Instr::MovRax(v) => Some((Cpu { rax: (v as int) % word(), ..next }, Action::Continue)),
        Instr::MovRdi(v) => Some((Cpu { rdi: (v as int) % word(), ..next }, Action::Continue)),
        Instr::MovRdx(v) => Some((Cpu { rdx: (v as int) % word(), ..next }, Action::Continue)),
        Instr::MovRsiRdi => Some((Cpu { rsi: cpu.rdi, ..next }, Action::Continue)),
        Instr::Syscall => if cpu.rax == 1 && cpu.rdi == 1 && cpu.rdx == 1 && on_tape(
            cpu,
            cpu.rsi,
        ) {
            Some(
                (
                    Cpu { rax: 1, ..next },
                    Action::Emit { byte: cpu.tape[cpu.rsi - cpu.base], times: 1 },
                ),
            )
        } else if cpu.rax == 0 && cpu.rdi == 0 && cpu.rdx == 1 && on_tape(cpu, cpu.rsi) {
            Some((Cpu { rax: 1, ..next }, Action::Read))
        } else {
            None
        },
        Instr::AddRdi(v) => Some((Cpu { rdi: (cpu.rdi + v) % word(), ..next }, Action::Continue)),
        Instr::SubRdi(v) => Some((Cpu { rdi: (cpu.rdi - v) % word(), ..next }, Action::Continue)),
        Instr::AddCell(v) => if on_tape(cpu, cpu.rdi) {
            let at = cpu.rdi - cpu.base;
            Some(
                (
                    Cpu { tape: cpu.tape.update(at, ((cpu.tape[at] + v) % 256) as u8), ..next },
                    Action::Continue,
                ),
            )
        } else {
            None
        },
        Instr::SubCell(v) => if on_tape(cpu, cpu.rdi) {
            let at = cpu.rdi - cpu.base;
            Some(
                (
                    Cpu { tape: cpu.tape.update(at, ((cpu.tape[at] - v) % 256) as u8), ..next },
                    Action::Continue,
                ),
            )
        } else {
            None
        },
        Instr::LoadAl => if on_tape(cpu, cpu.rdi) {
            Some(
                (
                    Cpu { rax: cpu.rax - cpu.rax % 256 + cpu.tape[cpu.rdi - cpu.base], ..next },
                    Action::Continue,
                ),
            )
        } else {
            None
        },
        Instr::TestAl => Some((Cpu { zero: cpu.rax % 256 == 0, ..next }, Action::Continue)),
        Instr::Jz(d) => Some(
            (
                if cpu.zero {
                    Cpu { rip: next.rip + d, ..cpu }
                } else {
                    next
                },
                Action::Continue,
            ),
        ),
        Instr::Jnz(d) => Some(
            (
                if !cpu.zero {
                    Cpu { rip: next.rip + d, ..cpu }
                } else {
                    next
                },
                Action::Continue,
            ),
        ),
        Instr::Ret => if cpu.pushed.len() == 0 {
            Some((cpu, Action::Halt))
        } else {
            None
        },
    }
}

/// The processor after a byte that was read has arrived: it stands where
/// `rsi` points. With `None` the input was at its end: `read` leaves the
/// cell as it is and reports no byte.
pub open spec fn received(cpu: Cpu, byte: Option<u8>) -> Cpu {
    match byte {
        Some(b) => Cpu { tape: cpu.tape.update(cpu.rsi - cpu.base, b), ..cpu },
        None => Cpu { rax: 0, ..cpu },
    }
}

/// How far the routine has come: the processor, how many bytes of the
/// input were read, and what was written.
pub struct NativeProgress {
    pub cpu: Cpu,
    pub consumed: int,
    pub output: Seq<u8>,
}

/// What running one instruction leads to.
pub enum Move {
    /// The routine goes on from here.
    To(NativeProgress),
    /// The routine has returned to its caller.
    Returned,
    /// The model does not say what happens.
    Undefined,
}

/// The progress after an instruction that left the processor as `cpu` and
/// asked for `action`: a write appends to the output, a read takes the
/// next byte of `input`.
pub open spec fn outcome(
    input: Seq<u8>,
    p: NativeProgress,
    cpu: Cpu,
    action: Action,
) -> NativeProgress {
    match action {
        Action::Emit { byte, times } => NativeProgress {
            cpu,
            output: p.output + repeated(byte, times as int),
            ..p
        },
        Action::Read => if p.consumed < input.len() {
            NativeProgress {
                cpu: received(cpu, Some(input[p.consumed])),
                consumed: p.consumed + 1,
                ..p
            }
        } else {
            NativeProgress { cpu: received(cpu, None), ..p }
        },
        _ => NativeProgress { cpu, ..p },
    }
}

/// Runs the instruction at `rip` and, where it is a system call, does what
/// it asks against `input` and the output.
#[verifier::opaque]
pub open spec fn native_move(code: Seq<u8>, input: Seq<u8>, p: NativeProgress) -> Move {
    match decode(code, p.cpu.rip) {
        None => Move::Undefined,
        Some((instr, size)) => match execute(instr, size, p.cpu) {
            None => Move::Undefined,
            Some((cpu, action)) => match action {
                Action::Halt => Move::Returned,
                _ => Move::To(outcome(input, p, cpu, action)),
            },
        },
    }
}

/// How a run of the routine ends.
#[derive(Clone, Copy, Debug, PartialEq, Eq, Structural)]
pub enum Ending {
    /// The routine returned.
    Returned,
    /// The routine was still running after the allowed number of
    /// instructions.
    OutOfSteps,
    /// The routine did something of which the model does not say what
    /// happens.
    Undefined,
}

/// The run of the routine `code` on a given input, from `p` on, for at most
/// `fuel` instructions: where it ends and how.
pub open spec fn native_run_of(code: Seq<u8>, input: Seq<u8>, p: NativeProgress, fuel: nat) -> (
    NativeProgress,
    Ending,
)
    decreases fuel,
{
    match native_move(code, input, p) {
        Move::Returned => (p, Ending::Returned),
        Move::Undefined => (p, Ending::Undefined),
        Move::To(next) => if fuel == 0 {
            (p, Ending::OutOfSteps)
        } else {
            native_run_of(code, input, next, (fuel - 1) as nat)
        },
    }
}

/// After exactly `n` instructions the routine has come from `p` to `q`,
/// without returning on the way.
pub open spec fn reaches(
    code: Seq<u8>,
    input: Seq<u8>,
    p: NativeProgress,
    n: nat,
    q: NativeProgress,
) -> bool
    decreases n,
{
    if n == 0 {
        p == q
    } else {
        match native_move(code, input, p) {
            Move::To(mid) => reaches(code, input, mid, (n - 1) as nat, q),
            _ => false,
        }
    }
}

/// Two stretches of a run, one after the other, are a stretch.
pub proof fn lemma_reaches_join(
    code: Seq<u8>,
    input: Seq<u8>,
    p: NativeProgress,
    a: nat,
    mid: NativeProgress,
    b: nat,
    q: NativeProgress,
)
    requires
        reaches(code, input, p, a, mid),
        reaches(code, input, mid, b, q),
    ensures
        reaches(code, input, p, a + b, q),
    decreases a,
{
    if a > 0 {
        match native_move(code, input, p) {
            Move::To(next) => {
                lemma_reaches_join(code, input, next, (a - 1) as nat, mid, b, q);
            },
            _ => {},
        }
    }
}

/// A run that begins with a stretch goes on as the run from the end of the
/// stretch does.
pub proof fn lemma_run_after(
    code: Seq<u8>,
    input: Seq<u8>,
    p: NativeProgress,
    a: nat,
    q: NativeProgress,
    fuel: nat,
)
    requires
        reaches(code, input, p, a, q),
    ensures
        native_run_of(code, input, p, a + fuel) == native_run_of(code, input, q, fuel),
    decreases a,
{
    if a > 0 {
        match native_move(code, input, p) {
            Move::To(next) => {
                lemma_run_after(code, input, next, (a - 1) as nat, q, fuel);
            },
            _ => {},
        }
    }
}

/// A routine that has returned within some number of instructions has
/// returned within any greater number, in the same way.
pub proof fn lemma_returned_for_good(
    code: Seq<u8>,
    input: Seq<u8>,
    p: NativeProgress,
    fuel: nat,
    more: nat,
)
    requires
        native_run_of(code, input, p, fuel).1 == Ending::Returned,
    ensures
        native_run_of(code, input, p, fuel + more) == native_run_of(code, input, p, fuel),
    decreases fuel,
{
    match native_move(code, input, p) {
        Move::To(next) => {
            if fuel > 0 {
                lemma_returned_for_good(code, input, next, (fuel - 1) as nat, more);
            }
        },
        _ => {},
    }
}

} // verus!
