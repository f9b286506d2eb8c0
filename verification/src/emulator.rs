//! Runs a routine on the model of the processor.

use crate::interpreter::{repeated, Action, TAPE_SIZE};
use crate::native::{decode, execute, imm32, native_move, native_run_of, outcome, word};
use crate::native::{Cpu, Ending, Instr, NativeProgress};
use vstd::arithmetic::div_mod::{lemma_add_mod_noop_right, lemma_sub_mod_noop_right};
use vstd::prelude::*;

verus! {

/// The address at which the emulated tape begins.
pub const EMULATED_BASE: u64 = 0x1_0000;

/// The processor as a routine finds it on entry: at the first instruction,
/// `rdi` on the first cell of a zeroed tape, the other registers zero.
pub open spec fn entry() -> Cpu {
    Cpu {
        rip: 0,
        rax: 0,
        rdi: EMULATED_BASE as int,
        rsi: 0,
        rdx: 0,
        zero: false,
        pushed: Seq::empty(),
        base: EMULATED_BASE as int,
        tape: Seq::new(TAPE_SIZE as nat, |i: int| 0u8),
    }
}

/// The state of an emulation.
struct Processor {
    rip: i128,
    rax: u64,
    rdi: u64,
    rsi: u64,
    rdx: u64,
    zero: bool,
    pushed: Vec<u64>,
    tape: [u8; 65536],
    consumed: usize,
    output: Vec<u8>,
}

impl Processor {
    /// The processor of the model that this state stands for.
    spec fn cpu(&self) -> Cpu {
        Cpu {
            rip: self.rip as int,
            rax: self.rax as int,
            rdi: self.rdi as int,
            rsi: self.rsi as int,
            rdx: self.rdx as int,
            zero: self.zero,
            pushed: self.pushed@.map_values(|v: u64| v as int),
            base: EMULATED_BASE as int,
            tape: self.tape@,
        }
    }

    /// The progress of the model that this state stands for.
    spec fn progress(&self) -> NativeProgress {
        NativeProgress { cpu: self.cpu(), consumed: self.consumed as int, output: self.output@ }
    }
}

/// The operand at offset `at`.
fn operand_at(code: &Vec<u8>, at: usize) -> (v: i64)
    requires
        at + 4 <= code.len(),
    ensures
        v == imm32(code@, at as int),
{
    let low: u64 = code[at] as u64 + 256 * (code[at + 1] as u64);
    let high: u64 = code[at + 2] as u64 + 256 * (code[at + 3] as u64);
    let bits: u64 = low + 65536 * high;
    if bits >= 0x8000_0000 {
        bits as i64 - 0x1_0000_0000
    } else {
        bits as i64
    }
}

/// The instruction at offset `at` and its length.
fn decode_at(code: &Vec<u8>, at: i128) -> (r: Option<(Instr, u8)>)
    ensures
        match r {
            Some((instr, size)) => decode(code@, at as int) == Some((instr, size as int)),
            None => decode(code@, at as int) is None,
        },
{
    if at < 0 || at >= code.len() as i128 {
        return None;
    }
    let a: usize = at as usize;
    let left: usize = code.len() - a;
    let b0: u8 = code[a];
    if b0 == 0x57 {
        return Some((Instr::PushRdi, 1));
    }
    if b0 == 0x5f {
        return Some((Instr::PopRdi, 1));
    }
    if b0 == 0xc3 {
        return Some((Instr::Ret, 1));
    }
    if left < 2 {
        return None;
    }
    let b1: u8 = code[a + 1];
    if b0 == 0x0f && b1 == 0x05 {
        return Some((Instr::Syscall, 2));
    }
    if b0 == 0x8a && b1 == 0x07 {
        return Some((Instr::LoadAl, 2));
    }
    if b0 == 0x84 && b1 == 0xc0 {
        return Some((Instr::TestAl, 2));
    }
    if left < 3 {
        return None;
    }
    let b2: u8 = code[a + 2];
    if b0 == 0x48 && b1 == 0x89 && b2 == 0xfe {
        return Some((Instr::MovRsiRdi, 3));
    }
    if b0 == 0x80 && b1 == 0x07 {
        return Some((Instr::AddCell(b2), 3));
    }
    if b0 == 0x80 && b1 == 0x2f {
        return Some((Instr::SubCell(b2), 3));
    }
    if left < 6 {
        return None;
    }
    if b0 == 0x0f && b1 == 0x84 {
        return Some((Instr::Jz(operand_at(code, a + 2)), 6));
    }
    if b0 == 0x0f && b1 == 0x85 {
        return Some((Instr::Jnz(operand_at(code, a + 2)), 6));
    }
    if left < 7 {
        return None;
    }
    if b0 == 0x48 && b1 == 0xc7 && b2 == 0xc0 {
        return Some((Instr::MovRax(operand_at(code, a + 3)), 7));
    }
    if b0 == 0x48 && b1 == 0xc7 && b2 == 0xc7 {
        return Some((Instr::MovRdi(operand_at(code, a + 3)), 7));
    }
    if b0 == 0x48 && b1 == 0xc7 && b2 == 0xc2 {
        return Some((Instr::MovRdx(operand_at(code, a + 3)), 7));
    }
    if b0 == 0x48 && b1 == 0x81 && b2 == 0xc7 {
        return Some((Instr::AddRdi(operand_at(code, a + 3)), 7));
    }
    if b0 == 0x48 && b1 == 0x81 && b2 == 0xef {
        return Some((Instr::SubRdi(operand_at(code, a + 3)), 7));
    }
    None
}

/// A signed number as a register holds it.
fn wrapped(v: i64) -> (r: u64)
    ensures
        r == (v as int) % word(),
{
    if v >= 0 {
        v as u64
    } else {
        let below: u64 = (-(v + 1)) as u64;
        u64::MAX - below
    }
}

/// A register after `v` is added to it.
fn register_plus(x: u64, v: i64) -> (r: u64)
    ensures
        r == (x + v) % word(),
{
    proof {
        lemma_add_mod_noop_right(x as int, v as int, word());
    }
    x.wrapping_add(wrapped(v))
}

/// A register after `v` is taken from it.
fn register_minus(x: u64, v: i64) -> (r: u64)
    ensures
        r == (x - v) % word(),
{
    proof {
        lemma_sub_mod_noop_right(x as int, v as int, word());
    }
    x.wrapping_sub(wrapped(v))
}

/// Which cell of the tape stands at `address`, if any does.
fn cell_at(address: u64) -> (r: Option<usize>)
    ensures
        r == (if EMULATED_BASE <= address < EMULATED_BASE + TAPE_SIZE {
            Some((address - EMULATED_BASE) as usize)
        } else {
            None::<usize>
        }),
{
    if address >= EMULATED_BASE && address - EMULATED_BASE < 65536 {
        Some((address - EMULATED_BASE) as usize)
    } else {
        None
    }
}

/// What the next instruction comes to.
enum Plan {
    /// It can be run, and the routine goes on.
    Go(Instr, u8),
    /// The routine returns.
    Return,
    /// The model does not say.
    Stop,
}

/// Looks at the next instruction without running it.
fn plan(code: &Vec<u8>, st: &Processor) -> (r: Plan)
    ensures
        match r {
            Plan::Go(instr, size) => {
                &&& 0 <= st.rip < code.len()
                &&& decode(code@, st.rip as int) == Some((instr, size as int))
                &&& execute(instr, size as int, st.cpu()) is Some
                &&& execute(instr, size as int, st.cpu()).unwrap().1 != Action::Halt
            },
            Plan::Return => {
                &&& decode(code@, st.rip as int) == Some((Instr::Ret, 1int))
                &&& execute(Instr::Ret, 1, st.cpu()) == Some((st.cpu(), Action::Halt))
            },
            Plan::Stop => {
                ||| decode(code@, st.rip as int) is None
                ||| {
                    let (instr, size) = decode(code@, st.rip as int).unwrap();
                    execute(instr, size, st.cpu()) is None
                }
            },
        },
{
    match decode_at(code, st.rip) {
        None => Plan::Stop,
        Some((instr, size)) => {
            let defined = match instr {
                Instr::Ret => {
                    return if st.pushed.len() == 0 {
                        Plan::Return
                    } else {
                        Plan::Stop
                    };
                },
                Instr::PopRdi => st.pushed.len() > 0,
                Instr::Syscall => st.rdx == 1 && cell_at(st.rsi).is_some() && ((st.rax == 1
                    && st.rdi == 1) || (st.rax == 0 && st.rdi == 0)),
                Instr::AddCell(_) => cell_at(st.rdi).is_some(),
                Instr::SubCell(_) => cell_at(st.rdi).is_some(),
                Instr::LoadAl => cell_at(st.rdi).is_some(),
                _ => true,
            };
            if defined {
                Plan::Go(instr, size)
            } else {
                Plan::Stop
            }
        },
    }
}

/// What `apply` and its parts start from: an instruction that can be run
/// and after which the routine goes on.
spec fn good_to_go(instr: Instr, size: u8, st: Processor) -> bool {
    &&& 0 <= st.rip <= usize::MAX
    &&& size <= 7
    &&& execute(instr, size as int, st.cpu()) is Some
    &&& execute(instr, size as int, st.cpu()).unwrap().1 != Action::Halt
}

/// What `apply` and its parts arrive at: the progress that the model gives
/// for the instruction.
spec fn gone(instr: Instr, size: u8, input: Seq<u8>, before: Processor, after: Processor) -> bool {
    after.progress() == outcome(
        input,
        before.progress(),
        execute(instr, size as int, before.cpu()).unwrap().0,
        execute(instr, size as int, before.cpu()).unwrap().1,
    )
}

/// Runs `push rdi` or `pop rdi`.
fn apply_stack(instr: Instr, size: u8, input: &Vec<u8>, st: &mut Processor)
    requires
        good_to_go(instr, size, *old(st)),
        instr == Instr::PushRdi || instr == Instr::PopRdi,
    ensures
        gone(instr, size, input@, *old(st), *final(st)),
{
    let ghost before = st.pushed@.map_values(|v: u64| v as int);
    st.rip = st.rip + size as i128;
    match instr {
        Instr::PushRdi => {
            st.pushed.push(st.rdi);
            assert(st.pushed@.map_values(|v: u64| v as int) =~= before.push(st.rdi as int));
        },
        _ => {
            let top = st.pushed.pop();
            st.rdi = top.unwrap();
            assert(st.pushed@.map_values(|v: u64| v as int) =~= before.drop_last());
        },
    }
}

/// Runs one of the instructions that load or move a register.
fn apply_register(instr: Instr, size: u8, input: &Vec<u8>, st: &mut Processor)
    requires
        good_to_go(instr, size, *old(st)),
        instr is MovRax || instr is MovRdi || instr is MovRdx || instr == Instr::MovRsiRdi
            || instr is AddRdi || instr is SubRdi || instr == Instr::TestAl,
    ensures
        gone(instr, size, input@, *old(st), *final(st)),
{
    st.rip = st.rip + size as i128;
    match instr {
        Instr::MovRax(v) => {
            st.rax = wrapped(v);
        },
        Instr::MovRdi(v) => {
            st.rdi = wrapped(v);
        },
        Instr::MovRdx(v) => {
            st.rdx = wrapped(v);
        },
        Instr::MovRsiRdi => {
            st.rsi = st.rdi;
        },
        Instr::AddRdi(v) => {
            st.rdi = register_plus(st.rdi, v);
        },
        Instr::SubRdi(v) => {
            st.rdi = register_minus(st.rdi, v);
        },
        _ => {
            st.zero = st.rax % 256 == 0;
        },
    }
}

/// Runs one of the instructions that look at the byte at `rdi` or change
/// it.
fn apply_cell(instr: Instr, size: u8, input: &Vec<u8>, st: &mut Processor)
    requires
        good_to_go(instr, size, *old(st)),
        instr is AddCell || instr is SubCell || instr == Instr::LoadAl,
    ensures
        gone(instr, size, input@, *old(st), *final(st)),
{
    st.rip = st.rip + size as i128;
    let at = cell_at(st.rdi).unwrap();
    match instr {
        Instr::AddCell(v) => {
            st.tape[at] = st.tape[at].wrapping_add(v);
        },
        Instr::SubCell(v) => {
            st.tape[at] = st.tape[at].wrapping_sub(v);
        },
        _ => {
            st.rax = st.rax - st.rax % 256 + st.tape[at] as u64;
        },
    }
}

/// Runs `syscall`: writes the byte at `rsi`, or reads the next byte of the
/// input into it.
fn apply_call(instr: Instr, size: u8, input: &Vec<u8>, st: &mut Processor)
    requires
        good_to_go(instr, size, *old(st)),
        instr == Instr::Syscall,
    ensures
        gone(instr, size, input@, *old(st), *final(st)),
{
    st.rip = st.rip + size as i128;
    let at = cell_at(st.rsi).unwrap();
    if st.rax == 1 {
        st.output.push(st.tape[at]);
        assert(st.output@ =~= old(st).output@ + repeated(old(st).tape@[at as int], 1));
    } else {
        if st.consumed < input.len() {
            st.tape[at] = input[st.consumed];
            st.consumed = st.consumed + 1;
            st.rax = 1;
        } else {
            st.rax = 0;
        }
    }
}

/// Runs `jz` or `jnz`.
fn apply_branch(instr: Instr, size: u8, input: &Vec<u8>, st: &mut Processor)
    requires
        good_to_go(instr, size, *old(st)),
        instr is Jz || instr is Jnz,
    ensures
        gone(instr, size, input@, *old(st), *final(st)),
{
    let next: i128 = st.rip + size as i128;
    st.rip = next;
    match instr {
        Instr::Jz(d) => {
            if st.zero {
                st.rip = next + d as i128;
            }
        },
        Instr::Jnz(d) => {
            if !st.zero {
                st.rip = next + d as i128;
            }
        },
        _ => {},
    }
}

/// Runs an instruction that `plan` has found good to go.
fn apply(instr: Instr, size: u8, input: &Vec<u8>, st: &mut Processor)
    requires
        good_to_go(instr, size, *old(st)),
    ensures
        gone(instr, size, input@, *old(st), *final(st)),
{
    match instr {
        Instr::PushRdi => apply_stack(instr, size, input, st),
        Instr::PopRdi => apply_stack(instr, size, input, st),
        Instr::Syscall => apply_call(instr, size, input, st),
        Instr::AddCell(_) => apply_cell(instr, size, input, st),
        Instr::SubCell(_) => apply_cell(instr, size, input, st),
        Instr::LoadAl => apply_cell(instr, size, input, st),
        Instr::Jz(_) => apply_branch(instr, size, input, st),
        Instr::Jnz(_) => apply_branch(instr, size, input, st),
        Instr::Ret => {},
        _ => apply_register(instr, size, input, st),
    }
}

/// What an emulation comes to.
pub struct Emulation {
    /// Every byte that the routine wrote, in order.
    pub output: Vec<u8>,
    /// How many bytes of the input the routine read.
    pub consumed: usize,
    /// The tape as the routine left it.
    pub tape: [u8; 65536],
    /// How the run ended.
    pub ending: Ending,
}

/// Where every emulation starts: the processor at the entry of the
/// routine, nothing read and nothing written.
pub open spec fn at_start() -> NativeProgress {
    NativeProgress { cpu: entry(), consumed: 0, output: Seq::empty() }
}

/// Runs the routine `code` on the model of the processor, reading from
/// `input` and collecting what it writes, for at most `max_instructions`
/// instructions.
///
/// The result is that of `native_run_of`: what was written, how much was
/// read, the tape, and whether the routine returned, was still running, or
/// did something of which the model does not say what happens.
pub fn emulate(code: &Vec<u8>, input: &Vec<u8>, max_instructions: usize) -> (r: Emulation)
    ensures
        ({
            let (end, how) = native_run_of(code@, input@, at_start(), max_instructions as nat);
            &&& r.ending == how
            &&& r.output@ == end.output
            &&& r.consumed == end.consumed
            &&& r.tape@ == end.cpu.tape
        }),
{
    let mut st = Processor {
        rip: 0,
        rax: 0,
        rdi: EMULATED_BASE,
        rsi: 0,
        rdx: 0,
        zero: false,
        pushed: Vec::new(),
        tape: [0u8;65536],
        consumed: 0,
        output: Vec::new(),
    };
    let mut fuel: usize = max_instructions;
    proof {
        assert(st.cpu().pushed =~= entry().pushed);
        assert(st.cpu().tape =~= entry().tape);
    }
    loop
        invariant
            native_run_of(code@, input@, at_start(), max_instructions as nat) == native_run_of(
                code@,
                input@,
                st.progress(),
                fuel as nat,
            ),
        decreases fuel,
    {
        proof {
            reveal(native_move);
        }
        let ending = match plan(code, &st) {
            Plan::Stop => Some(Ending::Undefined),
            Plan::Return => Some(Ending::Returned),
            Plan::Go(instr, size) => {
                if fuel == 0 {
                    Some(Ending::OutOfSteps)
                } else {
                    apply(instr, size, input, &mut st);
                    fuel = fuel - 1;
                    None
                }
            },
        };
        if let Some(how) = ending {
            return Emulation {
                output: st.output,
                consumed: st.consumed,
                tape: st.tape,
                ending: how,
            };
        }
    }
}

} // verus!
