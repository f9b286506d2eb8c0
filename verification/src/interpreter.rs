//! The reference semantics of a token stream: a tape of bytes, a pointer
//! into it, and a program counter.

use crate::tokenizer::{Token, TokenKind};
use vstd::prelude::*;

verus! {

/// The number of cells on the tape, and the modulus of the pointer.
pub const TAPE_SIZE: usize = 65536;

/// The state of a machine: the tape, the cell the pointer is on, and the
/// index of the token that runs next.
pub struct State {
    pub tape: Seq<u8>,
    pub pointer: int,
    pub pc: int,
}

/// What the world has to do after a step before the machine goes on.
#[derive(Clone, Copy, Debug, PartialEq, Eq, Structural)]
pub enum Action {
    /// Nothing: the step was internal.
    Continue,
    /// Write `byte` to the output, `times` times.
    Emit { byte: u8, times: u16 },
    /// Read one byte and hand it to `Machine::store`.
    Read,
    /// The program counter is past the last token: the run is over.
    Halt,
}

/// A tape of `TAPE_SIZE` cells with a pointer on one of them.
pub open spec fn valid(s: State) -> bool {
    &&& s.tape.len() == TAPE_SIZE
    &&& 0 <= s.pointer < TAPE_SIZE
    &&& 0 <= s.pc
}

/// The state every run starts in: all cells zero, pointer and program
/// counter at zero.
pub open spec fn initial() -> State {
    State { tape: Seq::new(TAPE_SIZE as nat, |i: int| 0u8), pointer: 0, pc: 0 }
}

/// The pointer after moving it by `by` cells, to the right if positive: it
/// wraps around the ends of the tape.
pub open spec fn moved(pointer: int, by: int) -> int {
    (pointer + by) % (TAPE_SIZE as int)
}

/// A cell after adding `by`, which may be negative: it wraps around 256.
pub open spec fn added(cell: u8, by: int) -> u8 {
    ((cell + by) % 256) as u8
}

/// One step of the machine: the state after running the token under the
/// program counter, and what the step asks of the world. Past the last
/// token the state stays and the action is `Halt`.
///
/// `Input` only advances the program counter and asks for a byte; the cell
/// changes when the byte is stored (see `stored`).
pub open spec fn step_of(tokens: Seq<Token>, s: State) -> (State, Action) {
    if !(0 <= s.pc < tokens.len()) {
        (s, Action::Halt)
    } else {
        let token = tokens[s.pc];
        let n = token.count() as int;
        let cell = s.tape[s.pointer];
        let next = State { pc: s.pc + 1, ..s };
        match token.kind() {
            TokenKind::Right => (State { pointer: moved(s.pointer, n), ..next }, Action::Continue),
            TokenKind::Left => (State { pointer: moved(s.pointer, -n), ..next }, Action::Continue),
            TokenKind::Inc => (
                State { tape: s.tape.update(s.pointer, added(cell, n)), ..next },
                Action::Continue,
            ),
            TokenKind::Dec => (
                State { tape: s.tape.update(s.pointer, added(cell, -n)), ..next },
                Action::Continue,
            ),
            TokenKind::Output => (next, Action::Emit { byte: cell, times: token.count() }),
            TokenKind::Input => (next, Action::Read),
            TokenKind::JumpIfZero(address) => (
                if cell == 0 {
                    State { pc: address as int, ..s }
                } else {
                    next
                },
                Action::Continue,
            ),
            TokenKind::JumpIfNZero(address) => (
                if cell != 0 {
                    State { pc: address as int, ..s }
                } else {
                    next
                },
                Action::Continue,
            ),
        }
    }
}

/// The state after a byte that was read is put into the current cell.
pub open spec fn stored(s: State, byte: u8) -> State {
    State { tape: s.tape.update(s.pointer, byte), ..s }
}

/// A step keeps the tape whole and the pointer on it, and so does storing
/// a byte.
pub proof fn lemma_step_keeps_valid(tokens: Seq<Token>, s: State, byte: u8)
    requires
        valid(s),
    ensures
        valid(step_of(tokens, s).0),
        valid(stored(s, byte)),
{
}

/// The pointer after `count` moves to the right.
fn pointer_right(pointer: u16, count: u16) -> (to: u16)
    ensures
        to == moved(pointer as int, count as int),
{
    pointer.wrapping_add(count)
}

/// The pointer after `count` moves to the left.
fn pointer_left(pointer: u16, count: u16) -> (to: u16)
    ensures
        to == moved(pointer as int, -(count as int)),
{
    pointer.wrapping_sub(count)
}

/// A cell after `count` increments.
fn cell_up(cell: u8, count: u16) -> (value: u8)
    ensures
        value == added(cell, count as int),
{
    cell.wrapping_add((count % 256) as u8)
}

/// A cell after `count` decrements.
fn cell_down(cell: u8, count: u16) -> (value: u8)
    ensures
        value == added(cell, -(count as int)),
{
    cell.wrapping_sub((count % 256) as u8)
}

/// The machine that runs a token stream.
pub struct Machine {
    memory: [u8; 65536],
    idx: u16,
    pc: usize,
}

impl View for Machine {
    type V = State;

    closed spec fn view(&self) -> State {
        State { tape: self.memory@, pointer: self.idx as int, pc: self.pc as int }
    }
}

impl Machine {
    /// A machine in the initial state.
    pub fn new() -> (machine: Machine)
        ensures
            machine@ == initial(),
    {
        let memory = [0u8;65536];
        assert(memory@ =~= initial().tape);
        Machine { memory, idx: 0, pc: 0 }
    }

    /// The cell that the pointer is on.
    pub fn pointer(&self) -> (pointer: u16)
        ensures
            pointer == self@.pointer,
            valid(self@),
    {
        self.idx
    }

    /// The index of the token that runs next.
    pub fn program_counter(&self) -> (pc: usize)
        ensures
            pc == self@.pc,
    {
        self.pc
    }

    /// The value of the cell at `address`.
    pub fn cell(&self, address: u16) -> (value: u8)
        ensures
            valid(self@),
            value == self@.tape[address as int],
    {
        self.memory[address as usize]
    }

    /// Puts a byte that was read into the current cell. This answers the
    /// action `Read`.
    pub fn store(&mut self, byte: u8)
        ensures
            valid(old(self)@),
            final(self)@ == stored(old(self)@, byte),
    {
        self.memory[self.idx as usize] = byte;
    }

    /// Runs the token under the program counter and says what the step asks
    /// of the world.
    pub fn step(&mut self, tokens: &Vec<Token>) -> (action: Action)
        ensures
            valid(old(self)@),
            (final(self)@, action) == step_of(tokens@, old(self)@),
    {
        if self.pc >= tokens.len() {
            return Action::Halt;
        }
        let token = &tokens[self.pc];
        let count = token.get_successive_count();
        let at = self.idx as usize;
        let cell = self.memory[at];
        match *token.get_token_type() {
            TokenKind::Right => {
                self.idx = pointer_right(self.idx, count);
                self.pc = self.pc + 1;
                Action::Continue
            },
            TokenKind::Left => {
                self.idx = pointer_left(self.idx, count);
                self.pc = self.pc + 1;
                Action::Continue
            },
            TokenKind::Inc => {
                self.memory[at] = cell_up(cell, count);
                self.pc = self.pc + 1;
                Action::Continue
            },
            TokenKind::Dec => {
                self.memory[at] = cell_down(cell, count);
                self.pc = self.pc + 1;
                Action::Continue
            },
            TokenKind::Output => {
                self.pc = self.pc + 1;
                Action::Emit { byte: cell, times: count }
            },
            TokenKind::Input => {
                self.pc = self.pc + 1;
                Action::Read
            },
            TokenKind::JumpIfZero(address) => {
                if cell == 0 {
                    self.pc = address;
                } else {
                    self.pc = self.pc + 1;
                }
                Action::Continue
            },
            TokenKind::JumpIfNZero(address) => {
                if cell != 0 {
                    self.pc = address;
                } else {
                    self.pc = self.pc + 1;
                }
                Action::Continue
            },
        }
    }
}

/// How far a run has come: the machine's state, how many bytes of the input
/// it has read, and what it has written.
pub struct Progress {
    pub state: State,
    pub consumed: int,
    pub output: Seq<u8>,
}

/// Why a run ended before the program did.
#[derive(Clone, Copy, Debug, PartialEq, Eq, Structural)]
pub enum RunError {
    /// The program asked for a byte and the input had none left.
    InputExhausted,
    /// The program was still running after the allowed number of steps.
    StepLimit,
}

/// Where every run starts: the initial state, nothing read, nothing
/// written.
pub open spec fn start() -> Progress {
    Progress { state: initial(), consumed: 0, output: Seq::empty() }
}

/// `times` copies of `byte`.
pub open spec fn repeated(byte: u8, times: int) -> Seq<u8> {
    Seq::new(times as nat, |i: int| byte)
}

/// The program counter is past the last token.
pub open spec fn halted(tokens: Seq<Token>, s: State) -> bool {
    !(0 <= s.pc < tokens.len())
}

/// The next step reads, and the input has no byte left.
pub open spec fn starved(tokens: Seq<Token>, input: Seq<u8>, p: Progress) -> bool {
    &&& step_of(tokens, p.state).1 == Action::Read
    &&& p.consumed >= input.len()
}

/// The progress after one more step: a step that reads takes the next byte
/// of the input, a step that writes appends to the output.
pub open spec fn proceed(tokens: Seq<Token>, input: Seq<u8>, p: Progress) -> Progress {
    let (next, action) = step_of(tokens, p.state);
    match action {
        Action::Read => Progress {
            state: stored(next, input[p.consumed]),
            consumed: p.consumed + 1,
            output: p.output,
        },
        Action::Emit { byte, times } => Progress {
            state: next,
            output: p.output + repeated(byte, times as int),
            ..p
        },
        _ => Progress { state: next, ..p },
    }
}

/// The run of a token stream on a given input, from `p` on, for at most
/// `fuel` steps: where it ends, and why if the program did not halt.
///
/// With the input at its end a step that reads fails, and the run ends
/// where it stands.
pub open spec fn run_of(tokens: Seq<Token>, input: Seq<u8>, p: Progress, fuel: nat) -> (
    Progress,
    Option<RunError>,
)
    decreases fuel,
{
    if halted(tokens, p.state) {
        (p, None)
    } else if fuel == 0 {
        (p, Some(RunError::StepLimit))
    } else if starved(tokens, input, p) {
        (p, Some(RunError::InputExhausted))
    } else {
        run_of(tokens, input, proceed(tokens, input, p), (fuel - 1) as nat)
    }
}

/// A run that reached the end of its program.
pub struct Completed {
    /// The machine as the program left it.
    pub machine: Machine,
    /// Every byte that the program wrote, in order.
    pub output: Vec<u8>,
    /// How many bytes of the input the program read.
    pub consumed: usize,
}

impl Completed {
    /// The progress that this result stands for.
    pub open spec fn progress(self) -> Progress {
        Progress {
            state: self.machine@,
            consumed: self.consumed as int,
            output: self.output@,
        }
    }
}

/// Runs a token stream from the initial state, reading from `input` and
/// collecting what it writes, for at most `max_steps` steps.
///
/// The result is that of `run_of`: the final machine and the output where
/// the program halts within the limit, and otherwise the reason why it did
/// not.
pub fn run(tokens: Vec<Token>, input: &Vec<u8>, max_steps: usize) -> (result: Result<
    Completed,
    RunError,
>)
    ensures
        match result {
            Ok(done) => run_of(tokens@, input@, start(), max_steps as nat) == (
                done.progress(),
                None::<RunError>,
            ),
            Err(e) => run_of(tokens@, input@, start(), max_steps as nat).1 == Some(e),
        },
{
    let mut machine = Machine::new();
    let mut output: Vec<u8> = Vec::new();
    let mut consumed: usize = 0;
    let mut fuel: usize = max_steps;
    loop
        invariant
            consumed <= input.len(),
            run_of(tokens@, input@, start(), max_steps as nat) == run_of(
                tokens@,
                input@,
                Progress { state: machine@, consumed: consumed as int, output: output@ },
                fuel as nat,
            ),
        decreases fuel,
    {
        let action = machine.step(&tokens);
        match action {
            Action::Halt => {
                return Ok(Completed { machine, output, consumed });
            },
            _ => {},
        }
        if fuel == 0 {
            return Err(RunError::StepLimit);
        }
        match action {
            Action::Read => {
                if consumed < input.len() {
                    machine.store(input[consumed]);
                    consumed = consumed + 1;
                } else {
                    return Err(RunError::InputExhausted);
                }
            },
            Action::Emit { byte, times } => {
                let ghost written = output@;
                let mut k: u16 = 0;
                while k < times
                    invariant
                        k <= times,
                        output@ == written + repeated(byte, k as int),
                    decreases times - k,
                {
                    output.push(byte);
                    k += 1;
                    assert(output@ =~= written + repeated(byte, k as int));
                }
            },
            _ => {},
        }
        fuel = fuel - 1;
    }
}

/// The state after `k` steps from `s`, whatever the steps ask of the world.
pub open spec fn after(tokens: Seq<Token>, s: State, k: nat) -> State
    decreases k,
{
    if k == 0 {
        s
    } else {
        step_of(tokens, after(tokens, s, (k - 1) as nat)).0
    }
}

/// The `k` tokens from index `from` on are all of kind `kind` and stand for
/// one operator each.
pub open spec fn single_steps(tokens: Seq<Token>, from: int, k: int, kind: TokenKind) -> bool {
    &&& 0 <= from
    &&& from + k <= tokens.len()
    &&& forall|i: int|
        from <= i < from + k ==> (#[trigger] tokens[i]).kind() == kind && tokens[i].count() == 1
}

/// The state that `k` single operators of one kind lead to from `s`, for
/// the four kinds that move the pointer or change the cell.
pub open spec fn shifted(s: State, kind: TokenKind, k: int) -> State {
    let cell = s.tape[s.pointer];
    let next = State { pc: s.pc + k, ..s };
    match kind {
        TokenKind::Right => State { pointer: moved(s.pointer, k), ..next },
        TokenKind::Left => State { pointer: moved(s.pointer, -k), ..next },
        TokenKind::Inc => State { tape: s.tape.update(s.pointer, added(cell, k)), ..next },
        TokenKind::Dec => State { tape: s.tape.update(s.pointer, added(cell, -k)), ..next },
        _ => next,
    }
}

/// Moving the pointer twice is moving it once by the sum.
pub proof fn lemma_moved_twice(pointer: int, a: int, b: int)
    ensures
        moved(moved(pointer, a), b) == moved(pointer, a + b),
        0 <= moved(pointer, a) < TAPE_SIZE,
{
}

/// Adding to a cell twice is adding the sum once.
pub proof fn lemma_added_twice(cell: u8, a: int, b: int)
    ensures
        added(added(cell, a), b) == added(cell, a + b),
{
}

/// Running `k` single `>`, `<`, `+` or `-` in a row moves the pointer, or
/// changes the cell, by `k` in all, wrapping around.
pub proof fn lemma_single_steps_add_up(tokens: Seq<Token>, s: State, kind: TokenKind, k: nat)
    requires
        valid(s),
        kind == TokenKind::Right || kind == TokenKind::Left || kind == TokenKind::Inc || kind
            == TokenKind::Dec,
        single_steps(tokens, s.pc, k as int, kind),
    ensures
        after(tokens, s, k) == shifted(s, kind, k as int),
    decreases k,
{
    if k == 0 {
        assert(s.tape.update(s.pointer, s.tape[s.pointer]) =~= s.tape);
    } else {
        let j = (k - 1) as nat;
        lemma_single_steps_add_up(tokens, s, kind, j);
        let mid = shifted(s, kind, j as int);
        let token = tokens[s.pc + j];
        assert(token.kind() == kind && token.count() == 1);
        let last = step_of(tokens, mid).0;
        let goal = shifted(s, kind, k as int);
        let cell = s.tape[s.pointer];
        assert(mid.pc == s.pc + j);
        match kind {
            TokenKind::Right => {
                lemma_moved_twice(s.pointer, j as int, 1);
                assert(last == goal);
            },
            TokenKind::Left => {
                lemma_moved_twice(s.pointer, -(j as int), -1);
                assert(last == goal);
            },
            TokenKind::Inc => {
                lemma_added_twice(cell, j as int, 1);
                assert(last.tape =~= goal.tape);
                assert(last == goal);
            },
            _ => {
                lemma_added_twice(cell, -(j as int), -1);
                assert(last.tape =~= goal.tape);
                assert(last == goal);
            },
        }
    }
}

/// A run-length token does in one step what as many single operators of
/// its kind do one after the other.
pub proof fn lemma_run_is_repeated_step(
    tokens: Seq<Token>,
    singles: Seq<Token>,
    s: State,
    at: int,
)
    requires
        valid(s),
        0 <= s.pc < tokens.len(),
        tokens[s.pc].kind() == TokenKind::Right || tokens[s.pc].kind() == TokenKind::Left
            || tokens[s.pc].kind() == TokenKind::Inc || tokens[s.pc].kind() == TokenKind::Dec,
        single_steps(singles, at, tokens[s.pc].count() as int, tokens[s.pc].kind()),
    ensures
        ({
            let merged = step_of(tokens, s).0;
            let one_by_one = after(
                singles,
                State { pc: at, ..s },
                tokens[s.pc].count() as nat,
            );
            &&& merged.tape == one_by_one.tape
            &&& merged.pointer == one_by_one.pointer
        }),
{
    lemma_single_steps_add_up(
        singles,
        State { pc: at, ..s },
        tokens[s.pc].kind(),
        tokens[s.pc].count() as nat,
    );
}

/// Incrementing a cell 256 times, or decrementing it 256 times, returns
/// it to its value: after 256 single `+` or `-` only the program counter
/// has changed.
pub proof fn lemma_cell_wraps_around(tokens: Seq<Token>, s: State, kind: TokenKind)
    requires
        valid(s),
        kind == TokenKind::Inc || kind == TokenKind::Dec,
        single_steps(tokens, s.pc, 256, kind),
    ensures
        after(tokens, s, 256) == (State { pc: s.pc + 256, ..s }),
{
    lemma_single_steps_add_up(tokens, s, kind, 256);
    assert(shifted(s, kind, 256).tape =~= s.tape);
}

/// Moving the pointer 65,536 times in one direction returns it to its
/// cell: after that many single `>` or `<` only the program counter has
/// changed.
pub proof fn lemma_pointer_wraps_around(tokens: Seq<Token>, s: State, kind: TokenKind)
    requires
        valid(s),
        kind == TokenKind::Right || kind == TokenKind::Left,
        single_steps(tokens, s.pc, 65536, kind),
    ensures
        after(tokens, s, 65536) == (State { pc: s.pc + 65536, ..s }),
{
    lemma_single_steps_add_up(tokens, s, kind, 65536);
}

} // verus!
