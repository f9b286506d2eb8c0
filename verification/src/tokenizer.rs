//! Lexing of source bytes into run-length tokens with resolved loop jumps.

use vstd::prelude::*;

verus! {

/// What a token does. The two jump kinds carry the index, in the token
/// stream, of the token at which execution continues when the jump is taken.
#[derive(Clone, Copy, Debug, PartialEq, Eq, Structural)]
pub enum TokenKind {
    /// `>`: move the pointer right.
    Right,
    /// `<`: move the pointer left.
    Left,
    /// `+`: add to the current cell.
    Inc,
    /// `-`: subtract from the current cell.
    Dec,
    /// `.`: write the current cell.
    Output,
    /// `,`: read one byte into the current cell.
    Input,
    /// `[`: jump if the current cell is zero.
    JumpIfZero(usize),
    /// `]`: jump if the current cell is not zero.
    JumpIfNZero(usize),
}

/// One operation together with the number of successive source operators
/// that it stands for.
#[derive(Clone, Copy, Debug, PartialEq, Eq, Structural)]
pub struct Token {
    kind: TokenKind,
    successive_count: u16,
}

/// A bracket without a partner: which bracket, and a byte offset into the
/// source.
#[derive(Clone, Copy, Debug, PartialEq, Eq, Structural)]
pub struct UnbalancedBracketsError {
    c: char,
    offset: usize,
}

impl UnbalancedBracketsError {
    /// The bracket that is reported.
    pub closed spec fn bracket(self) -> char {
        self.c
    }

    /// The byte offset that is reported.
    pub closed spec fn position(self) -> usize {
        self.offset
    }

    /// The bracket character that has no partner.
    pub fn get_bracket(&self) -> (c: char)
        ensures
            c == self.bracket(),
    {
        self.c
    }

    /// The byte offset reported with the bracket.
    pub fn get_offset(&self) -> (offset: usize)
        ensures
            offset == self.position(),
    {
        self.offset
    }
}

impl Token {
    /// The operation of this token.
    pub closed spec fn kind(self) -> TokenKind {
        self.kind
    }

    /// The run length of this token.
    pub closed spec fn count(self) -> u16 {
        self.successive_count
    }

    /// A token of the given kind that stands for a single operator.
    pub fn new(kind: TokenKind) -> (token: Token)
        ensures
            token.kind() == kind,
            token.count() == 1,
    {
        Token { kind, successive_count: 1 }
    }

    /// What this token does.
    pub fn get_token_type(&self) -> (kind: &TokenKind)
        ensures
            *kind == self.kind(),
    {
        &self.kind
    }

    /// How many successive operators this token stands for.
    pub fn get_successive_count(&self) -> (count: u16)
        ensures
            count == self.count(),
    {
        self.successive_count
    }
}

/// The byte `>`.
pub const OP_RIGHT: u8 = 62;

/// The byte `<`.
pub const OP_LEFT: u8 = 60;

/// The byte `+`.
pub const OP_INC: u8 = 43;

/// The byte `-`.
pub const OP_DEC: u8 = 45;

/// The byte `.`.
pub const OP_OUTPUT: u8 = 46;

/// The byte `,`.
pub const OP_INPUT: u8 = 44;

/// The byte `[`.
pub const OP_OPEN: u8 = 91;

/// The byte `]`.
pub const OP_CLOSE: u8 = 93;

/// The eight bytes that are operators; every other byte is a comment.
pub open spec fn is_operator(c: u8) -> bool {
    c == OP_RIGHT || c == OP_LEFT || c == OP_INC || c == OP_DEC || c == OP_OUTPUT || c == OP_INPUT
        || c == OP_OPEN || c == OP_CLOSE
}

/// The two operators that delimit a loop and never merge into runs.
pub open spec fn is_bracket(c: u8) -> bool {
    c == OP_OPEN || c == OP_CLOSE
}

/// Whether `c` is one of the eight operators.
pub fn is_valid_bf_op(c: u8) -> (valid: bool)
    ensures
        valid == is_operator(c),
{
    c == OP_RIGHT || c == OP_LEFT || c == OP_INC || c == OP_DEC || c == OP_OUTPUT || c == OP_INPUT
        || c == OP_OPEN || c == OP_CLOSE
}

/// The longest run that one token can stand for.
pub const MAX_RUN: u16 = 65535;

/// The operator byte that a token kind is written as.
pub open spec fn symbol(kind: TokenKind) -> u8 {
    match kind {
        TokenKind::Right => OP_RIGHT,
        TokenKind::Left => OP_LEFT,
        TokenKind::Inc => OP_INC,
        TokenKind::Dec => OP_DEC,
        TokenKind::Output => OP_OUTPUT,
        TokenKind::Input => OP_INPUT,
        TokenKind::JumpIfZero(_) => OP_OPEN,
        TokenKind::JumpIfNZero(_) => OP_CLOSE,
    }
}

/// The jump target of a kind; zero for a kind that does not jump.
pub open spec fn target(kind: TokenKind) -> int {
    match kind {
        TokenKind::JumpIfZero(t) => t as int,
        TokenKind::JumpIfNZero(t) => t as int,
        _ => 0,
    }
}

/// Whether operator `c` joins the last run of `before` instead of starting
/// a new one: brackets never do, and a run that is full takes no more.
pub open spec fn continues_run(before: Seq<(u8, int)>, c: u8) -> bool {
    &&& !is_bracket(c)
    &&& before.len() > 0
    &&& before.last().0 == c
    &&& before.last().1 < MAX_RUN
}

/// The runs of a source: each entry is an operator byte and how many times
/// it occurs in succession. Comment bytes are skipped, so operators that
/// only comments separate are successive. Every bracket is a run by itself.
pub open spec fn runs(source: Seq<u8>) -> Seq<(u8, int)>
    decreases source.len(),
{
    if source.len() == 0 {
        Seq::empty()
    } else {
        let before = runs(source.drop_last());
        let c = source.last();
        if !is_operator(c) {
            before
        } else if continues_run(before, c) {
            before.update(before.len() - 1, (c, before.last().1 + 1))
        } else {
            before.push((c, 1))
        }
    }
}

/// The operator byte and run length of each token.
pub open spec fn shape(tokens: Seq<Token>) -> Seq<(u8, int)> {
    Seq::new(tokens.len(), |i: int| (symbol(tokens[i].kind()), tokens[i].count() as int))
}

/// The kind of each token.
pub open spec fn kinds(tokens: Seq<Token>) -> Seq<TokenKind> {
    Seq::new(tokens.len(), |i: int| tokens[i].kind())
}

/// How a byte of the source changes the number of open loops.
pub open spec fn byte_step(c: u8) -> int {
    if c == OP_OPEN {
        1
    } else if c == OP_CLOSE {
        -1
    } else {
        0
    }
}

/// Opening minus closing brackets among the first `k` bytes of the source.
pub open spec fn bracket_depth(source: Seq<u8>, k: int) -> int
    decreases k,
{
    if k <= 0 {
        0
    } else {
        bracket_depth(source, k - 1) + byte_step(source[k - 1])
    }
}

/// No prefix of the first `k` bytes closes more loops than it opens.
pub open spec fn never_negative(source: Seq<u8>, k: int) -> bool {
    forall|j: int| 0 <= j <= k ==> bracket_depth(source, j) >= 0
}

/// Every bracket of the source has a partner.
pub open spec fn balanced(source: Seq<u8>) -> bool {
    &&& never_negative(source, source.len() as int)
    &&& bracket_depth(source, source.len() as int) == 0
}

/// The byte at `k` is the first `]` of the source that closes no loop.
pub open spec fn first_stray_close(source: Seq<u8>, k: int) -> bool {
    &&& 0 <= k < source.len()
    &&& source[k] == OP_CLOSE
    &&& never_negative(source, k)
    &&& bracket_depth(source, k) == 0
}

/// No `]` is stray, and at the end of the source some loop is still open.
pub open spec fn unclosed(source: Seq<u8>) -> bool {
    &&& never_negative(source, source.len() as int)
    &&& bracket_depth(source, source.len() as int) > 0
}

/// The offset of the last bracket of the source, of either kind; zero where
/// it has none.
pub open spec fn last_bracket(source: Seq<u8>) -> int
    decreases source.len(),
{
    if source.len() == 0 {
        0
    } else if is_bracket(source.last()) {
        source.len() - 1
    } else {
        last_bracket(source.drop_last())
    }
}

/// How a token changes the number of open loops.
pub open spec fn kind_step(kind: TokenKind) -> int {
    match kind {
        TokenKind::JumpIfZero(_) => 1,
        TokenKind::JumpIfNZero(_) => -1,
        _ => 0,
    }
}

/// Opening minus closing jumps among the first `k` kinds.
pub open spec fn nesting(kinds: Seq<TokenKind>, k: int) -> int
    decreases k,
{
    if k <= 0 {
        0
    } else {
        nesting(kinds, k - 1) + kind_step(kinds[k - 1])
    }
}

/// The jump at `close` ends the loop that the jump at `open` begins:
/// everything between them is nested deeper than the loop itself, and the
/// closing jump is the first to return to the level of the opening one.
pub open spec fn encloses(kinds: Seq<TokenKind>, open: int, close: int) -> bool {
    &&& 0 <= open < close < kinds.len()
    &&& kind_step(kinds[open]) == 1
    &&& kind_step(kinds[close]) == -1
    &&& nesting(kinds, close + 1) == nesting(kinds, open)
    &&& forall|k: int| open < k <= close ==> #[trigger] nesting(kinds, k) > nesting(kinds, open)
}

/// The jump at `idx`, if it is one, and its partner point one past each
/// other.
pub open spec fn paired(kinds: Seq<TokenKind>, idx: int) -> bool {
    let t = target(kinds[idx]);
    &&& kind_step(kinds[idx]) == 1 ==> {
        &&& encloses(kinds, idx, t - 1)
        &&& target(kinds[t - 1]) == idx + 1
    }
    &&& kind_step(kinds[idx]) == -1 ==> {
        &&& encloses(kinds, t - 1, idx)
        &&& target(kinds[t - 1]) == idx + 1
    }
}

/// Every jump of the stream is paired with its partner.
pub open spec fn well_bracketed(kinds: Seq<TokenKind>) -> bool {
    forall|idx: int| 0 <= idx < kinds.len() ==> #[trigger] paired(kinds, idx)
}

/// The loops that are open while lexing: `stack` holds, innermost last, one
/// more than the index of each opening jump that has no partner yet.
spec fn open_loops(kinds: Seq<TokenKind>, stack: Seq<usize>) -> bool {
    forall|p: int|
        0 <= p < stack.len() ==> {
            &&& 1 <= #[trigger] stack[p] <= kinds.len()
            &&& kinds[stack[p] - 1] == TokenKind::JumpIfZero(0)
            &&& nesting(kinds, stack[p] - 1) == p
            &&& forall|k: int| stack[p] - 1 < k <= kinds.len() ==> #[trigger] nesting(kinds, k) > p
        }
}

/// The jump at `idx` is an opening one that still waits on the stack.
spec fn pending(kinds: Seq<TokenKind>, stack: Seq<usize>, idx: int) -> bool {
    &&& kinds[idx] == TokenKind::JumpIfZero(0)
    &&& exists|p: int| 0 <= p < stack.len() && #[trigger] stack[p] == idx + 1
}

/// Every jump is paired, but for those that wait on the stack.
spec fn paired_or_pending(kinds: Seq<TokenKind>, stack: Seq<usize>) -> bool {
    forall|idx: int|
        0 <= idx < kinds.len() ==> #[trigger] paired(kinds, idx) || pending(kinds, stack, idx)
}

/// `nesting` looks only at whether each kind opens or closes a loop.
proof fn lemma_nesting_prefix(a: Seq<TokenKind>, b: Seq<TokenKind>, k: int)
    requires
        0 <= k <= a.len(),
        k <= b.len(),
        forall|i: int| 0 <= i < k ==> kind_step(#[trigger] a[i]) == kind_step(b[i]),
    ensures
        nesting(a, k) == nesting(b, k),
    decreases k,
{
    if k > 0 {
        lemma_nesting_prefix(a, b, k - 1);
        assert(kind_step(a[k - 1]) == kind_step(b[k - 1]));
    }
}

/// A longer stream that opens and closes loops where `a` does nests as `a`
/// does, as far as `a` reaches.
proof fn lemma_nesting_unchanged(a: Seq<TokenKind>, b: Seq<TokenKind>)
    requires
        a.len() <= b.len(),
        forall|i: int| 0 <= i < a.len() ==> kind_step(#[trigger] a[i]) == kind_step(b[i]),
    ensures
        forall|k: int|
            #![trigger nesting(b, k)]
            #![trigger nesting(a, k)]
            0 <= k <= a.len() ==> nesting(b, k) == nesting(a, k),
{
    assert forall|k: int| 0 <= k <= a.len() implies nesting(b, k) == nesting(a, k) by {
        lemma_nesting_prefix(a, b, k);
    }
}

/// A pair that encloses a loop still does so in a stream that agrees with
/// the first on the opening and closing of loops up to the pair's end.
proof fn lemma_encloses_prefix(a: Seq<TokenKind>, b: Seq<TokenKind>, open: int, close: int)
    requires
        encloses(a, open, close),
        close < b.len(),
        forall|i: int| 0 <= i <= close ==> kind_step(#[trigger] a[i]) == kind_step(b[i]),
    ensures
        encloses(b, open, close),
{
    assert forall|k: int| 0 <= k <= close + 1 implies nesting(a, k) == nesting(b, k) by {
        lemma_nesting_prefix(a, b, k);
    }
    assert(kind_step(a[open]) == kind_step(b[open]));
    assert(kind_step(a[close]) == kind_step(b[close]));
}

/// A jump that is paired stays paired in a longer stream that opens and
/// closes loops at the same places and leaves the targets of the jump and
/// of its partner as they were.
proof fn lemma_pair_carries_over(a: Seq<TokenKind>, b: Seq<TokenKind>, idx: int)
    requires
        0 <= idx < a.len() <= b.len(),
        paired(a, idx),
        forall|i: int| 0 <= i < a.len() ==> kind_step(#[trigger] a[i]) == kind_step(b[i]),
        target(b[idx]) == target(a[idx]),
        kind_step(a[idx]) != 0 ==> target(b[target(a[idx]) - 1]) == target(a[target(a[idx]) - 1]),
    ensures
        paired(b, idx),
{
    let t = target(a[idx]);
    if kind_step(a[idx]) == 1 {
        lemma_encloses_prefix(a, b, idx, t - 1);
    }
    if kind_step(a[idx]) == -1 {
        lemma_encloses_prefix(a, b, t - 1, idx);
    }
}

/// Each run in `runs` is of an operator and has between one and `MAX_RUN`
/// members; a bracket is always a run of one.
pub proof fn lemma_runs_entries(source: Seq<u8>)
    ensures
        runs(source).len() <= source.len(),
        forall|i: int|
            0 <= i < runs(source).len() ==> {
                let run = #[trigger] runs(source)[i];
                &&& is_operator(run.0)
                &&& 1 <= run.1 <= MAX_RUN
                &&& is_bracket(run.0) ==> run.1 == 1
            },
    decreases source.len(),
{
    if source.len() > 0 {
        lemma_runs_entries(source.drop_last());
    }
}

/// A source with a stray `]` is not balanced, and no loop of it counts as
/// unclosed.
pub proof fn lemma_stray_close_unbalanced(source: Seq<u8>, k: int)
    requires
        first_stray_close(source, k),
    ensures
        !balanced(source),
        !unclosed(source),
{
    assert(bracket_depth(source, k + 1) == -1);
}

/// There is at most one first stray `]`.
pub proof fn lemma_stray_close_unique(source: Seq<u8>, a: int, b: int)
    requires
        first_stray_close(source, a),
        first_stray_close(source, b),
    ensures
        a == b,
{
    assert(bracket_depth(source, a + 1) == -1);
    assert(bracket_depth(source, b + 1) == -1);
}

/// A run of `k` equal operators that are no brackets is a single run of
/// length `k`, as long as one token can count it.
pub proof fn lemma_run_merges(c: u8, k: int)
    requires
        is_operator(c),
        !is_bracket(c),
        1 <= k <= MAX_RUN,
    ensures
        runs(Seq::new(k as nat, |i: int| c)) == seq![(c, k)],
    decreases k,
{
    let source = Seq::new(k as nat, |i: int| c);
    assert(source.drop_last() =~= Seq::new((k - 1) as nat, |i: int| c));
    if k > 1 {
        lemma_run_merges(c, k - 1);
        assert(runs(source) =~= seq![(c, k)]);
    } else {
        assert(runs(source.drop_last()) =~= Seq::<(u8, int)>::empty());
        assert(runs(source) =~= seq![(c, k)]);
    }
}

/// Runs are maximal: where two neighbouring runs are of the same operator,
/// it is a bracket or the first of them is full.
pub proof fn lemma_runs_maximal(source: Seq<u8>)
    ensures
        forall|i: int|
            0 < i < runs(source).len() && runs(source)[i - 1].0 == (#[trigger] runs(source)[i]).0
                ==> is_bracket(runs(source)[i].0) || runs(source)[i - 1].1 == MAX_RUN,
    decreases source.len(),
{
    if source.len() > 0 {
        lemma_runs_maximal(source.drop_last());
        lemma_runs_entries(source.drop_last());
    }
}

/// The operators of a source in order, comments left out.
pub open spec fn operators(source: Seq<u8>) -> Seq<u8>
    decreases source.len(),
{
    if source.len() == 0 {
        Seq::empty()
    } else if is_operator(source.last()) {
        operators(source.drop_last()).push(source.last())
    } else {
        operators(source.drop_last())
    }
}

/// The operators that a sequence of runs stands for: each run written out
/// in full.
pub open spec fn expanded(runs: Seq<(u8, int)>) -> Seq<u8>
    decreases runs.len(),
{
    if runs.len() == 0 {
        Seq::empty()
    } else {
        expanded(runs.drop_last()) + Seq::new(runs.last().1 as nat, |i: int| runs.last().0)
    }
}

/// Lexing loses nothing but comments: the runs of a source, written out in
/// full, are its operators in order.
pub proof fn lemma_runs_lose_nothing(source: Seq<u8>)
    ensures
        expanded(runs(source)) == operators(source),
    decreases source.len(),
{
    if source.len() > 0 {
        let before = runs(source.drop_last());
        let c = source.last();
        lemma_runs_lose_nothing(source.drop_last());
        lemma_runs_entries(source.drop_last());
        if !is_operator(c) {
        } else if continues_run(before, c) {
            let n = before.last().1;
            let grown = before.update(before.len() - 1, (c, n + 1));
            assert(grown.drop_last() =~= before.drop_last());
            assert(Seq::new((n + 1) as nat, |i: int| c) =~= Seq::new(n as nat, |i: int| c).push(c));
            assert(expanded(grown) =~= expanded(before).push(c));
        } else {
            let grown = before.push((c, 1int));
            assert(grown.drop_last() =~= before);
            assert(Seq::new(1nat, |i: int| c) =~= seq![c]);
            assert(expanded(grown) =~= expanded(before).push(c));
        }
    }
}

/// A jump has at most one partner.
pub proof fn lemma_partner_unique(kinds: Seq<TokenKind>, open: int, close: int, other: int)
    ensures
        encloses(kinds, open, close) && encloses(kinds, open, other) ==> close == other,
        encloses(kinds, open, close) && encloses(kinds, other, close) ==> open == other,
{
    if encloses(kinds, open, close) && encloses(kinds, open, other) {
        if close < other {
            assert(nesting(kinds, close + 1) > nesting(kinds, open));
        }
        if other < close {
            assert(nesting(kinds, other + 1) > nesting(kinds, open));
        }
    }
    if encloses(kinds, open, close) && encloses(kinds, other, close) {
        if open < other {
            assert(nesting(kinds, other) > nesting(kinds, open));
        }
        if other < open {
            assert(nesting(kinds, open) > nesting(kinds, other));
        }
    }
}

/// Loops do not cross: a loop that begins inside another ends inside it.
pub proof fn lemma_loops_nest(
    kinds: Seq<TokenKind>,
    outer: int,
    outer_end: int,
    inner: int,
    inner_end: int,
)
    requires
        encloses(kinds, outer, outer_end),
        encloses(kinds, inner, inner_end),
        outer < inner < outer_end,
    ensures
        inner_end < outer_end,
{
    assert(nesting(kinds, inner) > nesting(kinds, outer));
    if inner_end > outer_end {
        assert(nesting(kinds, outer_end + 1) > nesting(kinds, inner));
    }
}

/// The kind of an operator that is no bracket.
pub open spec fn kind_of_symbol(c: u8) -> TokenKind {
    if c == OP_RIGHT {
        TokenKind::Right
    } else if c == OP_LEFT {
        TokenKind::Left
    } else if c == OP_INC {
        TokenKind::Inc
    } else if c == OP_DEC {
        TokenKind::Dec
    } else if c == OP_OUTPUT {
        TokenKind::Output
    } else {
        TokenKind::Input
    }
}

/// The kind of an operator that is no bracket.
fn kind_for(c: u8) -> (kind: TokenKind)
    requires
        is_operator(c),
        !is_bracket(c),
    ensures
        kind == kind_of_symbol(c),
        symbol(kind) == c,
{
    if c == OP_RIGHT {
        TokenKind::Right
    } else if c == OP_LEFT {
        TokenKind::Left
    } else if c == OP_INC {
        TokenKind::Inc
    } else if c == OP_DEC {
        TokenKind::Dec
    } else if c == OP_OUTPUT {
        TokenKind::Output
    } else {
        TokenKind::Input
    }
}

/// The operator byte that a kind is written as.
fn symbol_of(kind: &TokenKind) -> (c: u8)
    ensures
        c == symbol(*kind),
{
    match kind {
        TokenKind::Right => OP_RIGHT,
        TokenKind::Left => OP_LEFT,
        TokenKind::Inc => OP_INC,
        TokenKind::Dec => OP_DEC,
        TokenKind::Output => OP_OUTPUT,
        TokenKind::Input => OP_INPUT,
        TokenKind::JumpIfZero(_) => OP_OPEN,
        TokenKind::JumpIfNZero(_) => OP_CLOSE,
    }
}

/// Turns source bytes into tokens.
///
/// Bytes that are no operators are skipped. Successive equal operators
/// other than brackets become one token that counts them; a run longer than
/// `MAX_RUN` continues in a further token. Each bracket becomes a jump whose
/// target is one past its partner.
///
/// The source is rejected when a bracket has no partner. A `]` that closes
/// no loop is reported with its own offset, the first such one. Otherwise,
/// where a `[` is never closed, `[` is reported together with the offset of
/// the last bracket in the source.
pub fn tokenize(file_contents: &Vec<u8>) -> (result: Result<Vec<Token>, UnbalancedBracketsError>)
    ensures
        result is Ok <==> balanced(file_contents@),
        match result {
            Ok(tokens) => {
                &&& balanced(file_contents@)
                &&& shape(tokens@) == runs(file_contents@)
                &&& well_bracketed(kinds(tokens@))
            },
            Err(e) => {
                ||| {
                    &&& e.bracket() == ']'
                    &&& first_stray_close(file_contents@, e.position() as int)
                }
                ||| {
                    &&& e.bracket() == '['
                    &&& unclosed(file_contents@)
                    &&& e.position() == last_bracket(file_contents@)
                }
            },
        },
{
    let n = file_contents.len();
    let mut tokens: Vec<Token> = Vec::new();
    let mut stack: Vec<usize> = Vec::new();
    let mut file_offset: usize = 0;
    let mut i: usize = 0;
    while i < n
        invariant
            n == file_contents.len(),
            i <= n,
            tokens.len() <= i,
            shape(tokens@) == runs(file_contents@.take(i as int)),
            never_negative(file_contents@, i as int),
            stack.len() == bracket_depth(file_contents@, i as int),
            stack.len() == nesting(kinds(tokens@), tokens.len() as int),
            open_loops(kinds(tokens@), stack@),
            paired_or_pending(kinds(tokens@), stack@),
            file_offset == last_bracket(file_contents@.take(i as int)),
        decreases n - i,
    {
        let c = file_contents[i];
        let ghost before = file_contents@.take(i as int);
        let ghost prefix = file_contents@.take(i + 1);
        let ghost old_tokens = tokens@;
        let ghost old_kinds = kinds(tokens@);
        let ghost old_stack = stack@;
        proof {
            assert(prefix.drop_last() =~= before);
            assert(prefix.last() == c);
            lemma_runs_entries(before);
        }
        if c == OP_OPEN {
            file_offset = i;
            let current_address = tokens.len();
            stack.push(current_address + 1);
            // The 0 is replaced when the matching ']' is found.
            tokens.push(Token::new(TokenKind::JumpIfZero(0)));
            proof {
                let new_kinds = kinds(tokens@);
                assert(new_kinds =~= old_kinds.push(TokenKind::JumpIfZero(0)));
                assert(shape(tokens@) =~= shape(old_tokens).push((c, 1int)));
                lemma_nesting_unchanged(old_kinds, new_kinds);
                assert forall|idx: int| 0 <= idx < new_kinds.len() implies #[trigger] paired(
                    new_kinds,
                    idx,
                ) || pending(new_kinds, stack@, idx) by {
                    if idx == current_address {
                        assert(stack@[stack@.len() - 1] == idx + 1);
                    } else if pending(old_kinds, old_stack, idx) {
                        let p = choose|p: int|
                            0 <= p < old_stack.len() && #[trigger] old_stack[p] == idx + 1;
                        assert(stack@[p] == idx + 1);
                    } else {
                        assert(paired(old_kinds, idx));
                        lemma_pair_carries_over(old_kinds, new_kinds, idx);
                    }
                }
            }
        } else if c == OP_CLOSE {
            file_offset = i;
            let jump_to_address: usize = tokens.len();
            match stack.pop() {
                Some(address) => {
                    tokens.set(address - 1, Token::new(TokenKind::JumpIfZero(jump_to_address + 1)));
                    tokens.push(Token::new(TokenKind::JumpIfNZero(address)));
                    proof {
                        let new_kinds = kinds(tokens@);
                        let innermost = old_stack.len() - 1;
                        assert(old_stack[innermost] == address);
                        assert(new_kinds =~= old_kinds.update(
                            address - 1,
                            TokenKind::JumpIfZero((jump_to_address + 1) as usize),
                        ).push(TokenKind::JumpIfNZero(address)));
                        assert(shape(old_tokens)[address - 1] == runs(before)[address - 1]);
                        assert(shape(tokens@) =~= shape(old_tokens).push((c, 1int)));
                        lemma_nesting_unchanged(old_kinds, new_kinds);
                        assert(encloses(new_kinds, address - 1, jump_to_address as int));
                        assert forall|idx: int|
                            0 <= idx < new_kinds.len() implies #[trigger] paired(new_kinds, idx)
                            || pending(new_kinds, stack@, idx) by {
                            if idx == address - 1 || idx == jump_to_address {
                                assert(paired(new_kinds, idx));
                            } else if pending(old_kinds, old_stack, idx) {
                                let p = choose|p: int|
                                    0 <= p < old_stack.len() && #[trigger] old_stack[p] == idx + 1;
                                assert(p != innermost);
                                assert(stack@[p] == idx + 1);
                            } else {
                                assert(paired(old_kinds, idx));
                                lemma_pair_carries_over(old_kinds, new_kinds, idx);
                            }
                        }
                    }
                },
                None => {
                    proof {
                        lemma_stray_close_unbalanced(file_contents@, i as int);
                    }
                    return Err(UnbalancedBracketsError { c: ']', offset: file_offset });
                },
            }
        } else if is_valid_bf_op(c) {
            // A further operator of the run that the last token counts, or
            // the first of a new run.
            let len = tokens.len();
            let mut merged = false;
            if len > 0 {
                let last = tokens[len - 1];
                if symbol_of(&last.kind) == c && last.successive_count < MAX_RUN {
                    tokens.set(
                        len - 1,
                        Token { kind: last.kind, successive_count: last.successive_count + 1 },
                    );
                    merged = true;
                }
            }
            if !merged {
                tokens.push(Token::new(kind_for(c)));
            }
            proof {
                let new_kinds = kinds(tokens@);
                if len > 0 {
                    assert(shape(old_tokens)[len - 1] == runs(before)[len - 1]);
                }
                assert(shape(tokens@) =~= runs(prefix));
                if merged {
                    assert(new_kinds =~= old_kinds);
                } else {
                    assert(new_kinds =~= old_kinds.push(kind_of_symbol(c)));
                    lemma_nesting_unchanged(old_kinds, new_kinds);
                    assert forall|idx: int| 0 <= idx < new_kinds.len() implies #[trigger] paired(
                        new_kinds,
                        idx,
                    ) || pending(new_kinds, stack@, idx) by {
                        if idx < len && !pending(old_kinds, old_stack, idx) {
                            assert(paired(old_kinds, idx));
                            lemma_pair_carries_over(old_kinds, new_kinds, idx);
                        }
                    }
                }
            }
        }
        i += 1;
    }
    proof {
        assert(file_contents@.take(n as int) =~= file_contents@);
    }
    if stack.len() > 0 {
        return Err(UnbalancedBracketsError { c: '[', offset: file_offset });
    }
    Ok(tokens)
}

} // verus!
