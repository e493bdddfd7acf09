//! What a source text means: the instruction sequence it denotes.
//!
//! Everything here is specification. A source is a sequence of bytes; eight
//! byte values are instructions and every other byte is commentary.

use vstd::prelude::*;
use crate::command::Command;

verus! {

/// `<`: move the data pointer one cell to the left.
pub const MOVE_LEFT: u8 = 0x3c;

/// `>`: move the data pointer one cell to the right.
pub const MOVE_RIGHT: u8 = 0x3e;

/// `+`: increment the current cell.
pub const INCREMENT: u8 = 0x2b;

/// `-`: decrement the current cell.
pub const DECREMENT: u8 = 0x2d;

/// `.`: emit the current cell.
pub const WRITE: u8 = 0x2e;

/// `,`: read one byte into the current cell.
pub const READ: u8 = 0x2c;

/// `[`: open a loop.
pub const OPEN: u8 = 0x5b;

/// `]`: close a loop.
pub const CLOSE: u8 = 0x5d;

/// Length of the longest stretch of `up` and `down` bytes that begins at `i`.
pub open spec fn run_len(src: Seq<u8>, i: int, up: u8, down: u8) -> nat
    decreases src.len() - i,
{
    if 0 <= i < src.len() && (src[i] == up || src[i] == down) {
        1 + run_len(src, i + 1, up, down)
    } else {
        0
    }
}

/// Net effect of the bytes in `[i, j)` of a run: each `up` byte counts `+1`
/// and each other byte counts `-1`.
pub open spec fn run_net(src: Seq<u8>, i: int, j: int, up: u8) -> int
    decreases j - i,
{
    if j <= i {
        0
    } else {
        run_net(src, i, j - 1, up) + if src[j - 1] == up {
            1int
        } else {
            -1int
        }
    }
}

/// The count that an instruction carries for a run of net effect `net`: its
/// absolute value, reduced modulo 256.
///
/// The instruction format has one byte for the count. A run whose net effect
/// is beyond 255 in either direction therefore does not survive translation
/// intact: only the low eight bits of its magnitude are kept.
pub open spec fn magnitude(net: int) -> u8 {
    if net < 0 {
        ((-net) % 256) as u8
    } else {
        (net % 256) as u8
    }
}

/// The instruction for a run of `<` and `>` of net displacement `net`
/// (rightwards positive). A net displacement of zero gives `Right(0)`.
pub open spec fn fold_move(net: int) -> Command {
    if net < 0 {
        Command::Left(magnitude(net))
    } else {
        Command::Right(magnitude(net))
    }
}

/// The instruction for a run of `+` and `-` of net change `net`. A net change
/// of zero gives `Plus(0)`.
pub open spec fn fold_arith(net: int) -> Command {
    if net < 0 {
        Command::Minus(magnitude(net))
    } else {
        Command::Plus(magnitude(net))
    }
}

/// Whether the three bytes at `i` are exactly `[-]`.
pub open spec fn is_clear_loop(src: Seq<u8>, i: int) -> bool {
    &&& 0 <= i
    &&& i + 2 < src.len()
    &&& src[i] == OPEN
    &&& src[i + 1] == DECREMENT
    &&& src[i + 2] == CLOSE
}

/// Number of source bytes that the translator consumes in one go at `i`: a
/// whole run of movement or of arithmetic bytes, the three bytes of `[-]`, or
/// a single byte.
pub open spec fn token_len(src: Seq<u8>, i: int) -> nat {
    if src[i] == MOVE_LEFT || src[i] == MOVE_RIGHT {
        1 + run_len(src, i + 1, MOVE_RIGHT, MOVE_LEFT)
    } else if src[i] == INCREMENT || src[i] == DECREMENT {
        1 + run_len(src, i + 1, INCREMENT, DECREMENT)
    } else if is_clear_loop(src, i) {
        3
    } else {
        1
    }
}

/// The instruction that the bytes consumed at `i` translate to, if any.
/// Commentary translates to nothing.
pub open spec fn token_at(src: Seq<u8>, i: int) -> Option<Command> {
    let b = src[i];
    if b == MOVE_LEFT || b == MOVE_RIGHT {
        Some(fold_move(run_net(src, i, i + token_len(src, i), MOVE_RIGHT)))
    } else if b == INCREMENT || b == DECREMENT {
        Some(fold_arith(run_net(src, i, i + token_len(src, i), INCREMENT)))
    } else if b == WRITE {
        Some(Command::Print)
    } else if b == READ {
        Some(Command::Input)
    } else if b == OPEN {
        if is_clear_loop(src, i) {
            Some(Command::Zero)
        } else {
            Some(Command::LoopStart)
        }
    } else if b == CLOSE {
        Some(Command::LoopEnd)
    } else {
        None
    }
}

/// The instructions that the source denotes from byte `i` onwards, where `i`
/// is a position at which the translator starts a token.
pub open spec fn scan(src: Seq<u8>, i: int) -> Seq<Command>
    decreases src.len() - i,
    via scan_terminates
{
    if i < 0 || i >= src.len() {
        Seq::empty()
    } else {
        let rest = scan(src, i + token_len(src, i));
        match token_at(src, i) {
            Some(c) => seq![c] + rest,
            None => rest,
        }
    }
}

#[via_fn]
proof fn scan_terminates(src: Seq<u8>, i: int) {
    if 0 <= i < src.len() {
        lemma_token_in_bounds(src, i);
    }
}

/// A run never extends beyond the end of the source.
pub proof fn lemma_run_in_bounds(src: Seq<u8>, i: int, up: u8, down: u8)
    requires
        0 <= i <= src.len(),
    ensures
        i + run_len(src, i, up, down) <= src.len(),
    decreases src.len() - i,
{
    if i < src.len() && (src[i] == up || src[i] == down) {
        lemma_run_in_bounds(src, i + 1, up, down);
    }
}

/// A token is at least one byte long and lies within the source.
pub proof fn lemma_token_in_bounds(src: Seq<u8>, i: int)
    requires
        0 <= i < src.len(),
    ensures
        1 <= token_len(src, i),
        i + token_len(src, i) <= src.len(),
{
    lemma_run_in_bounds(src, i + 1, MOVE_RIGHT, MOVE_LEFT);
    lemma_run_in_bounds(src, i + 1, INCREMENT, DECREMENT);
}

/// The instruction sequence of a whole source text.
pub open spec fn commands_of(src: Seq<u8>) -> Seq<Command> {
    scan(src, 0)
}

/// Whether a source that begins with byte `b` can follow any other source
/// without changing how that one is read: `b` neither continues a run nor
/// completes a `[-]`.
pub open spec fn starts_afresh(b: u8) -> bool {
    &&& b != MOVE_LEFT
    &&& b != MOVE_RIGHT
    &&& b != INCREMENT
    &&& b != DECREMENT
    &&& b != CLOSE
}

/// A run in the second part of a source is the run it is in that part alone.
proof fn lemma_run_len_shift(p: Seq<u8>, q: Seq<u8>, j: int, up: u8, down: u8)
    requires
        0 <= j <= q.len(),
    ensures
        run_len(p + q, p.len() + j, up, down) == run_len(q, j, up, down),
    decreases q.len() - j,
{
    if j < q.len() {
        assert((p + q)[p.len() + j] == q[j]);
        lemma_run_len_shift(p, q, j + 1, up, down);
    }
}

/// The net effect of bytes in the second part of a source is what it is in
/// that part alone.
proof fn lemma_run_net_shift(p: Seq<u8>, q: Seq<u8>, i: int, j: int, up: u8)
    requires
        0 <= i <= j <= q.len(),
    ensures
        run_net(p + q, p.len() + i, p.len() + j, up) == run_net(q, i, j, up),
    decreases j - i,
{
    if i < j {
        assert((p + q)[p.len() + j - 1] == q[j - 1]);
        lemma_run_net_shift(p, q, i, j - 1, up);
    }
}

/// A token in the second part of a source is the token it is in that part
/// alone.
proof fn lemma_token_shift(p: Seq<u8>, q: Seq<u8>, j: int)
    requires
        0 <= j < q.len(),
    ensures
        token_len(p + q, p.len() + j) == token_len(q, j),
        token_at(p + q, p.len() + j) == token_at(q, j),
{
    let src = p + q;
    let at = p.len() + j;
    assert(src[at] == q[j]);
    if j + 1 < q.len() {
        assert(src[at + 1] == q[j + 1]);
    }
    if j + 2 < q.len() {
        assert(src[at + 2] == q[j + 2]);
    }
    lemma_token_in_bounds(q, j);
    lemma_run_len_shift(p, q, j + 1, MOVE_RIGHT, MOVE_LEFT);
    lemma_run_len_shift(p, q, j + 1, INCREMENT, DECREMENT);
    lemma_run_net_shift(p, q, j, j + token_len(q, j), MOVE_RIGHT);
    lemma_run_net_shift(p, q, j, j + token_len(q, j), INCREMENT);
}

/// What the second part of a source denotes does not depend on the first.
proof fn lemma_scan_shift(p: Seq<u8>, q: Seq<u8>, j: int)
    requires
        0 <= j <= q.len(),
    ensures
        scan(p + q, p.len() + j) == scan(q, j),
    decreases q.len() - j,
{
    if j < q.len() {
        lemma_token_shift(p, q, j);
        lemma_token_in_bounds(q, j);
        lemma_scan_shift(p, q, j + token_len(q, j));
    }
}

/// A run in the first part of a source ends where that part ends, if the
/// second part begins with a byte that is not of the run.
proof fn lemma_run_len_prefix(a: Seq<u8>, c: Seq<u8>, k: int, up: u8, down: u8)
    requires
        0 <= k <= a.len(),
        c.len() > 0 ==> c[0] != up && c[0] != down,
    ensures
        run_len(a + c, k, up, down) == run_len(a, k, up, down),
    decreases a.len() - k,
{
    if k < a.len() {
        assert((a + c)[k] == a[k]);
        lemma_run_len_prefix(a, c, k + 1, up, down);
    } else if c.len() > 0 {
        assert((a + c)[k] == c[0]);
    }
}

/// The net effect of bytes in the first part of a source is what it is in
/// that part alone.
proof fn lemma_run_net_prefix(a: Seq<u8>, c: Seq<u8>, i: int, j: int, up: u8)
    requires
        0 <= i <= j <= a.len(),
    ensures
        run_net(a + c, i, j, up) == run_net(a, i, j, up),
    decreases j - i,
{
    if i < j {
        assert((a + c)[j - 1] == a[j - 1]);
        lemma_run_net_prefix(a, c, i, j - 1, up);
    }
}

/// A token in the first part of a source is the token it is in that part
/// alone, if the second part starts afresh.
proof fn lemma_token_prefix(a: Seq<u8>, c: Seq<u8>, i: int)
    requires
        0 <= i < a.len(),
        c.len() > 0 ==> starts_afresh(c[0]),
    ensures
        token_len(a + c, i) == token_len(a, i),
        token_at(a + c, i) == token_at(a, i),
{
    let src = a + c;
    assert(src[i] == a[i]);
    if i + 1 < a.len() {
        assert(src[i + 1] == a[i + 1]);
    } else if c.len() > 0 {
        assert(src[i + 1] == c[0]);
    }
    if i + 2 < a.len() {
        assert(src[i + 2] == a[i + 2]);
    } else if i + 2 == a.len() && c.len() > 0 {
        assert(src[i + 2] == c[0]);
    }
    lemma_token_in_bounds(a, i);
    lemma_run_len_prefix(a, c, i + 1, MOVE_RIGHT, MOVE_LEFT);
    lemma_run_len_prefix(a, c, i + 1, INCREMENT, DECREMENT);
    lemma_run_net_prefix(a, c, i, i + token_len(a, i), MOVE_RIGHT);
    lemma_run_net_prefix(a, c, i, i + token_len(a, i), INCREMENT);
}

/// From any position in the first part of a source, the whole denotes what
/// the first part denotes from there, followed by what the second part
/// denotes, if the second part starts afresh.
proof fn lemma_scan_prefix(a: Seq<u8>, c: Seq<u8>, i: int)
    requires
        0 <= i <= a.len(),
        c.len() > 0 ==> starts_afresh(c[0]),
    ensures
        scan(a + c, i) == scan(a, i) + scan(c, 0),
    decreases a.len() - i,
{
    if i < a.len() {
        lemma_token_prefix(a, c, i);
        lemma_token_in_bounds(a, i);
        let j = i + token_len(a, i);
        lemma_scan_prefix(a, c, j);
        assert(scan(a + c, i) =~= scan(a, i) + scan(c, 0));
    } else {
        lemma_scan_shift(a, c, 0);
        assert(scan(a + c, i) =~= scan(a, i) + scan(c, 0));
    }
}

/// Translation distributes over concatenation wherever the second source
/// begins with a byte that neither continues a run nor completes a `[-]`:
/// with `[`, `.`, `,` or commentary.
pub proof fn lemma_commands_concat(first: Seq<u8>, second: Seq<u8>)
    requires
        second.len() > 0 ==> starts_afresh(second[0]),
    ensures
        commands_of(first + second) == commands_of(first) + commands_of(second),
{
    lemma_scan_prefix(first, second, 0);
}

/// The three bytes `[-]` always translate to the single instruction `Zero`,
/// whatever stands before and after them in the source; they never become a
/// `LoopStart`, `Minus`, `LoopEnd` triple.
pub proof fn lemma_clear_loop_is_fused(before: Seq<u8>, after: Seq<u8>)
    ensures
        commands_of(before + seq![OPEN, DECREMENT, CLOSE] + after) == commands_of(before)
            + seq![Command::Zero] + commands_of(after),
{
    let clear = seq![OPEN, DECREMENT, CLOSE];
    let tail = clear + after;
    assert(before + clear + after =~= before + tail);
    lemma_commands_concat(before, tail);
    assert(is_clear_loop(tail, 0));
    lemma_scan_shift(clear, after, 0);
    assert(scan(tail, 0) == seq![Command::Zero] + scan(tail, 3));
    assert(commands_of(before) + (seq![Command::Zero] + commands_of(after)) =~= commands_of(before)
        + seq![Command::Zero] + commands_of(after));
}

} // verus!
