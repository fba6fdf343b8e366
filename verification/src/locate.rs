//! Finding places in a statement: its terminal item, the end of a run of
//! parts, and the end of its text before a comment.

use vstd::prelude::*;
use crate::text::{whitespace_before, whitespace_width_before, NEWLINE, PIPE, SLASH};

verus! {

/// The digit `1`.
pub const DIGIT_1: u8 = 0x31;
/// The digit `2`.
pub const DIGIT_2: u8 = 0x32;
/// The digit `4`.
pub const DIGIT_4: u8 = 0x34;
/// The digit `5`.
pub const DIGIT_5: u8 = 0x35;
/// The digit `6`.
pub const DIGIT_6: u8 = 0x36;
/// The digit `7`.
pub const DIGIT_7: u8 = 0x37;
/// The digit `8`.
pub const DIGIT_8: u8 = 0x38;
/// The digit `9`.
pub const DIGIT_9: u8 = 0x39;

/// What the next byte that is no pipe means to the item locator.
#[derive(Clone, Copy, PartialEq, Eq, Structural)]
pub enum State {
    /// It begins a new item.
    Item,
    /// It follows a `1` that began an item.
    Item1,
    /// It follows a `4` that began an item.
    Command,
    /// It follows `41`.
    Command1,
    /// It follows `42`.
    Command2,
    /// It follows `16`.
    WheelCommand,
}

/// The item locator after some bytes of a statement.
pub struct Scan {
    /// How many pipes are still to be passed without a look at what lies between.
    pub skip: int,
    /// What the next byte that is no pipe means.
    pub state: State,
    /// Where the last item that was entered begins.
    pub last_item: int,
    /// A byte did not fit the state: the rest of the statement is not read.
    pub stopped: bool,
}

/// The locator before the first byte: the two parts of the trigger are to be
/// skipped.
pub open spec fn scan_start() -> Scan {
    Scan { skip: 2, state: State::Item, last_item: 0, stopped: false }
}

/// The locator begins to pass `count` pipes.
pub open spec fn skipping(sc: Scan, count: int) -> Scan {
    Scan { skip: count, ..sc }
}

/// The locator goes on in `state`.
pub open spec fn going_on(sc: Scan, state: State) -> Scan {
    Scan { state, ..sc }
}

/// The locator gives up.
pub open spec fn stopping(sc: Scan) -> Scan {
    Scan { stopped: true, ..sc }
}

/// The locator after it has read `byte` at offset `index`.
pub open spec fn scan_step(sc: Scan, index: int, byte: u8) -> Scan {
    if sc.stopped {
        sc
    } else if sc.skip > 0 {
        if byte == PIPE {
            Scan { skip: sc.skip - 1, state: State::Item, ..sc }
        } else {
            sc
        }
    } else if byte == PIPE {
        sc
    } else {
        match sc.state {
            State::Item => {
                let entered = Scan { last_item: index, ..sc };
                if byte == DIGIT_1 {
                    going_on(entered, State::Item1)
                } else if byte == DIGIT_4 {
                    going_on(entered, State::Command)
                } else {
                    stopping(entered)
                }
            },
            State::Item1 => if byte == DIGIT_6 {
                going_on(sc, State::WheelCommand)
            } else {
                stopping(sc)
            },
            State::Command => if byte == DIGIT_1 {
                going_on(sc, State::Command1)
            } else if byte == DIGIT_2 {
                going_on(sc, State::Command2)
            } else {
                stopping(sc)
            },
            State::Command1 => if byte == DIGIT_7 || byte == DIGIT_8 || byte == DIGIT_9 {
                skipping(sc, 4)
            } else {
                stopping(sc)
            },
            State::Command2 => if byte == DIGIT_4 {
                skipping(sc, 5)
            } else if byte == DIGIT_5 || byte == DIGIT_6 || byte == DIGIT_7 {
                skipping(sc, 2)
            } else {
                stopping(sc)
            },
            State::WheelCommand => if byte == DIGIT_4 {
                skipping(sc, 4)
            } else {
                stopping(sc)
            },
        }
    }
}

/// The locator after the first `n` bytes of `s`.
pub open spec fn scan(s: Seq<u8>, n: int) -> Scan
    decreases n,
{
    if n <= 0 {
        scan_start()
    } else {
        scan_step(scan(s, n - 1), n - 1, s[n - 1])
    }
}

/// The offset at which the terminal item of `s` begins, 0 where the locator
/// entered no item.
pub open spec fn last_item_offset(s: Seq<u8>) -> int {
    scan(s, s.len() as int).last_item
}

/// Once the locator has stopped, more bytes change nothing.
pub proof fn lemma_scan_stopped(s: Seq<u8>, n: int, m: int)
    requires
        scan(s, n).stopped,
        n <= m,
    ensures
        scan(s, m) == scan(s, n),
    decreases m - n,
{
    if n < m {
        lemma_scan_stopped(s, n, m - 1);
    }
}

/// What holds of the locator after any number of bytes: an item that it has
/// entered begins right after a pipe, and where it waits for an item, the
/// byte before was a pipe.
pub proof fn lemma_scan_follows_pipe(s: Seq<u8>, n: int)
    requires
        0 <= n <= s.len(),
    ensures
        0 <= scan(s, n).skip <= 5,
        0 <= scan(s, n).last_item <= n,
        scan(s, n).last_item > 0 ==> scan(s, n).last_item < n && s[scan(s, n).last_item - 1] == PIPE,
        !scan(s, n).stopped && scan(s, n).skip == 0 && scan(s, n).state == State::Item ==> n > 0
            && s[n - 1] == PIPE,
    decreases n,
{
    if n > 0 {
        lemma_scan_follows_pipe(s, n - 1);
    }
}

/// The locator reads a statement from its start: what it is after `n` bytes
/// depends on those bytes alone.
pub proof fn lemma_scan_prefix(x: Seq<u8>, y: Seq<u8>, n: int)
    requires
        0 <= n <= x.len(),
        n <= y.len(),
        forall|i: int| 0 <= i < n ==> x[i] == y[i],
    ensures
        scan(x, n) == scan(y, n),
    decreases n,
{
    if n > 0 {
        lemma_scan_prefix(x, y, n - 1);
    }
}

/// The locator was waiting for an item when it came to the byte at which its
/// last item begins, and that byte is no pipe.
pub proof fn lemma_scan_entered(s: Seq<u8>, n: int)
    requires
        0 <= n <= s.len(),
        scan(s, n).last_item > 0,
    ensures
        scan(s, n).last_item < n,
        !scan(s, scan(s, n).last_item).stopped,
        scan(s, scan(s, n).last_item).skip == 0,
        scan(s, scan(s, n).last_item).state == State::Item,
        s[scan(s, n).last_item] != PIPE,
    decreases n,
{
    if n > 0 {
        if scan(s, n - 1).last_item == scan(s, n).last_item {
            lemma_scan_entered(s, n - 1);
        } else {
            lemma_scan_follows_pipe(s, n - 1);
        }
    }
}

/// A statement that agrees with another as far as the locator read has the
/// same terminal item.
pub proof fn lemma_last_item_fixed(x: Seq<u8>, y: Seq<u8>, n: int)
    requires
        0 <= n <= x.len(),
        n <= y.len(),
        forall|i: int| 0 <= i < n ==> x[i] == y[i],
        scan(x, n).stopped,
    ensures
        last_item_offset(y) == last_item_offset(x),
{
    lemma_scan_prefix(x, y, n);
    lemma_scan_stopped(x, n, x.len() as int);
    lemma_scan_stopped(y, n, y.len() as int);
}

/// The parts of a statement are counted by what stands before their end
/// alone.
pub proof fn lemma_after_parts_prefix(x: Seq<u8>, y: Seq<u8>, from: int, n: nat)
    requires
        0 <= from <= x.len(),
        after_parts(x, from, n) is Some,
        after_parts(x, from, n).unwrap() <= y.len(),
        forall|i: int| 0 <= i < after_parts(x, from, n).unwrap() ==> x[i] == y[i],
    ensures
        after_parts(y, from, n) == after_parts(x, from, n),
    decreases x.len() - from,
{
    lemma_after_parts_bounds(x, from, n);
    if n > 0 && from < x.len() {
        if x[from] == PIPE {
            lemma_after_parts_bounds(x, from + 1, (n - 1) as nat);
            lemma_after_parts_prefix(x, y, from + 1, (n - 1) as nat);
        } else {
            lemma_after_parts_bounds(x, from + 1, n);
            lemma_after_parts_prefix(x, y, from + 1, n);
        }
    }
}

/// Finds the terminal item of a statement: the offset of the byte right after
/// the pipe that begins it. The result is 0 where the statement has no item
/// that the locator knows after its trigger.
pub fn find_last_item(string: &[u8]) -> (offset: usize)
    ensures
        offset == last_item_offset(string@),
        offset <= string@.len(),
        offset > 0 ==> offset < string@.len() && string@[offset - 1] == PIPE,
{
    let mut skip: usize = 2;
    let mut state = State::Item;
    let mut last_item: usize = 0;
    let mut stopped = false;
    let mut index: usize = 0;
    while index < string.len() && !stopped
        invariant
            index <= string@.len(),
            skip <= 5,
            last_item <= index,
            scan(string@, index as int) == (Scan {
                skip: skip as int,
                state,
                last_item: last_item as int,
                stopped,
            }),
        decreases string@.len() - index,
    {
        let byte: u8 = string[index];
        if skip > 0 {
            if byte == PIPE {
                skip -= 1;
                state = State::Item;
            }
        } else if byte != PIPE {
            match state {
                State::Item => {
                    last_item = index;
                    if byte == DIGIT_1 {
                        state = State::Item1;
                    } else if byte == DIGIT_4 {
                        state = State::Command;
                    } else {
                        stopped = true;
                    }
                },
                State::Item1 => {
                    if byte == DIGIT_6 {
                        state = State::WheelCommand;
                    } else {
                        stopped = true;
                    }
                },
                State::Command => {
                    if byte == DIGIT_1 {
                        state = State::Command1;
                    } else if byte == DIGIT_2 {
                        state = State::Command2;
                    } else {
                        stopped = true;
                    }
                },
                State::Command1 => {
                    if byte == DIGIT_7 || byte == DIGIT_8 || byte == DIGIT_9 {
                        skip = 4;
                    } else {
                        stopped = true;
                    }
                },
                State::Command2 => {
                    if byte == DIGIT_4 {
                        skip = 5;
                    } else if byte == DIGIT_5 || byte == DIGIT_6 || byte == DIGIT_7 {
                        skip = 2;
                    } else {
                        stopped = true;
                    }
                },
                State::WheelCommand => {
                    if byte == DIGIT_4 {
                        skip = 4;
                    } else {
                        stopped = true;
                    }
                },
            }
        }
        index += 1;
    }
    proof {
        if stopped {
            lemma_scan_stopped(string@, index as int, string@.len() as int);
        }
        lemma_scan_follows_pipe(string@, string@.len() as int);
    }
    last_item
}

/// The offset right after the `n`-th pipe at or after `from`, `None` where
/// fewer than `n` pipes follow.
pub open spec fn after_parts(s: Seq<u8>, from: int, n: nat) -> Option<int>
    decreases s.len() - from,
{
    if n == 0 {
        Some(from)
    } else if from >= s.len() {
        None
    } else if s[from] == PIPE {
        after_parts(s, from + 1, (n - 1) as nat)
    } else {
        after_parts(s, from + 1, n)
    }
}

/// Where `after_parts` finds an end, it lies in the statement, and right
/// after a pipe if any part was to be passed.
pub proof fn lemma_after_parts_bounds(s: Seq<u8>, from: int, n: nat)
    requires
        0 <= from <= s.len(),
    ensures
        after_parts(s, from, n) matches Some(end) ==> from <= end <= s.len() && (n > 0 ==> from < end
            && s[end - 1] == PIPE),
    decreases s.len() - from,
{
    if n > 0 && from < s.len() {
        if s[from] == PIPE {
            lemma_after_parts_bounds(s, from + 1, (n - 1) as nat);
        } else {
            lemma_after_parts_bounds(s, from + 1, n);
        }
    }
}

/// Steps over `amount` parts that begin at `from`: the offset right after the
/// `amount`-th pipe from there on.
pub fn skip_parts_from(string: &[u8], from: usize, amount: usize) -> (end: Option<usize>)
    requires
        from <= string@.len(),
    ensures
        match end {
            Some(offset) => after_parts(string@, from as int, amount as nat) == Some(offset as int),
            None => after_parts(string@, from as int, amount as nat).is_none(),
        },
        end matches Some(offset) ==> from <= offset <= string@.len() && (amount > 0 ==> from < offset
            && string@[offset - 1] == PIPE),
{
    let mut left: usize = amount;
    let mut index: usize = from;
    while left > 0 && index < string.len()
        invariant
            from <= index <= string@.len(),
            after_parts(string@, from as int, amount as nat) == after_parts(
                string@,
                index as int,
                left as nat,
            ),
        decreases string@.len() - index,
    {
        if string[index] == PIPE {
            left -= 1;
        }
        index += 1;
    }
    proof {
        lemma_after_parts_bounds(string@, from as int, amount as nat);
    }
    if left == 0 {
        Some(index)
    } else {
        None
    }
}

/// Steps over the first `amount` parts of `string`: the offset right after its
/// `amount`-th pipe, `None` where it has fewer pipes.
pub fn skip_parts(string: &[u8], amount: usize) -> (end: Option<usize>)
    ensures
        match end {
            Some(offset) => after_parts(string@, 0, amount as nat) == Some(offset as int),
            None => after_parts(string@, 0, amount as nat).is_none(),
        },
        end matches Some(offset) ==> offset <= string@.len() && (amount > 0 ==> 0 < offset
            && string@[offset - 1] == PIPE),
{
    skip_parts_from(string, 0, amount)
}

/// The locator waits for an item: the next byte that is no pipe begins one.
pub open spec fn waiting(sc: Scan) -> bool {
    !sc.stopped && sc.skip == 0 && sc.state == State::Item
}

/// How many pipes the locator passes behind the three bytes of code at `at`
/// where they are the code of a wrapper: 4 for `417`, `418`, `419` and `164`,
/// 5 for `424`, 2 for `425`, `426` and `427`.
pub open spec fn wrapper_parts(s: Seq<u8>, at: int) -> Option<nat> {
    if at < 0 || at + 3 > s.len() {
        None
    } else if s[at] == DIGIT_4 && s[at + 1] == DIGIT_1 && (s[at + 2] == DIGIT_7 || s[at + 2]
        == DIGIT_8 || s[at + 2] == DIGIT_9) {
        Some(4)
    } else if s[at] == DIGIT_4 && s[at + 1] == DIGIT_2 && s[at + 2] == DIGIT_4 {
        Some(5)
    } else if s[at] == DIGIT_4 && s[at + 1] == DIGIT_2 && (s[at + 2] == DIGIT_5 || s[at + 2]
        == DIGIT_6 || s[at + 2] == DIGIT_7) {
        Some(2)
    } else if s[at] == DIGIT_1 && s[at + 1] == DIGIT_6 && s[at + 2] == DIGIT_4 {
        Some(4)
    } else {
        None
    }
}

/// A locator that has pipes to pass waits for an item right after the last
/// of them.
pub proof fn lemma_parts_passed(s: Seq<u8>, from: int, end: int)
    requires
        0 <= from <= s.len(),
        !scan(s, from).stopped,
        scan(s, from).skip > 0,
        after_parts(s, from, scan(s, from).skip as nat) == Some(end),
    ensures
        from < end <= s.len(),
        waiting(scan(s, end)),
        scan(s, end).last_item == scan(s, from).last_item,
    decreases s.len() - from,
{
    if from < s.len() {
        if !(s[from] == PIPE && scan(s, from).skip == 1) {
            lemma_parts_passed(s, from + 1, end);
        }
    }
}

/// The locator waits for the first item right after the two parts of the
/// trigger.
pub proof fn lemma_trigger_passed(s: Seq<u8>)
    requires
        after_parts(s, 0, 2) is Some,
    ensures
        waiting(scan(s, after_parts(s, 0, 2).unwrap())),
{
    lemma_parts_passed(s, 0, after_parts(s, 0, 2).unwrap());
}

/// Where the locator waits for an item and finds a wrapper, it passes the
/// parts of the wrapper and waits again for the item behind them.
pub proof fn lemma_wrapper_passed(s: Seq<u8>, at: int)
    requires
        0 <= at,
        waiting(scan(s, at)),
        wrapper_parts(s, at) is Some,
        after_parts(s, at + 3, wrapper_parts(s, at).unwrap()) is Some,
    ensures
        waiting(scan(s, after_parts(s, at + 3, wrapper_parts(s, at).unwrap()).unwrap())),
{
    assert(scan(s, at + 1) == scan_step(scan(s, at), at, s[at]));
    assert(scan(s, at + 2) == scan_step(scan(s, at + 1), at + 1, s[at + 1]));
    assert(scan(s, at + 3) == scan_step(scan(s, at + 2), at + 2, s[at + 2]));
    lemma_parts_passed(
        s,
        at + 3,
        after_parts(s, at + 3, wrapper_parts(s, at).unwrap()).unwrap(),
    );
}

/// Where the locator waits for an item and finds a byte that begins no
/// wrapper, that byte begins the terminal item.
pub proof fn lemma_terminal_item_entered(s: Seq<u8>, at: int)
    requires
        0 <= at < s.len(),
        waiting(scan(s, at)),
        s[at] != PIPE,
        s[at] != DIGIT_1,
        s[at] != DIGIT_4,
    ensures
        last_item_offset(s) == at,
{
    assert(scan(s, at + 1) == scan_step(scan(s, at), at, s[at]));
    lemma_scan_stopped(s, at + 1, s.len() as int);
}

/// A comment or a line break begins at `i`.
pub open spec fn is_line_stop(s: Seq<u8>, i: int) -> bool {
    0 <= i < s.len() && (s[i] == NEWLINE || (i + 1 < s.len() && s[i] == SLASH && s[i + 1] == SLASH))
}

/// The first offset at or after `from` at which a comment or a line break
/// begins, the length of `s` where none does.
pub open spec fn line_stop(s: Seq<u8>, from: int) -> int
    decreases s.len() - from,
{
    if from >= s.len() {
        s.len() as int
    } else if is_line_stop(s, from) {
        from
    } else {
        line_stop(s, from + 1)
    }
}

/// The offset at which the white space that ends just before `end` begins:
/// right after the last byte before `end` that belongs to no white-space
/// character, 0 where there is none.
pub open spec fn trim_end(s: Seq<u8>, end: int) -> int
    decreases end,
{
    let width = whitespace_before(s, end);
    if width > 0 {
        trim_end(s, end - width)
    } else {
        end
    }
}

/// The effective end of a statement: right after its last character that is
/// no white space, before the comment or the line break if it has one.
pub open spec fn line_end(s: Seq<u8>) -> int {
    trim_end(s, line_stop(s, 0))
}

/// The first comment or line break lies in the statement, and none lies
/// before it.
pub proof fn lemma_line_stop_bounds(s: Seq<u8>, from: int)
    requires
        0 <= from <= s.len(),
    ensures
        from <= line_stop(s, from) <= s.len(),
        line_stop(s, from) < s.len() ==> is_line_stop(s, line_stop(s, from)),
        forall|i: int| from <= i < line_stop(s, from) ==> !is_line_stop(s, i),
    decreases s.len() - from,
{
    if from < s.len() && !is_line_stop(s, from) {
        lemma_line_stop_bounds(s, from + 1);
    }
}

/// Where white space is trimmed to, no white-space character ends.
pub proof fn lemma_trim_end_bounds(s: Seq<u8>, end: int)
    requires
        0 <= end <= s.len(),
    ensures
        0 <= trim_end(s, end) <= end,
        whitespace_before(s, trim_end(s, end)) == 0,
    decreases end,
{
    let width = whitespace_before(s, end);
    if width > 0 {
        lemma_trim_end_bounds(s, end - width);
    }
}

fn line_stop_at(string: &[u8], index: usize) -> (yes: bool)
    requires
        index < string@.len(),
    ensures
        yes == is_line_stop(string@, index as int),
{
    string[index] == NEWLINE || (string.len() - index >= 2 && string[index] == SLASH && string[index
        + 1] == SLASH)
}

/// Finds the effective end of a statement: the offset right after its last
/// character that is no white space, looking no further than the first `//`
/// or line break.
pub fn find_line_end(string: &[u8]) -> (end: usize)
    ensures
        end == line_end(string@),
        end <= line_stop(string@, 0) <= string@.len(),
{
    let mut stop: usize = 0;
    while stop < string.len() && !line_stop_at(string, stop)
        invariant
            stop <= string@.len(),
            line_stop(string@, 0) == line_stop(string@, stop as int),
        decreases string@.len() - stop,
    {
        stop += 1;
    }
    let mut end: usize = stop;
    let mut width: usize = whitespace_width_before(string, end);
    while width > 0
        invariant
            end <= stop <= string@.len(),
            width == whitespace_before(string@, end as int),
            trim_end(string@, stop as int) == trim_end(string@, end as int),
        decreases end,
    {
        end -= width;
        width = whitespace_width_before(string, end);
    }
    end
}

} // verus!
