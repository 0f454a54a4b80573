use vstd::prelude::*;
use crate::types::{BoardSize, Color, Move, MIN_SIDE, MAX_SIDE, DEFAULT_SIDE};
use crate::board::replay_spec;

verus! {

/// Bytes of the record notation.
pub const TAG_S: u8 = 0x53;
pub const TAG_Z: u8 = 0x5a;
pub const OPEN: u8 = 0x5b;
pub const CLOSE: u8 = 0x5d;
pub const COLON: u8 = 0x3a;
pub const DIGIT_0: u8 = 0x30;
pub const DIGIT_9: u8 = 0x39;
pub const LOWER_A: u8 = 0x61;
pub const LOWER_Z: u8 = 0x7a;
pub const UPPER_A: u8 = 0x41;
pub const UPPER_Z: u8 = 0x5a;
pub const MARK_BLACK: u8 = 0x42;
pub const MARK_WHITE: u8 = 0x57;
pub const BRANCH_OPEN: u8 = 0x28;
pub const BRANCH_CLOSE: u8 = 0x29;

// ---------------------------------------------------------------------------
// Board size declaration
// ---------------------------------------------------------------------------

/// `s[i..i+3]` is the size property opener `SZ[`.
pub open spec fn size_tag_at(s: Seq<u8>, i: int) -> bool {
    0 <= i && i + 3 <= s.len() && s[i] == TAG_S && s[i + 1] == TAG_Z && s[i + 2] == OPEN
}

/// Index of the first size property opener at or after `i`, or -1.
pub open spec fn find_size_tag(s: Seq<u8>, i: int) -> int
    decreases s.len() - i,
{
    if i < 0 || i + 3 > s.len() {
        -1
    } else if size_tag_at(s, i) {
        i
    } else {
        find_size_tag(s, i + 1)
    }
}

/// Index of the first byte `b` in `s[i..end]`, or -1.
pub open spec fn find_byte(s: Seq<u8>, i: int, end: int, b: u8) -> int
    decreases end - i,
{
    if i < 0 || i >= end || end > s.len() {
        -1
    } else if s[i] == b {
        i
    } else {
        find_byte(s, i + 1, end, b)
    }
}

pub open spec fn is_digit(b: u8) -> bool {
    DIGIT_0 <= b <= DIGIT_9
}

pub open spec fn all_digits(s: Seq<u8>, lo: int, hi: int) -> bool {
    forall|k: int| lo <= k < hi ==> is_digit(#[trigger] s[k])
}

/// Decimal value of the digits `s[lo..hi]`.
pub open spec fn decimal_value(s: Seq<u8>, lo: int, hi: int) -> nat
    decreases hi - lo,
{
    if hi <= lo {
        0
    } else {
        decimal_value(s, lo, hi - 1) * 10 + (s[hi - 1] - DIGIT_0) as nat
    }
}

/// The board side written in `s[lo..hi]`, when it is a decimal number in the
/// supported range.
pub open spec fn side_of(s: Seq<u8>, lo: int, hi: int) -> Option<usize> {
    if lo < hi && all_digits(s, lo, hi) && MIN_SIDE <= decimal_value(s, lo, hi) <= MAX_SIDE {
        Some(decimal_value(s, lo, hi) as usize)
    } else {
        None
    }
}

/// The size written in the property value `s[lo..hi]`: `n` for a square board,
/// `w:h` for a rectangular one, the default board when it is neither.
pub open spec fn size_of_value(s: Seq<u8>, lo: int, hi: int) -> BoardSize {
    let c = find_byte(s, lo, hi, COLON);
    if c < 0 {
        match side_of(s, lo, hi) {
            Some(n) => BoardSize { width: n, height: n },
            None => BoardSize::default_size(),
        }
    } else if find_byte(s, c + 1, hi, COLON) >= 0 {
        BoardSize::default_size()
    } else {
        match (side_of(s, lo, c), side_of(s, c + 1, hi)) {
            (Some(w), Some(h)) => BoardSize { width: w, height: h },
            _ => BoardSize::default_size(),
        }
    }
}

/// The board size that a record declares in its first `SZ[...]` property, or
/// the default board when there is none or it cannot be read.
pub open spec fn declared_size(s: Seq<u8>) -> BoardSize {
    let a = find_size_tag(s, 0);
    if a < 0 {
        BoardSize::default_size()
    } else {
        let e = find_byte(s, a + 3, s.len() as int, CLOSE);
        if e < 0 {
            BoardSize::default_size()
        } else {
            size_of_value(s, a + 3, e)
        }
    }
}

/// First `b` in `s[i..end]`, or `end` when there is none.
fn scan_for(s: &[u8], i: usize, end: usize, b: u8) -> (r: usize)
    requires
        i <= end <= s@.len(),
    ensures
        i <= r <= end,
        r < end ==> find_byte(s@, i as int, end as int, b) == r,
        r == end ==> find_byte(s@, i as int, end as int, b) == -1,
{
    let mut k: usize = i;
    while k < end
        invariant
            i <= k <= end <= s@.len(),
            find_byte(s@, i as int, end as int, b) == find_byte(s@, k as int, end as int, b),
        decreases end - k,
    {
        if s[k] == b {
            return k;
        }
        k = k + 1;
    }
    k
}

/// Reads a board side from the digits `s[lo..hi]`.
fn read_side(s: &[u8], lo: usize, hi: usize) -> (r: Option<usize>)
    requires
        lo <= hi <= s@.len(),
    ensures
        r == side_of(s@, lo as int, hi as int),
{
    if lo == hi {
        return None;
    }
    // `acc` holds the value read so far, capped just above the largest side.
    let mut acc: usize = 0;
    let mut k: usize = lo;
    while k < hi
        invariant
            lo <= k <= hi <= s@.len(),
            all_digits(s@, lo as int, k as int),
            acc == if decimal_value(s@, lo as int, k as int) <= MAX_SIDE {
                decimal_value(s@, lo as int, k as int)
            } else {
                MAX_SIDE as nat + 1
            },
        decreases hi - k,
    {
        let b = s[k];
        if b < DIGIT_0 || b > DIGIT_9 {
            return None;
        }
        let next: usize = acc * 10 + (b - DIGIT_0) as usize;
        acc = if next > MAX_SIDE { MAX_SIDE + 1 } else { next };
        k = k + 1;
    }
    if acc >= MIN_SIDE && acc <= MAX_SIDE {
        Some(acc)
    } else {
        None
    }
}

/// Reads the size property value `s[lo..hi]`.
fn read_size_value(s: &[u8], lo: usize, hi: usize) -> (r: BoardSize)
    requires
        lo <= hi <= s@.len(),
    ensures
        r == size_of_value(s@, lo as int, hi as int),
{
    let c = scan_for(s, lo, hi, COLON);
    if c == hi {
        return match read_side(s, lo, hi) {
            Some(n) => BoardSize { width: n, height: n },
            None => BoardSize::standard(),
        };
    }
    let c2 = scan_for(s, c + 1, hi, COLON);
    if c2 < hi {
        return BoardSize::standard();
    }
    match (read_side(s, lo, c), read_side(s, c + 1, hi)) {
        (Some(w), Some(h)) => BoardSize { width: w, height: h },
        _ => BoardSize::standard(),
    }
}

/// The board size that the record declares; 19 by 19 when it declares none, or
/// one that is malformed or out of range.
pub fn parse_board_size(notation: &[u8]) -> (r: BoardSize)
    ensures
        r == declared_size(notation@),
        r.valid(),
{
    let s = notation;
    let n = s.len();
    let mut a: usize = 0;
    while n - a >= 3 && !(s[a] == TAG_S && s[a + 1] == TAG_Z && s[a + 2] == OPEN)
        invariant
            n == s@.len(),
            a <= n,
            find_size_tag(s@, 0) == find_size_tag(s@, a as int),
        decreases n - a,
    {
        a = a + 1;
    }
    if n - a < 3 {
        return BoardSize::standard();
    }
    let e = scan_for(s, a + 3, n, CLOSE);
    if e == n {
        return BoardSize::standard();
    }
    read_size_value(s, a + 3, e)
}

// ---------------------------------------------------------------------------
// Move stream
// ---------------------------------------------------------------------------

/// What the scanner is in the middle of.
#[derive(Clone, Copy, Debug, PartialEq, Eq, Structural)]
pub enum ScanMode {
    /// Between property values.
    Normal,
    /// Inside a property value that is not a move.
    Opaque,
    /// Inside the value of a move property: `len` counts the value's bytes
    /// (capped at 3), `first` and `second` hold the first two.
    Value { color: Color, len: usize, first: u8, second: u8 },
}

/// Scanner state: the branch nesting depth and the current mode.
#[derive(Clone, Copy, Debug, PartialEq, Eq, Structural)]
pub struct ScanState {
    pub depth: usize,
    pub mode: ScanMode,
}

pub open spec fn initial_scan() -> ScanState {
    ScanState { depth: 0, mode: ScanMode::Normal }
}

pub open spec fn is_upper(b: u8) -> bool {
    UPPER_A <= b <= UPPER_Z
}

/// Board index named by a coordinate letter: `a` is 0, `b` is 1, and so on.
pub open spec fn letter_index(b: u8) -> Option<usize> {
    if LOWER_A <= b <= LOWER_Z {
        Some((b - LOWER_A) as usize)
    } else {
        None
    }
}

/// The colour of the move property whose value opens at `s[i]`: the bracket
/// follows a `B` or `W` that is a property name of its own (not the last letter
/// of a longer name such as `PB` or `AW`).
pub open spec fn marker_color(s: Seq<u8>, i: int) -> Option<Color> {
    if 1 <= i < s.len() && !(i >= 2 && is_upper(s[i - 2])) {
        if s[i - 1] == MARK_BLACK {
            Some(Color::Black)
        } else if s[i - 1] == MARK_WHITE {
            Some(Color::White)
        } else {
            None
        }
    } else {
        None
    }
}

/// The placement that a move value of length `len` with first bytes `first`,
/// `second` denotes: the first letter gives the row, the second the column.
pub open spec fn value_move(color: Color, len: usize, first: u8, second: u8) -> Option<(Color, usize, usize)> {
    if len == 2 && letter_index(first) is Some && letter_index(second) is Some {
        Some((color, letter_index(second)->0, letter_index(first)->0))
    } else {
        None
    }
}

/// One step of the scanner over `s[i]`: the next state, and the placement that
/// ends there, if any. Placements nested deeper than the main line are dropped.
pub open spec fn scan_step(s: Seq<u8>, i: int, st: ScanState) -> (ScanState, Option<(Color, usize, usize)>) {
    let b = s[i];
    let d = st.depth;
    match st.mode {
        ScanMode::Normal => {
            if b == OPEN {
                match marker_color(s, i) {
                    Some(c) => (ScanState { depth: d, mode: ScanMode::Value { color: c, len: 0, first: 0, second: 0 } }, None),
                    None => (ScanState { depth: d, mode: ScanMode::Opaque }, None),
                }
            } else if b == BRANCH_OPEN {
                (ScanState { depth: (d + 1) as usize, mode: ScanMode::Normal }, None)
            } else if b == BRANCH_CLOSE {
                (ScanState { depth: if d > 0 { (d - 1) as usize } else { 0 }, mode: ScanMode::Normal }, None)
            } else {
                (st, None)
            }
        },
        ScanMode::Opaque => {
            if b == CLOSE {
                (ScanState { depth: d, mode: ScanMode::Normal }, None)
            } else {
                (st, None)
            }
        },
        ScanMode::Value { color, len, first, second } => {
            if b == CLOSE {
                (ScanState { depth: d, mode: ScanMode::Normal },
                 if d <= 1 { value_move(color, len, first, second) } else { None })
            } else if len == 0 {
                (ScanState { depth: d, mode: ScanMode::Value { color, len: 1, first: b, second } }, None)
            } else if len == 1 {
                (ScanState { depth: d, mode: ScanMode::Value { color, len: 2, first, second: b } }, None)
            } else {
                (ScanState { depth: d, mode: ScanMode::Value { color, len: 3, first, second } }, None)
            }
        },
    }
}

/// The placements found in `s[i..]`, scanning from state `st`.
pub open spec fn placements_from(s: Seq<u8>, i: int, st: ScanState) -> Seq<(Color, usize, usize)>
    decreases s.len() - i,
{
    if i < 0 || i >= s.len() {
        seq![]
    } else {
        let (next, found) = scan_step(s, i, st);
        match found {
            Some(p) => seq![p] + placements_from(s, i + 1, next),
            None => placements_from(s, i + 1, next),
        }
    }
}

/// Placements numbered by their position in the sequence.
pub open spec fn numbered(p: Seq<(Color, usize, usize)>) -> Seq<Move> {
    Seq::new(p.len(), |k: int| Move { color: p[k].0, x: p[k].1, y: p[k].2, sequence_index: k as usize })
}

/// The main-line moves of a record, in order.
pub open spec fn record_moves(s: Seq<u8>) -> Seq<Move> {
    numbered(placements_from(s, 0, initial_scan()))
}

/// The first `limit` moves, or all of them when there is no limit.
pub open spec fn limited(m: Seq<Move>, limit: Option<usize>) -> Seq<Move> {
    match limit {
        Some(n) => if n < m.len() { m.take(n as int) } else { m },
        None => m,
    }
}

fn marker_at(s: &[u8], i: usize) -> (r: Option<Color>)
    requires
        i < s@.len(),
    ensures
        r == marker_color(s@, i as int),
{
    if i >= 1 && !(i >= 2 && s[i - 2] >= UPPER_A && s[i - 2] <= UPPER_Z) {
        if s[i - 1] == MARK_BLACK {
            Some(Color::Black)
        } else if s[i - 1] == MARK_WHITE {
            Some(Color::White)
        } else {
            None
        }
    } else {
        None
    }
}

fn letter_at(b: u8) -> (r: Option<usize>)
    ensures
        r == letter_index(b),
{
    if b >= LOWER_A && b <= LOWER_Z {
        Some((b - LOWER_A) as usize)
    } else {
        None
    }
}

/// Executable counterpart of `scan_step`.
fn step(s: &[u8], i: usize, st: ScanState) -> (r: (ScanState, Option<(Color, usize, usize)>))
    requires
        i < s@.len(),
        st.depth <= i,
    ensures
        r == scan_step(s@, i as int, st),
        r.0.depth <= i + 1,
{
    let b = s[i];
    let d = st.depth;
    match st.mode {
        ScanMode::Normal => {
            if b == OPEN {
                match marker_at(s, i) {
                    Some(c) => (ScanState { depth: d, mode: ScanMode::Value { color: c, len: 0, first: 0, second: 0 } }, None),
                    None => (ScanState { depth: d, mode: ScanMode::Opaque }, None),
                }
            } else if b == BRANCH_OPEN {
                (ScanState { depth: d + 1, mode: ScanMode::Normal }, None)
            } else if b == BRANCH_CLOSE {
                (ScanState { depth: if d > 0 { d - 1 } else { 0 }, mode: ScanMode::Normal }, None)
            } else {
                (st, None)
            }
        },
        ScanMode::Opaque => {
            if b == CLOSE {
                (ScanState { depth: d, mode: ScanMode::Normal }, None)
            } else {
                (st, None)
            }
        },
        ScanMode::Value { color, len, first, second } => {
            if b == CLOSE {
                let found = if d <= 1 && len == 2 {
                    match (letter_at(first), letter_at(second)) {
                        (Some(row), Some(col)) => Some((color, col, row)),
                        _ => None,
                    }
                } else {
                    None
                };
                (ScanState { depth: d, mode: ScanMode::Normal }, found)
            } else if len == 0 {
                (ScanState { depth: d, mode: ScanMode::Value { color, len: 1, first: b, second } }, None)
            } else if len == 1 {
                (ScanState { depth: d, mode: ScanMode::Value { color, len: 2, first, second: b } }, None)
            } else {
                (ScanState { depth: d, mode: ScanMode::Value { color, len: 3, first, second } }, None)
            }
        },
    }
}

/// The main-line moves of the record, numbered from 0 in order, cut to the
/// first `limit` of them when a limit is given. Malformed move values and
/// moves inside nested variations are left out.
pub fn parse_moves(notation: &[u8], limit: Option<usize>) -> (r: Vec<Move>)
    ensures
        r@ == limited(record_moves(notation@), limit),
{
    let s = notation;
    let mut out: Vec<Move> = Vec::new();
    let mut st = ScanState { depth: 0, mode: ScanMode::Normal };
    let ghost mut done: Seq<(Color, usize, usize)> = seq![];
    let mut i: usize = 0;
    while i < s.len()
        invariant
            i <= s@.len(),
            st.depth <= i,
            placements_from(s@, 0, initial_scan()) == done + placements_from(s@, i as int, st),
            out@ == numbered(done),
            done.len() <= i,
        decreases s@.len() - i,
    {
        let (next, found) = step(s, i, st);
        proof {
            assert(placements_from(s@, i as int, st) == match found {
                Some(p) => seq![p] + placements_from(s@, i + 1, next),
                None => placements_from(s@, i + 1, next),
            });
        }
        match found {
            Some(p) => {
                let (c, x, y) = p;
                out.push(Move { color: c, x, y, sequence_index: out.len() });
                proof {
                    assert(done + (seq![p] + placements_from(s@, i + 1, next))
                        == done.push(p) + placements_from(s@, i + 1, next));
                    done = done.push(p);
                    assert(out@ =~= numbered(done));
                }
            },
            None => {},
        }
        st = next;
        i = i + 1;
    }
    proof {
        assert(done + placements_from(s@, i as int, st) =~= done);
    }
    match limit {
        Some(n) => {
            if n < out.len() {
                out.truncate(n);
            }
        },
        None => {},
    }
    out
}

/// The declared board size together with the main-line moves, cut to the first
/// `limit` of them when a limit is given.
pub fn get_board_position(notation: &[u8], limit: Option<usize>) -> (r: (BoardSize, Vec<Move>))
    ensures
        r.0 == declared_size(notation@),
        r.0.valid(),
        r.1@ == limited(record_moves(notation@), limit),
{
    (parse_board_size(notation), parse_moves(notation, limit))
}

// ---------------------------------------------------------------------------
// Laws
// ---------------------------------------------------------------------------

/// The decimal numeral of `n`, without leading zeros.
pub open spec fn decimal(n: nat) -> Seq<u8>
    decreases n,
{
    if n < 10 {
        seq![(n + DIGIT_0) as u8]
    } else {
        decimal(n / 10).push((n % 10 + DIGIT_0) as u8)
    }
}

/// The size property opener `SZ[`.
pub open spec fn size_tag() -> Seq<u8> {
    seq![TAG_S, TAG_Z, OPEN]
}

/// The size that a declaration of sides `w` and `h` stands for: the board
/// itself when both sides are in range, the default board otherwise.
pub open spec fn size_or_default(w: nat, h: nat) -> BoardSize {
    if MIN_SIDE <= w <= MAX_SIDE && MIN_SIDE <= h <= MAX_SIDE {
        BoardSize { width: w as usize, height: h as usize }
    } else {
        BoardSize::default_size()
    }
}

proof fn lemma_decimal(s: Seq<u8>, lo: int, n: nat)
    requires
        0 <= lo,
        lo + decimal(n).len() <= s.len(),
        s.subrange(lo, lo + decimal(n).len()) == decimal(n),
    ensures
        decimal(n).len() >= 1,
        all_digits(s, lo, lo + decimal(n).len()),
        decimal_value(s, lo, lo + decimal(n).len()) == n,
    decreases n,
{
    let d = decimal(n);
    let hi = lo + d.len();
    if n < 10 {
        assert(s[lo] == d[0]);
        assert(decimal_value(s, lo, lo) == 0);
    } else {
        let m = n / 10;
        let dm = decimal(m);
        assert(d.len() == dm.len() + 1);
        assert(s.subrange(lo, lo + dm.len()) =~= dm) by {
            assert forall|k: int| 0 <= k < dm.len() implies s.subrange(lo, lo + dm.len())[k] == dm[k] by {
                assert(s.subrange(lo, hi)[k] == d[k]);
            }
        }
        lemma_decimal(s, lo, m);
        assert(s[hi - 1] == s.subrange(lo, hi)[d.len() - 1]);
        assert forall|k: int| lo <= k < hi implies is_digit(#[trigger] s[k]) by {
            if k < hi - 1 {
                assert(is_digit(s[k]));
            }
        }
    }
}

proof fn lemma_find_byte_skip(s: Seq<u8>, i: int, j: int, end: int, b: u8)
    requires
        0 <= i <= j <= end <= s.len(),
        forall|k: int| i <= k < j ==> s[k] != b,
    ensures
        find_byte(s, i, end, b) == find_byte(s, j, end, b),
    decreases j - i,
{
    if i < j {
        lemma_find_byte_skip(s, i + 1, j, end, b);
    }
}

proof fn lemma_digits_skip(s: Seq<u8>, i: int, j: int, end: int, b: u8)
    requires
        0 <= i <= j <= end <= s.len(),
        all_digits(s, i, j),
        !is_digit(b),
    ensures
        find_byte(s, i, end, b) == find_byte(s, j, end, b),
{
    assert forall|k: int| i <= k < j implies s[k] != b by {
        assert(is_digit(s[k]));
    }
    lemma_find_byte_skip(s, i, j, end, b);
}

proof fn lemma_first_tag(pre: Seq<u8>, s: Seq<u8>, i: int)
    requires
        0 <= i <= pre.len(),
        find_size_tag(pre, i) == -1,
        pre.len() + 3 <= s.len(),
        s.subrange(0, pre.len() as int) == pre,
        s[pre.len() as int] == TAG_S,
        s[pre.len() as int + 1] == TAG_Z,
        s[pre.len() as int + 2] == OPEN,
    ensures
        find_size_tag(s, i) == pre.len(),
    decreases pre.len() - i,
{
    let a = pre.len() as int;
    if i < a {
        if i + 3 <= a {
            assert(s[i] == pre[i] && s[i + 1] == pre[i + 1] && s[i + 2] == pre[i + 2]) by {
                assert(s.subrange(0, a)[i] == pre[i]);
                assert(s.subrange(0, a)[i + 1] == pre[i + 1]);
                assert(s.subrange(0, a)[i + 2] == pre[i + 2]);
            }
        }
        lemma_first_tag(pre, s, i + 1);
    }
}

/// A record whose first size property is `SZ[n]` describes an `n` by `n` board
/// when `n` is between 2 and 25, and the 19 by 19 board otherwise.
pub proof fn lemma_square_declaration(pre: Seq<u8>, n: nat, rest: Seq<u8>)
    requires
        find_size_tag(pre, 0) == -1,
    ensures
        declared_size(pre + size_tag() + decimal(n) + seq![CLOSE] + rest) == size_or_default(n, n),
{
    let d = decimal(n);
    let s = pre + size_tag() + d + seq![CLOSE] + rest;
    let a = pre.len() as int;
    let lo = a + 3;
    let hi = lo + d.len();
    assert(s.subrange(0, a) =~= pre);
    assert(s[a] == TAG_S && s[a + 1] == TAG_Z && s[a + 2] == OPEN);
    lemma_first_tag(pre, s, 0);
    assert(s.subrange(lo, hi) =~= d);
    lemma_decimal(s, lo, n);
    assert(s[hi] == CLOSE);
    lemma_digits_skip(s, lo, hi, s.len() as int, CLOSE);
    lemma_digits_skip(s, lo, hi, hi, COLON);
}

/// A record whose first size property is `SZ[w:h]` describes a `w` by `h` board
/// when both sides are between 2 and 25, and the 19 by 19 board otherwise.
pub proof fn lemma_rect_declaration(pre: Seq<u8>, w: nat, h: nat, rest: Seq<u8>)
    requires
        find_size_tag(pre, 0) == -1,
    ensures
        declared_size(pre + size_tag() + decimal(w) + seq![COLON] + decimal(h) + seq![CLOSE] + rest) == size_or_default(w, h),
{
    let dw = decimal(w);
    let dh = decimal(h);
    let s = pre + size_tag() + dw + seq![COLON] + dh + seq![CLOSE] + rest;
    let a = pre.len() as int;
    let lo = a + 3;
    let c = lo + dw.len();
    let hi = c + 1 + dh.len();
    assert(s.subrange(0, a) =~= pre);
    assert(s[a] == TAG_S && s[a + 1] == TAG_Z && s[a + 2] == OPEN);
    lemma_first_tag(pre, s, 0);
    assert(s.subrange(lo, c) =~= dw);
    assert(s.subrange(c + 1, hi) =~= dh);
    lemma_decimal(s, lo, w);
    lemma_decimal(s, c + 1, h);
    assert(s[c] == COLON);
    assert(s[hi] == CLOSE);
    lemma_digits_skip(s, lo, c, s.len() as int, CLOSE);
    lemma_digits_skip(s, c + 1, hi, s.len() as int, CLOSE);
    lemma_find_byte_skip(s, c, c + 1, s.len() as int, CLOSE);
    lemma_digits_skip(s, lo, c, hi, COLON);
    lemma_digits_skip(s, c + 1, hi, hi, COLON);
}

/// The scanner state just before byte `i`.
pub open spec fn state_at(s: Seq<u8>, i: int) -> ScanState
    decreases i,
{
    if i <= 0 {
        initial_scan()
    } else {
        scan_step(s, i - 1, state_at(s, i - 1)).0
    }
}

proof fn lemma_step_source(s: Seq<u8>, i: int)
    requires
        0 <= i <= s.len(),
    ensures
        forall|t: (Color, usize, usize)| #[trigger] placements_from(s, i, state_at(s, i)).contains(t) ==>
            exists|j: int| i <= j < s.len() && state_at(s, j).depth <= 1 && #[trigger] scan_step(s, j, state_at(s, j)).1 == Some(t),
    decreases s.len() - i,
{
    if i < s.len() {
        lemma_step_source(s, i + 1);
        let (next, found) = scan_step(s, i, state_at(s, i));
        assert(next == state_at(s, i + 1));
        let tail = placements_from(s, i + 1, next);
        assert forall|t: (Color, usize, usize)| #[trigger] placements_from(s, i, state_at(s, i)).contains(t) implies
            exists|j: int| i <= j < s.len() && state_at(s, j).depth <= 1 && #[trigger] scan_step(s, j, state_at(s, j)).1 == Some(t) by {
            let all = placements_from(s, i, state_at(s, i));
            let k = choose|k: int| 0 <= k < all.len() && all[k] == t;
            match found {
                Some(p) => {
                    if k == 0 {
                        assert(scan_step(s, i, state_at(s, i)).1 == Some(t));
                    } else {
                        assert(tail[k - 1] == t);
                        assert(tail.contains(t));
                    }
                },
                None => {
                    assert(tail[k] == t);
                    assert(tail.contains(t));
                },
            }
        }
    }
}

/// Moves inside a nested variation never reach the main line: a move value
/// that closes deeper than one branch level yields no move, and every move of
/// the record comes from a value that closes at depth 0 or 1.
pub proof fn lemma_nested_moves_dropped(s: Seq<u8>)
    ensures
        forall|i: int| 0 <= i < s.len() && state_at(s, i).depth > 1 ==> (#[trigger] scan_step(s, i, state_at(s, i))).1 is None,
        forall|k: int| #![trigger record_moves(s)[k]] 0 <= k < record_moves(s).len() ==> exists|i: int|
            0 <= i < s.len() && state_at(s, i).depth <= 1
                && #[trigger] scan_step(s, i, state_at(s, i)).1 == Some((record_moves(s)[k].color, record_moves(s)[k].x, record_moves(s)[k].y)),
{
    lemma_step_source(s, 0);
    let all = placements_from(s, 0, initial_scan());
    assert(state_at(s, 0) == initial_scan());
    assert forall|k: int| #![trigger record_moves(s)[k]] 0 <= k < record_moves(s).len() implies exists|i: int|
        0 <= i < s.len() && state_at(s, i).depth <= 1
            && #[trigger] scan_step(s, i, state_at(s, i)).1 == Some((record_moves(s)[k].color, record_moves(s)[k].x, record_moves(s)[k].y)) by {
        assert(all[k] == (record_moves(s)[k].color, record_moves(s)[k].x, record_moves(s)[k].y));
        assert(all.contains(all[k]));
    }
}

proof fn lemma_split_scan(s: Seq<u8>, i: int, j: int)
    requires
        0 <= i <= j <= s.len(),
    ensures
        placements_from(s, i, state_at(s, i))
            == placements_from(s.take(j), i, state_at(s, i)) + placements_from(s, j, state_at(s, j)),
    decreases j - i,
{
    let t = s.take(j);
    if i == j {
        assert(placements_from(t, i, state_at(s, i)) == Seq::<(Color, usize, usize)>::empty());
        assert(placements_from(s, i, state_at(s, i)) =~= seq![] + placements_from(s, j, state_at(s, j)));
    } else {
        lemma_split_scan(s, i + 1, j);
        let st = state_at(s, i);
        assert(t[i] == s[i]);
        assert(marker_color(t, i) == marker_color(s, i)) by {
            if i >= 1 {
                assert(t[i - 1] == s[i - 1]);
            }
            if i >= 2 {
                assert(t[i - 2] == s[i - 2]);
            }
        }
        assert(scan_step(t, i, st) == scan_step(s, i, st));
        let (next, found) = scan_step(s, i, st);
        assert(next == state_at(s, i + 1));
        let a = placements_from(t, i + 1, next);
        let b = placements_from(s, j, state_at(s, j));
        match found {
            Some(p) => {
                assert(seq![p] + (a + b) =~= (seq![p] + a) + b);
            },
            None => {},
        }
    }
}

pub(crate) proof fn lemma_placements_len(s: Seq<u8>, i: int, st: ScanState)
    requires
        0 <= i <= s.len(),
    ensures
        placements_from(s, i, st).len() <= s.len() - i,
    decreases s.len() - i,
{
    if i < s.len() {
        lemma_placements_len(s, i + 1, scan_step(s, i, st).0);
    }
}

/// Cutting the record anywhere gives a prefix of its moves: when the first `j`
/// bytes of a record hold `N` moves, asking the whole record for its first `N`
/// moves gives exactly those moves, and so the same replay.
pub proof fn lemma_limit_is_prefix(s: Seq<u8>, j: int, size: BoardSize)
    requires
        0 <= j <= s.len(),
        s.len() <= usize::MAX,
    ensures
        limited(record_moves(s), Some(record_moves(s.take(j)).len() as usize)) == record_moves(s.take(j)),
        replay_spec(size, limited(record_moves(s), Some(record_moves(s.take(j)).len() as usize)))
            == replay_spec(size, record_moves(s.take(j))),
{
    lemma_split_scan(s, 0, j);
    let a = placements_from(s.take(j), 0, initial_scan());
    let b = placements_from(s, j, state_at(s, j));
    assert(state_at(s, 0) == initial_scan());
    assert(placements_from(s, 0, initial_scan()) == a + b);
    let n = a.len();
    assert(record_moves(s.take(j)).len() == n);
    lemma_placements_len(s.take(j), 0, initial_scan());
    if n < record_moves(s).len() {
        assert(record_moves(s).take(n as int) =~= numbered(a));
    } else {
        assert(b.len() == 0);
        assert(a + b =~= a);
    }
}

/// Asking for the first `n` moves of a record with more than `n` moves gives
/// the first `n` of its moves, and replays to what those `n` moves replay to.
pub proof fn lemma_limit_takes_first(s: Seq<u8>, n: usize, size: BoardSize)
    requires
        n < record_moves(s).len(),
    ensures
        limited(record_moves(s), Some(n)).len() == n,
        forall|k: int| 0 <= k < n ==> #[trigger] limited(record_moves(s), Some(n))[k] == record_moves(s)[k],
        replay_spec(size, limited(record_moves(s), Some(n))) == replay_spec(size, record_moves(s).take(n as int)),
{
}

} // verus!
