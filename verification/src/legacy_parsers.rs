//! Trajectory data model and the legacy log-file reader.
//!
//! A trajectory is an ordered sequence of frames; each frame holds the 2D
//! positions observed at one playback step. Coordinates are fixed-point
//! micro-units: the logged decimal `1.5` becomes `1_500_000`.

use vstd::arithmetic::div_mod::lemma_fundamental_div_mod;
use vstd::arithmetic::mul::lemma_mul_inequality;
use vstd::prelude::*;

verus! {

/// One micro-unit coordinate step: coordinates carry six decimal places.
pub const COORD_SCALE: i64 = 1_000_000;

/// A 2D position in micro-units.
#[derive(Clone, Copy, Debug, PartialEq, Eq, Structural)]
pub struct Position {
    pub x: i64,
    pub y: i64,
}

/// One discrete sampled time-step: the positions observed at that step,
/// in the order their rows appeared in the log.
#[derive(Debug)]
pub struct Frame {
    pub positions: Vec<Position>,
}

impl View for Frame {
    type V = Seq<Position>;

    open spec fn view(&self) -> Seq<Position> {
        self.positions@
    }
}

impl Frame {
    /// An empty frame.
    pub fn new() -> (f: Self)
        ensures
            f@ == Seq::<Position>::empty(),
    {
        Frame { positions: Vec::new() }
    }
}

/// The parsed log: an ordered sequence of frames, indexed by playback
/// frame index.
#[derive(Debug)]
pub struct Trajectory {
    pub frames: Vec<Frame>,
}

impl View for Trajectory {
    type V = Seq<Seq<Position>>;

    open spec fn view(&self) -> Seq<Seq<Position>> {
        self.frames@.map_values(|f: Frame| f@)
    }
}

/// `(i, j)` addresses a position: frame `i`, position `j` within it.
pub open spec fn in_bounds(frames: Seq<Seq<Position>>, i: int, j: int) -> bool {
    0 <= i < frames.len() && 0 <= j < frames[i].len()
}

/// The trajectory holds at least one position.
pub open spec fn has_position(frames: Seq<Seq<Position>>) -> bool {
    exists|i: int, j: int| in_bounds(frames, i, j)
}

/// `(i, j)` lies strictly before the scan point `(fi, pj)` in the
/// forward scan order over all positions.
pub open spec fn before(frames: Seq<Seq<Position>>, fi: int, pj: int, i: int, j: int) -> bool {
    in_bounds(frames, i, j) && (i < fi || (i == fi && j < pj))
}

impl Trajectory {
    /// The bounding box `(x_min, x_max, y_min, y_max)` of every position
    /// in every frame. With no positions present the scan's initial
    /// sentinels come back unchanged: `(i64::MAX, i64::MIN, i64::MAX,
    /// i64::MIN)`; callers must treat that as "no data".
    pub fn area(&self) -> (r: (i64, i64, i64, i64))
        ensures
            forall|i: int, j: int|
                #[trigger] in_bounds(self@, i, j) ==> r.0 <= self@[i][j].x <= r.1
                    && r.2 <= self@[i][j].y <= r.3,
            !has_position(self@) ==> r == (i64::MAX, i64::MIN, i64::MAX, i64::MIN),
            has_position(self@) ==> (exists|i: int, j: int|
                #[trigger] in_bounds(self@, i, j) && self@[i][j].x == r.0),
            has_position(self@) ==> (exists|i: int, j: int|
                #[trigger] in_bounds(self@, i, j) && self@[i][j].x == r.1),
            has_position(self@) ==> (exists|i: int, j: int|
                #[trigger] in_bounds(self@, i, j) && self@[i][j].y == r.2),
            has_position(self@) ==> (exists|i: int, j: int|
                #[trigger] in_bounds(self@, i, j) && self@[i][j].y == r.3),
    {
        let ghost s = self@;
        let mut x_min: i64 = i64::MAX;
        let mut x_max: i64 = i64::MIN;
        let mut y_min: i64 = i64::MAX;
        let mut y_max: i64 = i64::MIN;
        let mut fi: usize = 0;
        while fi < self.frames.len()
            invariant
                s == self@,
                fi <= self.frames.len(),
                forall|i: int, j: int|
                    #[trigger] before(s, fi as int, 0, i, j) ==> x_min <= s[i][j].x <= x_max
                        && y_min <= s[i][j].y <= y_max,
                !(exists|i: int, j: int| #[trigger] before(s, fi as int, 0, i, j)) ==> (x_min
                    == i64::MAX && x_max == i64::MIN && y_min == i64::MAX && y_max == i64::MIN),
                (exists|i: int, j: int| #[trigger] before(s, fi as int, 0, i, j)) ==> ((exists|
                    i: int,
                    j: int,
                |
                    #[trigger] before(s, fi as int, 0, i, j) && s[i][j].x == x_min) && (exists|
                    i: int,
                    j: int,
                |
                    #[trigger] before(s, fi as int, 0, i, j) && s[i][j].x == x_max) && (exists|
                    i: int,
                    j: int,
                |
                    #[trigger] before(s, fi as int, 0, i, j) && s[i][j].y == y_min) && (exists|
                    i: int,
                    j: int,
                |
                    #[trigger] before(s, fi as int, 0, i, j) && s[i][j].y == y_max)),
            decreases self.frames.len() - fi,
        {
            let frame = &self.frames[fi];
            let mut pj: usize = 0;
            while pj < frame.positions.len()
                invariant
                    s == self@,
                    fi < self.frames.len(),
                    frame == &self.frames[fi as int],
                    pj <= frame.positions.len(),
                    forall|i: int, j: int|
                        #[trigger] before(s, fi as int, pj as int, i, j) ==> x_min <= s[i][j].x
                            <= x_max && y_min <= s[i][j].y <= y_max,
                    !(exists|i: int, j: int| #[trigger] before(s, fi as int, pj as int, i, j))
                        ==> (x_min == i64::MAX && x_max == i64::MIN && y_min == i64::MAX && y_max
                        == i64::MIN),
                    (exists|i: int, j: int| #[trigger] before(s, fi as int, pj as int, i, j))
                        ==> ((exists|i: int, j: int|
                        #[trigger] before(s, fi as int, pj as int, i, j) && s[i][j].x == x_min) && (
                    exists|i: int, j: int|
                        #[trigger] before(s, fi as int, pj as int, i, j) && s[i][j].x == x_max) && (
                    exists|i: int, j: int|
                        #[trigger] before(s, fi as int, pj as int, i, j) && s[i][j].y == y_min) && (
                    exists|i: int, j: int|
                        #[trigger] before(s, fi as int, pj as int, i, j) && s[i][j].y == y_max)),
                decreases frame.positions.len() - pj,
            {
                let p = frame.positions[pj];
                let ghost old_x_min = x_min;
                let ghost old_x_max = x_max;
                let ghost old_y_min = y_min;
                let ghost old_y_max = y_max;
                proof {
                    assert(s[fi as int] == self.frames[fi as int]@);
                    assert(in_bounds(s, fi as int, pj as int));
                    assert(s[fi as int][pj as int] == p);
                }
                if p.x < x_min {
                    x_min = p.x;
                }
                if p.x > x_max {
                    x_max = p.x;
                }
                if p.y < y_min {
                    y_min = p.y;
                }
                if p.y > y_max {
                    y_max = p.y;
                }
                pj = pj + 1;
                proof {
                    assert forall|i: int, j: int|
                        #[trigger] before(s, fi as int, pj as int, i, j) implies x_min <= s[i][j].x
                        <= x_max && y_min <= s[i][j].y <= y_max by {
                        if !(i == fi as int && j == pj - 1) {
                            assert(before(s, fi as int, pj - 1, i, j));
                        }
                    }
                    let here = (fi as int, pj - 1);
                    assert(before(s, fi as int, pj as int, here.0, here.1));
                    assert(s[here.0][here.1] == p);
                    // Each extreme is attained: either at the position just
                    // scanned, or at the witness the previous region held.
                    if x_min != p.x {
                        let (i, j) = choose|i: int, j: int|
                            #[trigger] before(s, fi as int, pj - 1, i, j) && s[i][j].x == old_x_min;
                        assert(before(s, fi as int, pj as int, i, j) && s[i][j].x == x_min);
                    }
                    if x_max != p.x {
                        let (i, j) = choose|i: int, j: int|
                            #[trigger] before(s, fi as int, pj - 1, i, j) && s[i][j].x == old_x_max;
                        assert(before(s, fi as int, pj as int, i, j) && s[i][j].x == x_max);
                    }
                    if y_min != p.y {
                        let (i, j) = choose|i: int, j: int|
                            #[trigger] before(s, fi as int, pj - 1, i, j) && s[i][j].y == old_y_min;
                        assert(before(s, fi as int, pj as int, i, j) && s[i][j].y == y_min);
                    }
                    if y_max != p.y {
                        let (i, j) = choose|i: int, j: int|
                            #[trigger] before(s, fi as int, pj - 1, i, j) && s[i][j].y == old_y_max;
                        assert(before(s, fi as int, pj as int, i, j) && s[i][j].y == y_max);
                    }
                }
            }
            fi = fi + 1;
            proof {
                assert forall|i: int, j: int|
                    #[trigger] before(s, fi as int, 0, i, j) implies before(
                    s,
                    fi - 1,
                    frame.positions.len() as int,
                    i,
                    j,
                ) by {
                    assert(s[fi - 1] == self.frames[fi - 1]@);
                }
                assert forall|i: int, j: int|
                    #[trigger] before(s, fi - 1, frame.positions.len() as int, i, j) implies before(
                    s,
                    fi as int,
                    0,
                    i,
                    j,
                ) by {}
            }
        }
        proof {
            assert forall|i: int, j: int| #[trigger] in_bounds(s, i, j) implies before(
                s,
                self.frames.len() as int,
                0,
                i,
                j,
            ) by {}
            if has_position(s) {
                let (i, j) = choose|i: int, j: int| in_bounds(s, i, j);
                assert(before(s, self.frames.len() as int, 0, i, j));
            }
        }
        (x_min, x_max, y_min, y_max)
    }
}

/// A matched log row, transient between matching and frame building.
#[derive(Clone, Copy, Debug)]
pub struct Entry {
    pub frame_id: i32,
    pub position: Position,
}

/// An ASCII decimal digit.
pub open spec fn is_digit(b: u8) -> bool {
    48 <= b <= 57
}

/// The index just past the digit run starting at `i`.
pub open spec fn digits_end(s: Seq<u8>, i: int) -> int
    decreases s.len() - i
        when 0 <= i <= s.len()
{
    if i < s.len() && is_digit(s[i]) {
        digits_end(s, i + 1)
    } else {
        i
    }
}

/// The index just past a number starting at `i`: a digit run, optionally
/// followed by a point and a further digit run.
pub open spec fn number_end(s: Seq<u8>, i: int) -> int {
    let e = digits_end(s, i);
    if e > i && e < s.len() && s[e] == 46u8 && e + 1 < s.len() && is_digit(s[e + 1]) {
        digits_end(s, e + 1)
    } else {
        e
    }
}

/// The value of the digit run `s[i..j)` read in base ten.
pub open spec fn digits_val(s: Seq<u8>, i: int, j: int) -> int
    decreases j - i
        when i <= j
{
    if i < j {
        digits_val(s, i, j - 1) * 10 + (s[j - 1] - 48)
    } else {
        0
    }
}

/// The `t`-th of the six decimal places kept of the fraction digits
/// `s[i..j)`: the digit where the run reaches, zero where it ends short.
pub open spec fn frac_digit(s: Seq<u8>, i: int, j: int, t: int) -> int {
    if i + t < j {
        s[i + t] - 48
    } else {
        0
    }
}

/// The fraction digits `s[i..j)` as micro-units: six decimal places,
/// padded with zeroes on the right; digits past the sixth are cut off.
pub open spec fn frac_micro(s: Seq<u8>, i: int, j: int) -> int {
    ((((frac_digit(s, i, j, 0) * 10 + frac_digit(s, i, j, 1)) * 10 + frac_digit(s, i, j, 2)) * 10
        + frac_digit(s, i, j, 3)) * 10 + frac_digit(s, i, j, 4)) * 10 + frac_digit(s, i, j, 5)
}

/// The decimal number `s[i..j)` (with `j == number_end(s, i)`) as
/// micro-units.
pub open spec fn decimal_micro(s: Seq<u8>, i: int, j: int) -> int {
    let e = digits_end(s, i);
    if e < j {
        digits_val(s, i, e) * COORD_SCALE + frac_micro(s, e + 1, j)
    } else {
        digits_val(s, i, j) * COORD_SCALE
    }
}

/// The row a line yields, if it matches the legacy shape: four
/// tab-separated fields at the start of the line — an ignored integer, an
/// integer frame id, and two decimal coordinates — with arbitrary trailing
/// content. Rows whose frame id does not fit an `i32`, or whose
/// coordinates do not fit `i64` micro-units, are dropped like any other
/// non-matching line.
pub open spec fn parsed_row(line: Seq<u8>) -> Option<Entry> {
    let a = digits_end(line, 0);
    let b = digits_end(line, a + 1);
    let c = number_end(line, b + 1);
    let d = number_end(line, c + 1);
    if a > 0 && a < line.len() && line[a] == 9u8 && b > a + 1 && b < line.len() && line[b] == 9u8
        && c > b + 1 && c < line.len() && line[c] == 9u8 && d > c + 1 && digits_val(line, a + 1, b)
        <= i32::MAX && decimal_micro(line, b + 1, c) <= i64::MAX && decimal_micro(line, c + 1, d)
        <= i64::MAX {
        Some(
            Entry {
                frame_id: digits_val(line, a + 1, b) as i32,
                position: Position {
                    x: decimal_micro(line, b + 1, c) as i64,
                    y: decimal_micro(line, c + 1, d) as i64,
                },
            },
        )
    } else {
        None
    }
}

proof fn lemma_digits_end_in_range(s: Seq<u8>, i: int)
    requires
        0 <= i <= s.len(),
    ensures
        i <= digits_end(s, i) <= s.len(),
        forall|k: int| i <= k < digits_end(s, i) ==> is_digit(#[trigger] s[k]),
    decreases s.len() - i,
{
    if i < s.len() && is_digit(s[i]) {
        lemma_digits_end_in_range(s, i + 1);
    }
}

proof fn lemma_digits_val_bounds(s: Seq<u8>, i: int, j: int)
    requires
        i <= j,
        forall|k: int| i <= k < j ==> is_digit(#[trigger] s[k]),
    ensures
        0 <= digits_val(s, i, j),
        forall|k: int| i <= k <= j ==> #[trigger] digits_val(s, i, k) <= digits_val(s, i, j),
    decreases j - i,
{
    if i < j {
        lemma_digits_val_bounds(s, i, j - 1);
        assert(digits_val(s, i, j) == digits_val(s, i, j - 1) * 10 + (s[j - 1] - 48));
    }
}

/// True when `b` is an ASCII decimal digit.
fn digit(b: u8) -> (r: bool)
    ensures
        r == is_digit(b),
{
    48 <= b && b <= 57
}

/// The index just past the digit run starting at `start`.
fn scan_digits(line: &Vec<u8>, start: usize) -> (end: usize)
    requires
        start <= line@.len(),
    ensures
        end == digits_end(line@, start as int),
        start <= end <= line@.len(),
{
    let mut i: usize = start;
    while i < line.len() && digit(line[i])
        invariant
            start <= i <= line@.len(),
            digits_end(line@, start as int) == digits_end(line@, i as int),
        decreases line@.len() - i,
    {
        i = i + 1;
    }
    i
}

/// The index just past the decimal number starting at `start`.
fn scan_number(line: &Vec<u8>, start: usize) -> (end: usize)
    requires
        start <= line@.len(),
    ensures
        end == number_end(line@, start as int),
        start <= end <= line@.len(),
{
    let e = scan_digits(line, start);
    if e > start && e < line.len() && line[e] == 46u8 && e + 1 < line.len() && digit(line[e + 1]) {
        scan_digits(line, e + 1)
    } else {
        e
    }
}

/// The value of the digit run `line[start..end)`, unless it exceeds
/// `limit`.
fn digits_value(line: &Vec<u8>, start: usize, end: usize, limit: u64) -> (r: Option<u64>)
    requires
        start <= end <= line@.len(),
        forall|k: int| start <= k < end ==> is_digit(#[trigger] line@[k]),
    ensures
        match r {
            Some(v) => v <= limit && v as int == digits_val(line@, start as int, end as int),
            None => digits_val(line@, start as int, end as int) > limit,
        },
{
    proof {
        lemma_digits_val_bounds(line@, start as int, end as int);
    }
    let mut acc: u64 = 0;
    let mut i: usize = start;
    while i < end
        invariant
            start <= i <= end <= line@.len(),
            forall|k: int| start <= k < end ==> is_digit(#[trigger] line@[k]),
            acc <= limit,
            acc as int == digits_val(line@, start as int, i as int),
        decreases end - i,
    {
        let d = line[i] - 48;
        let next: u128 = acc as u128 * 10 + d as u128;
        proof {
            assert(next == digits_val(line@, start as int, i + 1));
            lemma_digits_val_bounds(line@, start as int, end as int);
        }
        if next > limit as u128 {
            return None;
        }
        acc = next as u64;
        i = i + 1;
    }
    Some(acc)
}

/// The `t`-th kept decimal place of the fraction digits
/// `line[start..end)`.
fn frac_digit_value(line: &Vec<u8>, start: usize, end: usize, t: usize) -> (r: u64)
    requires
        start < end <= line@.len(),
        forall|k: int| start <= k < end ==> is_digit(#[trigger] line@[k]),
    ensures
        r as int == frac_digit(line@, start as int, end as int, t as int),
        r <= 9,
{
    if end - start > t {
        (line[start + t] - 48) as u64
    } else {
        0
    }
}

/// The fraction digits `line[start..end)` as micro-units.
fn frac_micro_value(line: &Vec<u8>, start: usize, end: usize) -> (r: u64)
    requires
        start < end <= line@.len(),
        forall|k: int| start <= k < end ==> is_digit(#[trigger] line@[k]),
    ensures
        r as int == frac_micro(line@, start as int, end as int),
        r < 1_000_000,
{
    let d0 = frac_digit_value(line, start, end, 0);
    let d1 = frac_digit_value(line, start, end, 1);
    let d2 = frac_digit_value(line, start, end, 2);
    let d3 = frac_digit_value(line, start, end, 3);
    let d4 = frac_digit_value(line, start, end, 4);
    let d5 = frac_digit_value(line, start, end, 5);
    ((((d0 * 10 + d1) * 10 + d2) * 10 + d3) * 10 + d4) * 10 + d5
}

/// The decimal number `line[start..end)` as micro-unit coordinate, unless
/// it exceeds `i64::MAX` micro-units.
fn decimal_value(line: &Vec<u8>, start: usize, end: usize) -> (r: Option<i64>)
    requires
        start < end <= line@.len(),
        end == number_end(line@, start as int),
    ensures
        match r {
            Some(v) => v as int == decimal_micro(line@, start as int, end as int),
            None => decimal_micro(line@, start as int, end as int) > i64::MAX,
        },
{
    let e = scan_digits(line, start);
    proof {
        lemma_digits_end_in_range(line@, start as int);
        if e < line@.len() {
            lemma_digits_end_in_range(line@, e + 1);
        }
    }
    let frac: u64 = if e < end {
        proof {
            assert(end == digits_end(line@, e + 1));
            assert(is_digit(line@[e + 1]));
            assert(digits_end(line@, e + 1) == digits_end(line@, e + 2));
            lemma_digits_end_in_range(line@, e + 2);
            lemma_digits_end_in_range(line@, e + 1);
        }
        frac_micro_value(line, e + 1, end)
    } else {
        0
    };
    proof {
        assert(e <= end);
        if e < end {
            assert(frac == frac_micro(line@, e + 1, end as int));
            assert(decimal_micro(line@, start as int, end as int) == digits_val(
                line@,
                start as int,
                e as int,
            ) * 1_000_000 + frac);
        } else {
            assert(decimal_micro(line@, start as int, end as int) == digits_val(
                line@,
                start as int,
                e as int,
            ) * 1_000_000);
        }
    }
    let limit: u64 = (i64::MAX as u64 - frac) / 1_000_000;
    let ghost ip = digits_val(line@, start as int, e as int);
    let ghost m: int = i64::MAX - frac;
    proof {
        lemma_fundamental_div_mod(m, 1_000_000);
        assert(limit as int == m / 1_000_000);
    }
    match digits_value(line, start, e, limit) {
        Some(v) => {
            proof {
                lemma_mul_inequality(v as int, limit as int, 1_000_000);
                assert(limit as int * 1_000_000 <= m);
                assert(v as int * 1_000_000 + frac <= i64::MAX);
            }
            Some((v * 1_000_000 + frac) as i64)
        },
        None => {
            proof {
                assert(ip > limit as int);
                lemma_mul_inequality(limit as int + 1, ip, 1_000_000);
                assert((limit as int + 1) * 1_000_000 > m);
                assert(ip * 1_000_000 + frac > i64::MAX);
            }
            None
        },
    }
}

/// The row the line yields under the legacy pattern, or nothing for a
/// line that does not match.
pub fn parse_row(line: &Vec<u8>) -> (r: Option<Entry>)
    ensures
        r == parsed_row(line@),
{
    let a = scan_digits(line, 0);
    if a == 0 || a >= line.len() || line[a] != 9 {
        return None;
    }
    let b = scan_digits(line, a + 1);
    if b <= a + 1 || b >= line.len() || line[b] != 9 {
        return None;
    }
    let c = scan_number(line, b + 1);
    if c <= b + 1 || c >= line.len() || line[c] != 9 {
        return None;
    }
    let d = scan_number(line, c + 1);
    if d <= c + 1 {
        return None;
    }
    proof {
        lemma_digits_end_in_range(line@, a + 1);
    }
    let id = match digits_value(line, a + 1, b, i32::MAX as u64) {
        Some(v) => v,
        None => {
            return None;
        },
    };
    let x = match decimal_value(line, b + 1, c) {
        Some(v) => v,
        None => {
            return None;
        },
    };
    let y = match decimal_value(line, c + 1, d) {
        Some(v) => v,
        None => {
            return None;
        },
    };
    Some(Entry { frame_id: id as i32, position: Position { x, y } })
}

/// Where `insert_row` places `e` in the sorted run `s`: after every row
/// whose frame id is at most `e`'s, keeping arrival order among equal
/// ids.
pub open spec fn insert_row(s: Seq<Entry>, e: Entry) -> Seq<Entry>
    decreases s.len(),
{
    if s.len() == 0 || s.last().frame_id <= e.frame_id {
        s.push(e)
    } else {
        insert_row(s.drop_last(), e).push(s.last())
    }
}

/// The rows sorted by frame id, ascending and stable: rows sharing a
/// frame id keep their original relative order.
pub open spec fn sort_rows(s: Seq<Entry>) -> Seq<Entry>
    decreases s.len(),
{
    if s.len() == 0 {
        s
    } else {
        insert_row(sort_rows(s.drop_last()), s.last())
    }
}

proof fn lemma_insert_row_at(s: Seq<Entry>, e: Entry, j: int)
    requires
        0 <= j <= s.len(),
        forall|m: int| j <= m < s.len() ==> s[m].frame_id > e.frame_id,
        j > 0 ==> s[j - 1].frame_id <= e.frame_id,
    ensures
        insert_row(s, e) == s.subrange(0, j).push(e) + s.subrange(j, s.len() as int),
    decreases s.len(),
{
    if j == s.len() {
        assert(insert_row(s, e) == s.push(e));
        assert(s.subrange(0, j) =~= s);
        assert(s.subrange(0, j).push(e) + s.subrange(j, s.len() as int) =~= s.push(e));
    } else {
        let dl = s.drop_last();
        assert(s[s.len() - 1].frame_id > e.frame_id);
        lemma_insert_row_at(dl, e, j);
        assert(dl.subrange(0, j) =~= s.subrange(0, j));
        assert(dl.subrange(j, dl.len() as int) =~= s.subrange(j, s.len() - 1));
        assert(insert_row(s, e) == insert_row(dl, e).push(s.last()));
        assert((s.subrange(0, j).push(e) + s.subrange(j, s.len() - 1)).push(s.last()) =~= s
            .subrange(0, j).push(e) + s.subrange(j, s.len() as int));
    }
}

/// The matched rows sorted by frame id ascending, stable across equal
/// ids.
fn sort_entries(entries: &Vec<Entry>) -> (r: Vec<Entry>)
    ensures
        r@ == sort_rows(entries@),
{
    let mut sorted: Vec<Entry> = Vec::new();
    let mut idx: usize = 0;
    while idx < entries.len()
        invariant
            idx <= entries@.len(),
            sorted@ == sort_rows(entries@.subrange(0, idx as int)),
        decreases entries@.len() - idx,
    {
        let e = entries[idx];
        let ghost prev = sorted@;
        let mut j: usize = sorted.len();
        while j > 0 && sorted[j - 1].frame_id > e.frame_id
            invariant
                j <= sorted@.len(),
                sorted@ == prev,
                forall|m: int| j <= m < prev.len() ==> prev[m].frame_id > e.frame_id,
            decreases j,
        {
            j = j - 1;
        }
        sorted.insert(j, e);
        proof {
            lemma_insert_row_at(prev, e, j as int);
            assert(sorted@ == insert_row(prev, e));
            assert(entries@.subrange(0, idx + 1).drop_last() =~= entries@.subrange(0, idx as int));
            assert(entries@.subrange(0, idx + 1).last() == e);
        }
        idx = idx + 1;
    }
    proof {
        assert(entries@.subrange(0, entries@.len() as int) =~= entries@);
    }
    sorted
}

/// The playback-frame fold over sorted rows: the counter it ends on, and
/// the frames it builds. One empty frame stands before the scan; a row
/// whose frame id is strictly above the counter raises the counter by
/// exactly one and opens a new frame; every row's position lands in the
/// newest frame.
pub open spec fn frames_built(rows: Seq<Entry>) -> (int, Seq<Seq<Position>>)
    decreases rows.len(),
{
    if rows.len() == 0 {
        (-1, seq![Seq::<Position>::empty()])
    } else {
        let prev = frames_built(rows.drop_last());
        let e = rows.last();
        if prev.0 < e.frame_id {
            (prev.0 + 1, prev.1.push(seq![e.position]))
        } else {
            (prev.0, prev.1.update(prev.1.len() - 1, prev.1.last().push(e.position)))
        }
    }
}

/// The frame sequence the sorted rows build.
pub open spec fn frames_of(rows: Seq<Entry>) -> Seq<Seq<Position>> {
    frames_built(rows).1
}

/// The frame view of `done` with `cur` as the newest frame.
spec fn staged_frames(done: Seq<Frame>, cur: Seq<Position>) -> Seq<Seq<Position>> {
    done.map_values(|f: Frame| f@).push(cur)
}

/// Builds the trajectory from rows already sorted by frame id.
fn build_trajectory(sorted: &Vec<Entry>) -> (t: Trajectory)
    ensures
        t@ == frames_of(sorted@),
{
    let mut done: Vec<Frame> = Vec::new();
    let mut cur = Frame::new();
    let mut last: i64 = -1;
    let mut idx: usize = 0;
    while idx < sorted.len()
        invariant
            idx <= sorted@.len(),
            last as int == frames_built(sorted@.subrange(0, idx as int)).0,
            staged_frames(done@, cur@) == frames_built(sorted@.subrange(0, idx as int)).1,
            -1 <= last <= i32::MAX,
        decreases sorted@.len() - idx,
    {
        let e = sorted[idx];
        let ghost snap = staged_frames(done@, cur@);
        proof {
            assert(sorted@.subrange(0, idx + 1).drop_last() =~= sorted@.subrange(0, idx as int));
            assert(sorted@.subrange(0, idx + 1).last() == e);
        }
        if last < e.frame_id as i64 {
            last = last + 1;
            done.push(cur);
            cur = Frame::new();
            cur.positions.push(e.position);
            proof {
                assert(staged_frames(done@, cur@) =~= snap.push(seq![e.position]));
            }
        } else {
            cur.positions.push(e.position);
            proof {
                assert(staged_frames(done@, cur@) =~= snap.update(
                    snap.len() - 1,
                    snap.last().push(e.position),
                ));
            }
        }
        idx = idx + 1;
    }
    proof {
        assert(sorted@.subrange(0, sorted@.len() as int) =~= sorted@);
    }
    let mut frames = done;
    frames.push(cur);
    let t = Trajectory { frames };
    proof {
        assert(t@ =~= staged_frames(t.frames@.drop_last(), t.frames@.last()@));
        assert(t.frames@.drop_last() =~= t.frames@.subrange(0, t.frames@.len() - 1));
    }
    t
}

/// The lines as byte sequences.
pub open spec fn byte_lines(lines: Seq<Vec<u8>>) -> Seq<Seq<u8>> {
    lines.map_values(|l: Vec<u8>| l@)
}

/// Reads a legacy trajectory log given as its lines, in file order and
/// without terminators. Lines that do not match the four-field pattern
/// are dropped with no diagnostic; matched rows are stable-sorted by
/// frame id and folded into playback frames.
pub fn prase_trajectory_txt(lines: &Vec<Vec<u8>>) -> (t: Trajectory)
    ensures
        t@ == frames_of(sort_rows(rows_of(byte_lines(lines@)))),
{
    let mut entries: Vec<Entry> = Vec::new();
    let mut idx: usize = 0;
    while idx < lines.len()
        invariant
            idx <= lines@.len(),
            entries@ == rows_of(byte_lines(lines@).subrange(0, idx as int)),
        decreases lines@.len() - idx,
    {
        proof {
            assert(byte_lines(lines@).subrange(0, idx + 1).drop_last() =~= byte_lines(
                lines@,
            ).subrange(0, idx as int));
            assert(byte_lines(lines@).subrange(0, idx + 1).last() == lines@[idx as int]@);
        }
        match parse_row(&lines[idx]) {
            Some(e) => entries.push(e),
            None => (),
        }
        idx = idx + 1;
    }
    proof {
        assert(byte_lines(lines@).subrange(0, lines@.len() as int) =~= byte_lines(lines@));
    }
    let sorted = sort_entries(&entries);
    build_trajectory(&sorted)
}

/// The rows the lines yield, in file order, dropped lines left out.
pub open spec fn rows_of(lines: Seq<Seq<u8>>) -> Seq<Entry>
    decreases lines.len(),
{
    if lines.len() == 0 {
        Seq::empty()
    } else {
        let rest = rows_of(lines.drop_last());
        match parsed_row(lines.last()) {
            Some(e) => rest.push(e),
            None => rest,
        }
    }
}

/// The rows stand in non-decreasing frame-id order.
pub open spec fn sorted_by_id(s: Seq<Entry>) -> bool {
    forall|m: int| 0 < m < s.len() ==> s[m - 1].frame_id <= #[trigger] s[m].frame_id
}

proof fn lemma_insert_row_sorted(s: Seq<Entry>, e: Entry)
    requires
        sorted_by_id(s),
    ensures
        sorted_by_id(insert_row(s, e)),
        insert_row(s, e).len() == s.len() + 1,
        insert_row(s, e).last() == e || (s.len() > 0 && insert_row(s, e).last() == s.last()),
    decreases s.len(),
{
    if s.len() == 0 || s.last().frame_id <= e.frame_id {
        let t = s.push(e);
        assert forall|m: int| 0 < m < t.len() implies t[m - 1].frame_id <= #[trigger] t[m].frame_id by {
            if m < s.len() {
                assert(s[m - 1].frame_id <= s[m].frame_id);
            }
        }
    } else {
        let dl = s.drop_last();
        assert(sorted_by_id(dl));
        lemma_insert_row_sorted(dl, e);
        let t = insert_row(dl, e);
        assert(t.last().frame_id <= s.last().frame_id);
        let u = t.push(s.last());
        assert forall|m: int| 0 < m < u.len() implies u[m - 1].frame_id <= #[trigger] u[m].frame_id by {
            if m < t.len() {
                assert(t[m - 1].frame_id <= t[m].frame_id);
            }
        }
    }
}

/// Law: sorting leaves the rows in non-decreasing frame-id order.
pub proof fn lemma_sort_rows_sorted(rows: Seq<Entry>)
    ensures
        sorted_by_id(sort_rows(rows)),
    decreases rows.len(),
{
    if rows.len() > 0 {
        lemma_sort_rows_sorted(rows.drop_last());
        lemma_insert_row_sorted(sort_rows(rows.drop_last()), rows.last());
    }
}

/// Law: the built frames always number two more than the counter the
/// fold ends on — the initial empty frame, plus one frame per counter
/// step from its start at minus one.
pub proof fn lemma_frames_len(rows: Seq<Entry>)
    ensures
        frames_of(rows).len() == frames_built(rows).0 + 2,
        frames_built(rows).0 >= -1,
    decreases rows.len(),
{
    if rows.len() > 0 {
        lemma_frames_len(rows.drop_last());
        let prev = frames_built(rows.drop_last());
        let e = rows.last();
        if prev.0 < e.frame_id {
            assert(frames_built(rows).1 == prev.1.push(seq![e.position]));
        } else {
            assert(prev.1.len() >= 1);
            assert(frames_built(rows).1 == prev.1.update(
                prev.1.len() - 1,
                prev.1.last().push(e.position),
            ));
        }
    }
}

proof fn lemma_fold_counter_contiguous(s: Seq<Entry>)
    requires
        s.len() > 0,
        s[0].frame_id == 0,
        sorted_by_id(s),
        forall|m: int| 0 < m < s.len() ==> #[trigger] s[m].frame_id <= s[m - 1].frame_id + 1,
    ensures
        frames_built(s).0 == s.last().frame_id as int,
    decreases s.len(),
{
    if s.len() == 1 {
        assert(s.drop_last().len() == 0);
        assert(frames_built(s.drop_last()).0 == -1);
    } else {
        let dl = s.drop_last();
        assert(sorted_by_id(dl));
        assert forall|m: int| 0 < m < dl.len() implies #[trigger] dl[m].frame_id <= dl[m
            - 1].frame_id + 1 by {
            assert(dl[m] == s[m]);
            assert(dl[m - 1] == s[m - 1]);
            assert(s[m].frame_id <= s[m - 1].frame_id + 1);
        }
        lemma_fold_counter_contiguous(dl);
        assert(dl.last() == s[s.len() - 2]);
        assert(s[s.len() - 2].frame_id <= s.last().frame_id);
        assert(s.last().frame_id <= s[s.len() - 2].frame_id + 1);
    }
}

/// Law: a log whose matched rows carry one contiguous run of frame ids,
/// sorted, rising from zero by steps of at most one, builds one playback
/// frame per distinct id — after the initial empty frame, so the frame
/// count is the highest id plus two.
pub proof fn lemma_contiguous_frame_count(lines: Seq<Seq<u8>>)
    requires
        sort_rows(rows_of(lines)).len() > 0,
        sort_rows(rows_of(lines))[0].frame_id == 0,
        forall|m: int| 0 < m < sort_rows(rows_of(lines)).len()
            ==> #[trigger] sort_rows(rows_of(lines))[m].frame_id <= sort_rows(rows_of(lines))[m - 1].frame_id + 1,
    ensures
        frames_of(sort_rows(rows_of(lines))).len() == sort_rows(rows_of(lines)).last().frame_id
            + 2,
{
    let s = sort_rows(rows_of(lines));
    lemma_sort_rows_sorted(rows_of(lines));
    lemma_fold_counter_contiguous(s);
    lemma_frames_len(s);
}

/// How many positions the frames hold in all.
pub open spec fn position_count(frames: Seq<Seq<Position>>) -> int
    decreases frames.len(),
{
    if frames.len() == 0 {
        0
    } else {
        position_count(frames.drop_last()) + frames.last().len()
    }
}

proof fn lemma_insert_row_len(s: Seq<Entry>, e: Entry)
    ensures
        insert_row(s, e).len() == s.len() + 1,
    decreases s.len(),
{
    if !(s.len() == 0 || s.last().frame_id <= e.frame_id) {
        lemma_insert_row_len(s.drop_last(), e);
    }
}

proof fn lemma_sort_rows_len(rows: Seq<Entry>)
    ensures
        sort_rows(rows).len() == rows.len(),
    decreases rows.len(),
{
    if rows.len() > 0 {
        lemma_sort_rows_len(rows.drop_last());
        lemma_insert_row_len(sort_rows(rows.drop_last()), rows.last());
    }
}

proof fn lemma_positions_conserved(rows: Seq<Entry>)
    ensures
        position_count(frames_of(rows)) == rows.len(),
    decreases rows.len(),
{
    if rows.len() > 0 {
        lemma_positions_conserved(rows.drop_last());
        lemma_frames_len(rows.drop_last());
        let prev = frames_built(rows.drop_last());
        let e = rows.last();
        if prev.0 < e.frame_id {
            let fr = prev.1.push(seq![e.position]);
            assert(frames_of(rows) == fr);
            assert(fr.drop_last() =~= prev.1);
            assert(position_count(fr) == position_count(fr.drop_last()) + fr.last().len());
        } else {
            let upd = prev.1.update(prev.1.len() - 1, prev.1.last().push(e.position));
            assert(frames_of(rows) == upd);
            assert(upd.drop_last() =~= prev.1.drop_last());
            assert(upd.last() == prev.1.last().push(e.position));
            assert(position_count(upd) == position_count(upd.drop_last()) + upd.last().len());
            assert(position_count(prev.1) == position_count(prev.1.drop_last())
                + prev.1.last().len());
        }
    } else {
        let fr = frames_of(rows);
        assert(fr == seq![Seq::<Position>::empty()]);
        assert(fr.drop_last() =~= Seq::<Seq<Position>>::empty());
        assert(position_count(fr.drop_last()) == 0);
        assert(position_count(fr) == position_count(fr.drop_last()) + fr.last().len());
    }
}

/// Law: parsing loses no matched row — the built frames hold exactly
/// one position per row that matched the pattern, however the rows were
/// ordered or grouped.
pub proof fn lemma_parse_conserves_rows(lines: Seq<Seq<u8>>)
    ensures
        position_count(frames_of(sort_rows(rows_of(lines)))) == rows_of(lines).len(),
{
    lemma_sort_rows_len(rows_of(lines));
    lemma_positions_conserved(sort_rows(rows_of(lines)));
}

/// Law: a log none of whose lines matches the pattern yields exactly one
/// frame, and that frame holds no positions.
pub proof fn lemma_unmatched_lines_one_empty_frame(lines: Seq<Seq<u8>>)
    requires
        forall|k: int| 0 <= k < lines.len() ==> parsed_row(#[trigger] lines[k]) is None,
    ensures
        frames_of(sort_rows(rows_of(lines))) == seq![Seq::<Position>::empty()],
    decreases lines.len(),
{
    if lines.len() > 0 {
        assert(parsed_row(lines.last()) is None);
        assert forall|k: int| 0 <= k < lines.drop_last().len() implies parsed_row(
            #[trigger] lines.drop_last()[k],
        ) is None by {
            assert(lines.drop_last()[k] == lines[k]);
        }
        lemma_unmatched_lines_one_empty_frame(lines.drop_last());
        assert(rows_of(lines) == rows_of(lines.drop_last()));
    }
}

} // verus!
