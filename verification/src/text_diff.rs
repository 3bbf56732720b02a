//! Byte-level text differ.
//!
//! Compares two text revisions as byte sequences and reports the changed
//! regions as ordered, non-overlapping hunks, each carrying row/column
//! positions derived by replaying a newline scan, plus a variant of the
//! after-range start that skips leading newline bytes.  The byte alignment
//! itself comes from an outside diff library behind one trusted wrapper; the
//! positions and the trimmed starts are computed and proved here.

use vstd::prelude::*;
use vstd::string::StringSliceAdditionalSpecFns;

verus! {

/// A row/column position in a text, rows counted from zero, columns in bytes
/// since the last newline.
#[derive(Debug, Clone, Copy, PartialEq, Eq, Structural)]
pub struct Point {
    pub row: usize,
    pub column: usize,
}

/// One contiguous textual replacement: the byte range it covers in the old
/// revision, the byte range in the new one, positions for both ends, and the
/// after-range start moved past leading newline bytes.
#[derive(Debug, Clone, PartialEq, Eq, Structural)]
pub struct Change {
    pub before_start: usize,
    pub before_end: usize,
    pub after_start: usize,
    pub after_end: usize,
    pub after_trimmed_start: usize,
    pub start_position: Point,
    pub old_end_position: Point,
    pub new_end_position: Point,
}

/// An ordered list of non-overlapping changes covering every byte-level
/// difference between two revisions.
#[derive(Debug, PartialEq)]
pub struct Diff {
    pub changes: Vec<Change>,
}

/// A raw byte-range pair as the outside diff library reports it.
#[derive(Debug, Clone, Copy)]
pub struct ByteHunk {
    pub before_start: usize,
    pub before_end: usize,
    pub after_start: usize,
    pub after_end: usize,
}

/// Row of the position reached after reading the first `k` bytes of `s`:
/// the number of newline bytes among them.
pub open spec fn row_of(s: Seq<u8>, k: int) -> nat
    decreases k,
{
    if k <= 0 {
        0
    } else {
        row_of(s, k - 1) + (if s[k - 1] == 10 {
            1nat
        } else {
            0nat
        })
    }
}

/// Column of the position reached after reading the first `k` bytes of `s`:
/// bytes since the last newline.
pub open spec fn col_of(s: Seq<u8>, k: int) -> nat
    decreases k,
{
    if k <= 0 {
        0
    } else if s[k - 1] == 10 {
        0
    } else {
        col_of(s, k - 1) + 1
    }
}

/// Rows and columns never outgrow the prefix length.
pub proof fn lemma_point_bounds(s: Seq<u8>, k: int)
    ensures
        row_of(s, k) <= (if k <= 0 {
            0
        } else {
            k
        }),
        col_of(s, k) <= (if k <= 0 {
            0
        } else {
            k
        }),
    decreases k,
{
    if k > 0 {
        lemma_point_bounds(s, k - 1);
    }
}

/// Reading more bytes never loses a row.
pub proof fn lemma_row_monotone(s: Seq<u8>, i: int, j: int)
    requires
        i <= j,
    ensures
        row_of(s, i) <= row_of(s, j),
    decreases j - i,
{
    if i < j {
        lemma_row_monotone(s, i, j - 1);
    }
}

/// Within one row, columns only grow with the offset.
pub proof fn lemma_col_same_row(s: Seq<u8>, i: int, j: int)
    requires
        i <= j,
        row_of(s, i) == row_of(s, j),
    ensures
        col_of(s, i) <= col_of(s, j),
        col_of(s, j) - col_of(s, i) <= j - i,
    decreases j - i,
{
    if i < j {
        lemma_row_monotone(s, i, j - 1);
        lemma_row_monotone(s, j - 1, j);
        lemma_col_same_row(s, i, j - 1);
    }
}

/// First offset in `[i, end)` that does not hold a newline byte (or `end`).
pub open spec fn past_leading_newlines(s: Seq<u8>, i: int, end: int) -> int
    decreases end - i,
{
    if i >= end || s[i] != 10 {
        i
    } else {
        past_leading_newlines(s, i + 1, end)
    }
}

/// The trimmed start of a hunk never leaves the hunk's after-range.
pub proof fn lemma_past_leading_newlines_range(s: Seq<u8>, i: int, end: int)
    requires
        i <= end,
    ensures
        i <= past_leading_newlines(s, i, end) <= end,
    decreases end - i,
{
    if i < end && s[i] == 10 {
        lemma_past_leading_newlines_range(s, i + 1, end);
    }
}

/// The bytes of `s` before `upto` that no range of `rs` covers, in order;
/// each entry of `rs` is a `(start, end)` byte range, and `rs` is read as
/// sorted.
pub open spec fn unchanged_of(s: Seq<u8>, rs: Seq<(int, int)>, upto: int) -> Seq<u8>
    decreases rs.len(),
{
    if rs.len() == 0 {
        s.subrange(0, upto)
    } else {
        unchanged_of(s, rs.drop_last(), rs.last().0) + s.subrange(rs.last().1, upto)
    }
}

pub open spec fn before_ranges(cs: Seq<Change>) -> Seq<(int, int)> {
    cs.map_values(|c: Change| (c.before_start as int, c.before_end as int))
}

pub open spec fn after_ranges(cs: Seq<Change>) -> Seq<(int, int)> {
    cs.map_values(|c: Change| (c.after_start as int, c.after_end as int))
}

pub open spec fn hunk_before_ranges(hs: Seq<ByteHunk>) -> Seq<(int, int)> {
    hs.map_values(|h: ByteHunk| (h.before_start as int, h.before_end as int))
}

pub open spec fn hunk_after_ranges(hs: Seq<ByteHunk>) -> Seq<(int, int)> {
    hs.map_values(|h: ByteHunk| (h.after_start as int, h.after_end as int))
}

/// Relies on `imara_diff::Diff::compute` with the histogram algorithm over
/// byte tokens, and on `Diff::hunks`, which yields the changed regions as
/// monotonically increasing, non-overlapping range pairs; outside those
/// ranges the two inputs carry the same bytes, two equal inputs produce no
/// hunks, and each hunk changes at least one side.
#[verifier::external_body]
fn byte_hunks(before: &[u8], after: &[u8]) -> (r: Vec<ByteHunk>)
    requires
        before@.len() < i32::MAX,
        after@.len() < i32::MAX,
    ensures
        forall|x: int|
            0 <= x < r@.len() ==> {
                let h = #[trigger] r@[x];
                &&& h.before_start <= h.before_end <= before@.len()
                &&& h.after_start <= h.after_end <= after@.len()
                &&& (h.before_start < h.before_end || h.after_start < h.after_end)
            },
        forall|x: int|
            0 < x < r@.len() ==> {
                let h = #[trigger] r@[x];
                &&& r@[x - 1].before_end < h.before_start
                &&& r@[x - 1].after_end < h.after_start
            },
        unchanged_of(before@, hunk_before_ranges(r@), before@.len() as int) == unchanged_of(
            after@,
            hunk_after_ranges(r@),
            after@.len() as int,
        ),
        before@ == after@ ==> r@.len() == 0,
{
    let mut input: imara_diff::InternedInput<u8> =
        imara_diff::InternedInput::default();
    input.update_before(before.iter().copied());
    input.update_after(after.iter().copied());
    let diff = imara_diff::Diff::compute(imara_diff::Algorithm::Histogram, &input);
    diff.hunks()
        .map(|h| ByteHunk {
            before_start: h.before.start as usize,
            before_end: h.before.end as usize,
            after_start: h.after.start as usize,
            after_end: h.after.end as usize,
        })
        .collect()
}

/// All position fields of a change follow from its byte ranges by the
/// newline scans: the start is the after-side position of the range start,
/// the new end is the after-side position of the range end, and the old end
/// advances the start by the rows and, within one row, the columns the
/// before-range spans — the before-side column at the range end once a row
/// boundary is crossed.
pub open spec fn change_positions_ok(c: Change, sb: Seq<u8>, sa: Seq<u8>) -> bool {
    &&& c.start_position.row == row_of(sa, c.after_start as int)
    &&& c.start_position.column == col_of(sa, c.after_start as int)
    &&& c.new_end_position.row == row_of(sa, c.after_end as int)
    &&& c.new_end_position.column == col_of(sa, c.after_end as int)
    &&& {
        let row_diff = row_of(sb, c.before_end as int) - row_of(sb, c.before_start as int);
        &&& c.old_end_position.row == c.start_position.row + row_diff
        &&& c.old_end_position.column == (if row_diff > 0 {
            col_of(sb, c.before_end as int) as int
        } else {
            c.start_position.column + (col_of(sb, c.before_end as int) - col_of(
                sb,
                c.before_start as int,
            ))
        })
    }
    &&& c.after_trimmed_start == past_leading_newlines(sa, c.after_start as int, c.after_end as int)
}

impl Change {
    /// The two text fragments this change replaces and inserts, for texts
    /// whose byte offsets are character offsets.
    pub fn get_hunk<'a>(&self, code_before: &'a str, code_after: &'a str) -> (r: (&'a str, &'a str))
        requires
            code_before.is_ascii(),
            code_after.is_ascii(),
            self.before_start <= self.before_end <= code_before@.len(),
            self.after_start <= self.after_end <= code_after@.len(),
        ensures
            r.0@ == code_before@.subrange(self.before_start as int, self.before_end as int),
            r.1@ == code_after@.subrange(self.after_start as int, self.after_end as int),
    {
        (
            code_before.substring_ascii(self.before_start, self.before_end),
            code_after.substring_ascii(self.after_start, self.after_end),
        )
    }
}

impl Diff {
    /// Every change's replaced and inserted fragment, in order.
    pub fn get_hunks<'a>(&self, code_before: &'a str, code_after: &'a str) -> (r: Vec<
        (&'a str, &'a str),
    >)
        requires
            code_before.is_ascii(),
            code_after.is_ascii(),
            forall|x: int|
                0 <= x < self.changes@.len() ==> {
                    let c = #[trigger] self.changes@[x];
                    &&& c.before_start <= c.before_end <= code_before@.len()
                    &&& c.after_start <= c.after_end <= code_after@.len()
                },
        ensures
            r@.len() == self.changes@.len(),
            forall|x: int|
                0 <= x < r@.len() ==> {
                    let c = #[trigger] self.changes@[x];
                    &&& r@[x].0@ == code_before@.subrange(c.before_start as int, c.before_end as int)
                    &&& r@[x].1@ == code_after@.subrange(c.after_start as int, c.after_end as int)
                },
    {
        let mut r: Vec<(&'a str, &'a str)> = Vec::new();
        let mut x: usize = 0;
        while x < self.changes.len()
            invariant
                x <= self.changes@.len(),
                r@.len() == x,
                code_before.is_ascii(),
                code_after.is_ascii(),
                forall|y: int|
                    0 <= y < self.changes@.len() ==> {
                        let c = #[trigger] self.changes@[y];
                        &&& c.before_start <= c.before_end <= code_before@.len()
                        &&& c.after_start <= c.after_end <= code_after@.len()
                    },
                forall|y: int|
                    0 <= y < x ==> {
                        let c = #[trigger] self.changes@[y];
                        &&& r@[y].0@ == code_before@.subrange(
                            c.before_start as int,
                            c.before_end as int,
                        )
                        &&& r@[y].1@ == code_after@.subrange(c.after_start as int, c.after_end as int)
                    },
            decreases self.changes@.len() - x,
        {
            let c = &self.changes[x];
            let pair = c.get_hunk(code_before, code_after);
            r.push(pair);
            x = x + 1;
        }
        r
    }
}

/// Computes the ordered change hunks between two revisions: the byte
/// alignment from the outside differ, the positions and trimmed starts by
/// the newline scans specified above.
pub fn compute_diff(before: &str, after: &str) -> (d: Diff)
    requires
        before.spec_bytes().len() < i32::MAX,
        after.spec_bytes().len() < i32::MAX,
    ensures
        forall|x: int|
            0 <= x < d.changes@.len() ==> {
                let c = #[trigger] d.changes@[x];
                &&& c.before_start <= c.before_end <= before.spec_bytes().len()
                &&& c.after_start <= c.after_end <= after.spec_bytes().len()
                &&& (c.before_start < c.before_end || c.after_start < c.after_end)
                &&& change_positions_ok(c, before.spec_bytes(), after.spec_bytes())
            },
        forall|x: int|
            0 < x < d.changes@.len() ==> {
                let c = #[trigger] d.changes@[x];
                &&& d.changes@[x - 1].before_end < c.before_start
                &&& d.changes@[x - 1].after_end < c.after_start
            },
        unchanged_of(
            before.spec_bytes(),
            before_ranges(d.changes@),
            before.spec_bytes().len() as int,
        ) == unchanged_of(
            after.spec_bytes(),
            after_ranges(d.changes@),
            after.spec_bytes().len() as int,
        ),
        before@ == after@ ==> d.changes@.len() == 0,
{
    let bv = before.as_bytes();
    let av = after.as_bytes();
    let ghost sb = before.spec_bytes();
    let ghost sa = after.spec_bytes();
    let hunks = byte_hunks(bv, av);

    let mut changes: Vec<Change> = Vec::new();
    let mut x: usize = 0;
    while x < hunks.len()
        invariant
            x <= hunks@.len(),
            changes@.len() == x,
            bv@ == sb,
            av@ == sa,
            sb.len() < i32::MAX,
            sa.len() < i32::MAX,
            forall|y: int|
                0 <= y < hunks@.len() ==> {
                    let h = #[trigger] hunks@[y];
                    &&& h.before_start <= h.before_end <= sb.len()
                    &&& h.after_start <= h.after_end <= sa.len()
                    &&& (h.before_start < h.before_end || h.after_start < h.after_end)
                },
            forall|y: int|
                0 < y < hunks@.len() ==> {
                    let h = #[trigger] hunks@[y];
                    &&& hunks@[y - 1].before_end < h.before_start
                    &&& hunks@[y - 1].after_end < h.after_start
                },
            forall|y: int|
                0 <= y < x ==> {
                    let c = #[trigger] changes@[y];
                    &&& c.before_start == hunks@[y].before_start
                    &&& c.before_end == hunks@[y].before_end
                    &&& c.after_start == hunks@[y].after_start
                    &&& c.after_end == hunks@[y].after_end
                    &&& change_positions_ok(c, sb, sa)
                },
        decreases hunks@.len() - x,
    {
        let h = hunks[x];

        let start_position = point_at(av, h.after_start);
        let new_end_position = point_at(av, h.after_end);
        let before_start_pt = point_at(bv, h.before_start);
        let before_end_pt = point_at(bv, h.before_end);

        proof {
            lemma_row_monotone(sb, h.before_start as int, h.before_end as int);
            lemma_point_bounds(sb, h.before_end as int);
            lemma_point_bounds(sa, h.after_start as int);
        }
        let old_row_diff = before_end_pt.row - before_start_pt.row;
        proof {
            if old_row_diff == 0 {
                lemma_col_same_row(sb, h.before_start as int, h.before_end as int);
            }
            lemma_point_bounds(sa, h.after_start as int);
        }
        let old_end_position = Point {
            row: start_position.row + old_row_diff,
            column: if old_row_diff > 0 {
                before_end_pt.column
            } else {
                start_position.column + (before_end_pt.column - before_start_pt.column)
            },
        };

        let mut t = h.after_start;
        while t < h.after_end && av[t] == 10
            invariant
                h.after_start <= t <= h.after_end <= sa.len(),
                av@ == sa,
                past_leading_newlines(sa, h.after_start as int, h.after_end as int)
                    == past_leading_newlines(sa, t as int, h.after_end as int),
            decreases h.after_end - t,
        {
            t = t + 1;
        }

        changes.push(
            Change {
                before_start: h.before_start,
                before_end: h.before_end,
                after_start: h.after_start,
                after_end: h.after_end,
                after_trimmed_start: t,
                start_position,
                old_end_position,
                new_end_position,
            },
        );
        x = x + 1;
    }
    proof {
        assert(before_ranges(changes@) =~= hunk_before_ranges(hunks@));
        assert(after_ranges(changes@) =~= hunk_after_ranges(hunks@));
    }
    Diff { changes }
}

/// The row/column position after the first `k` bytes of `s`, by one scan.
fn point_at(s: &[u8], k: usize) -> (r: Point)
    requires
        k <= s@.len(),
    ensures
        r.row == row_of(s@, k as int),
        r.column == col_of(s@, k as int),
{
    let mut row: usize = 0;
    let mut column: usize = 0;
    let mut i: usize = 0;
    while i < k
        invariant
            i <= k <= s@.len(),
            row == row_of(s@, i as int),
            column == col_of(s@, i as int),
        decreases k - i,
    {
        proof {
            lemma_point_bounds(s@, i + 1);
        }
        if s[i] == 10 {
            row = row + 1;
            column = 0;
        } else {
            column = column + 1;
        }
        i = i + 1;
    }
    Point { row, column }
}

} // verus!
