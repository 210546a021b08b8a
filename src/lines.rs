//! The line table of a byte source, as a mathematical object.
//!
//! A line runs from its first byte up to the newline that ends it; the range
//! `(start, end)` of a line holds the offset of that newline as `end`, or the
//! length of the source for a last line that has none.
use vstd::prelude::*;

verus! {

/// The byte that ends a line.
pub const NEW_LINE: u8 = 10;

/// The lines met by a scan of `s` that stands at byte `i`, with the current line
/// begun at byte `p`.
pub open spec fn scan(s: Seq<u8>, p: int, i: int) -> Seq<(usize, usize)>
    decreases s.len() - i,
{
    if i < 0 || i >= s.len() {
        seq![]
    } else if s[i] == NEW_LINE {
        seq![(p as usize, i as usize)] + scan(s, i + 1, i + 1)
    } else if i + 1 == s.len() {
        seq![(p as usize, s.len() as usize)]
    } else {
        scan(s, p, i + 1)
    }
}

/// The lines that start at byte `p` or later, when a line starts at `p`.
pub open spec fn lines_from(s: Seq<u8>, p: int) -> Seq<(usize, usize)> {
    scan(s, p, p)
}

/// The whole line table of `s`. An empty source counts as one byte that holds
/// nothing, so that it has one empty line, `(0, 1)`.
pub open spec fn all_lines(s: Seq<u8>) -> Seq<(usize, usize)> {
    if s.len() == 0 {
        seq![(0usize, 1usize)]
    } else {
        lines_from(s, 0)
    }
}

/// The offset at which the line after `line` starts.
pub open spec fn after(line: (usize, usize)) -> int {
    line.1 + 1
}

/// Where a scan resumes after the lines `known`.
pub open spec fn resume_at(known: Seq<(usize, usize)>) -> int {
    if known.len() == 0 {
        0
    } else {
        after(known.last())
    }
}

/// `known` is a prefix of the line table of `s`, and the scan can resume after it.
pub open spec fn is_known_prefix(s: Seq<u8>, known: Seq<(usize, usize)>) -> bool {
    known + lines_from(s, resume_at(known)) == all_lines(s)
}

/// No scan yields more lines than it has bytes ahead of it.
pub proof fn lemma_scan_len(s: Seq<u8>, p: int, i: int)
    requires
        0 <= i,
    ensures
        scan(s, p, i).len() <= if i < s.len() { s.len() - i } else { 0 },
    decreases s.len() - i,
{
    if i < s.len() {
        if s[i] == NEW_LINE {
            lemma_scan_len(s, i + 1, i + 1);
        } else if i + 1 != s.len() {
            lemma_scan_len(s, p, i + 1);
        }
    }
}

/// Each line of a scan lies within the source, starting no earlier than the scan's
/// current line, and ends at a newline or at the source's end.
pub proof fn lemma_scan_bounds(s: Seq<u8>, p: int, i: int)
    requires
        0 <= p <= i,
        s.len() <= usize::MAX,
    ensures
        forall|k: int|
            0 <= k < scan(s, p, i).len() ==> {
                let line = #[trigger] scan(s, p, i)[k];
                &&& p <= line.0 <= line.1 <= s.len()
                &&& line.1 < s.len() ==> s[line.1 as int] == NEW_LINE
            },
    decreases s.len() - i,
{
    if 0 <= i < s.len() {
        if s[i] == NEW_LINE {
            let rest = scan(s, i + 1, i + 1);
            lemma_scan_bounds(s, i + 1, i + 1);
            assert forall|k: int| 0 <= k < scan(s, p, i).len() implies {
                let line = #[trigger] scan(s, p, i)[k];
                &&& p <= line.0 <= line.1 <= s.len()
                &&& line.1 < s.len() ==> s[line.1 as int] == NEW_LINE
            } by {
                if k > 0 {
                    assert(scan(s, p, i)[k] == rest[k - 1]);
                }
            }
        } else if i + 1 != s.len() {
            lemma_scan_bounds(s, p, i + 1);
            assert(scan(s, p, i) == scan(s, p, i + 1));
        } else {
            assert(scan(s, p, i) == seq![(p as usize, s.len() as usize)]);
            assert(scan(s, p, i)[0].0 == p);
            assert(scan(s, p, i)[0].1 == s.len());
        }
    } else {
        assert(scan(s, p, i).len() == 0);
    }
}

/// The lines of a source all lie within it (the one line of an empty source ends at 1).
pub proof fn lemma_lines_within(s: Seq<u8>)
    requires
        s.len() < usize::MAX,
    ensures
        all_lines(s).len() <= s.len() + 1,
        s.len() > 0 ==> all_lines(s).len() <= s.len(),
        forall|k: int|
            0 <= k < all_lines(s).len() ==> {
                let line = #[trigger] all_lines(s)[k];
                &&& line.0 <= line.1
                &&& line.0 <= s.len()
                &&& s.len() > 0 ==> line.1 <= s.len()
                &&& line.1 < s.len() ==> s[line.1 as int] == NEW_LINE
            },
{
    lemma_scan_len(s, 0, 0);
    lemma_scan_bounds(s, 0, 0);
}

/// A scan that stands on a byte of the source still has a line ahead.
pub proof fn lemma_scan_nonempty(s: Seq<u8>, p: int, i: int)
    requires
        0 <= i < s.len(),
    ensures
        scan(s, p, i).len() >= 1,
    decreases s.len() - i,
{
    if s[i] != NEW_LINE && i + 1 != s.len() {
        lemma_scan_nonempty(s, p, i + 1);
    }
}

/// Every source has at least one line.
pub proof fn lemma_some_line(s: Seq<u8>)
    ensures
        all_lines(s).len() >= 1,
{
    if s.len() > 0 {
        lemma_scan_nonempty(s, 0, 0);
    }
}

/// A scan whose current line holds no newline yet yields lines that start with that
/// line, follow each other with one newline between two, hold no newline, and reach
/// the last byte.
pub proof fn lemma_scan_tiles(s: Seq<u8>, p: int, i: int)
    requires
        0 <= p <= i,
        s.len() <= usize::MAX,
        forall|j: int| p <= j < i && j < s.len() ==> s[j] != NEW_LINE,
    ensures
        i < s.len() ==> {
            &&& scan(s, p, i).len() >= 1
            &&& scan(s, p, i)[0].0 == p
            &&& scan(s, p, i).last().1 >= s.len() - 1
        },
        forall|k: int|
            0 <= k < scan(s, p, i).len() - 1 ==> #[trigger] scan(s, p, i)[k + 1].0 == scan(
                s,
                p,
                i,
            )[k].1 + 1,
        forall|k: int, j: int|
            #![trigger scan(s, p, i)[k], s[j]]
            0 <= k < scan(s, p, i).len() && scan(s, p, i)[k].0 <= j < scan(s, p, i)[k].1 ==> s[j]
                != NEW_LINE,
    decreases s.len() - i,
{
    if 0 <= i < s.len() {
        let lines = scan(s, p, i);
        if s[i] == NEW_LINE {
            let rest = scan(s, i + 1, i + 1);
            lemma_scan_tiles(s, i + 1, i + 1);
            lemma_scan_bounds(s, i + 1, i + 1);
            assert(lines == seq![(p as usize, i as usize)] + rest);
            assert forall|k: int| 0 <= k < lines.len() - 1 implies #[trigger] lines[k + 1].0
                == lines[k].1 + 1 by {
                assert(lines[k + 1] == rest[k]);
                if k > 0 {
                    assert(lines[k] == rest[k - 1]);
                    assert(rest[(k - 1) + 1].0 == rest[k - 1].1 + 1);
                } else {
                    assert(lines[0] == (p as usize, i as usize));
                    assert(rest[0].0 == i + 1);
                }
            }
            assert forall|k: int, j: int|
                #![trigger lines[k], s[j]]
                0 <= k < lines.len() && lines[k].0 <= j < lines[k].1 implies s[j] != NEW_LINE by {
                if k > 0 {
                    assert(lines[k] == rest[k - 1]);
                    assert(s[j] != NEW_LINE);
                }
            }
            if i + 1 < s.len() {
                assert(lines.last() == rest.last());
            }
        } else if i + 1 == s.len() {
            assert(lines == seq![(p as usize, s.len() as usize)]);
        } else {
            lemma_scan_tiles(s, p, i + 1);
        }
    }
}

/// The lines of a source follow each other from its first byte to its last, with
/// exactly one newline between two lines and none inside a line: the first starts at
/// 0, each next one starts after the newline that ends the one before, and the last
/// ends on the last byte (a newline) or at the source's end.
pub proof fn lemma_lines_tile_source(s: Seq<u8>)
    requires
        1 <= s.len() < usize::MAX,
    ensures
        all_lines(s).len() >= 1,
        all_lines(s)[0].0 == 0,
        all_lines(s).last().1 >= s.len() - 1,
        forall|k: int|
            0 <= k < all_lines(s).len() - 1 ==> #[trigger] all_lines(s)[k + 1].0 == all_lines(
                s,
            )[k].1 + 1,
        forall|k: int|
            0 <= k < all_lines(s).len() ==> {
                let line = #[trigger] all_lines(s)[k];
                &&& line.0 <= line.1 <= s.len()
                &&& line.1 < s.len() ==> s[line.1 as int] == NEW_LINE
            },
        forall|k: int, j: int|
            #![trigger all_lines(s)[k], s[j]]
            0 <= k < all_lines(s).len() && all_lines(s)[k].0 <= j < all_lines(s)[k].1 ==> s[j]
                != NEW_LINE,
{
    lemma_scan_tiles(s, 0, 0);
    lemma_lines_within(s);
}

} // verus!
