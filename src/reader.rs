//! Windowed reads over a byte source, served from a line table that is built
//! lazily and only ever extended.
use crate::lines::{
    all_lines, is_known_prefix, lemma_lines_within, lines_from, resume_at, scan, NEW_LINE,
};
use vstd::prelude::*;
use vstd::string::StringExecFns;

verus! {

/// A tab, shown as one space.
pub const TAB: u8 = 9;

/// What a tab is shown as.
pub const SPACE: u8 = 32;

/// `x`, or `n` where `x` is larger.
pub open spec fn at_most(x: int, n: int) -> int {
    if x < n {
        x
    } else {
        n
    }
}

/// The larger of `x` and `y`.
pub open spec fn at_least(x: int, y: int) -> int {
    if x < y {
        y
    } else {
        x
    }
}

/// The lines of `s` from line `row_offset` on: `rows` of them, or as many as there are.
pub open spec fn window(s: Seq<u8>, row_offset: int, rows: int) -> Seq<(usize, usize)> {
    let table = all_lines(s);
    table.subrange(at_most(row_offset, table.len() as int), at_most(row_offset + rows, table.len() as int))
}

/// Where the bytes of `line` that `s` holds end: at the line's end, but for the one
/// line of an empty source, which holds none.
pub open spec fn content_end(s: Seq<u8>, line: (usize, usize)) -> int {
    at_most(line.1 as int, s.len() as int)
}

/// The first byte of `line` shown when the view starts at column `col_offset`.
pub open spec fn clip_start(s: Seq<u8>, line: (usize, usize), col_offset: int) -> int {
    at_most(line.0 + col_offset, content_end(s, line))
}

/// The end of the bytes of `line` shown in `cols` columns from column `col_offset`.
pub open spec fn clip_end(s: Seq<u8>, line: (usize, usize), col_offset: int, cols: int) -> int {
    at_most(content_end(s, line), clip_start(s, line, col_offset) + cols)
}

/// Some byte of `line` is shown.
pub open spec fn shows(s: Seq<u8>, line: (usize, usize), col_offset: int, cols: int) -> bool {
    clip_start(s, line, col_offset) < clip_end(s, line, col_offset, cols)
}

/// Some byte of one of `lines` is shown.
pub open spec fn shows_text(s: Seq<u8>, lines: Seq<(usize, usize)>, col_offset: int, cols: int) -> bool {
    exists|k: int| 0 <= k < lines.len() && shows(s, #[trigger] lines[k], col_offset, cols)
}

/// The columns a read reports: all that were asked for when it showed any text, else none.
pub open spec fn cols_shown(s: Seq<u8>, lines: Seq<(usize, usize)>, col_offset: int, cols: int) -> int {
    if shows_text(s, lines, col_offset, cols) {
        cols
    } else {
        0
    }
}

/// The bytes with each tab made a space.
pub open spec fn untab(b: Seq<u8>) -> Seq<u8> {
    b.map_values(|c: u8| if c == TAB { SPACE } else { c })
}

/// The text of `line` shown in `cols` columns from column `col_offset`.
pub open spec fn visible(s: Seq<u8>, line: (usize, usize), col_offset: int, cols: int) -> Seq<char> {
    decoded(untab(s.subrange(clip_start(s, line, col_offset), clip_end(s, line, col_offset, cols))))
}

/// What stands between two shown lines.
pub open spec fn row_separator() -> Seq<char> {
    seq!['\n', '\r']
}

/// The shown text of `lines`, one after the other, with a row separator between two.
pub open spec fn render(s: Seq<u8>, lines: Seq<(usize, usize)>, col_offset: int, cols: int) -> Seq<char>
    decreases lines.len(),
{
    if lines.len() == 0 {
        seq![]
    } else if lines.len() == 1 {
        visible(s, lines[0], col_offset, cols)
    } else {
        render(s, lines.drop_last(), col_offset, cols) + row_separator() + visible(
            s,
            lines.last(),
            col_offset,
            cols,
        )
    }
}

/// How many lines are known after a request for `wanted` of them, with `known` known
/// before and `total` in the source.
pub open spec fn extended(known: int, wanted: int, total: int) -> int {
    at_least(known, at_most(wanted, total))
}

/// The text that `bytes` decode to, invalid sequences replaced.
pub uninterp spec fn decoded(bytes: Seq<u8>) -> Seq<char>;

/// Relies on `String::from_utf8_lossy`: it decodes the bytes as UTF-8, replacing each
/// invalid sequence with U+FFFD, so its result is a function of the bytes alone.
#[verifier::external_body]
fn decode_lossy(bytes: &[u8]) -> (text: String)
    ensures
        text@ == decoded(bytes@),
{
    String::from_utf8_lossy(bytes).into_owned()
}

/// The bytes from `from` to `to` shown in `cols` columns from column `col_offset` of
/// `line`, in a source of `held` bytes.
fn clip_range(line: (usize, usize), held: usize, col_offset: u64, cols: u16) -> (r: (usize, usize))
    requires
        line.0 <= line.1,
        line.0 <= held,
    ensures
        r.0 == at_most(line.0 + col_offset, at_most(line.1 as int, held as int)),
        r.1 == at_most(at_most(line.1 as int, held as int), r.0 + cols),
        line.0 <= r.0 <= r.1 <= held,
{
    let start = line.0;
    let end = if line.1 < held {
        line.1
    } else {
        held
    };
    let width = end - start;
    let from = if col_offset < width as u64 {
        start + col_offset as usize
    } else {
        end
    };
    let room = end - from;
    let to = if (cols as usize) < room {
        from + cols as usize
    } else {
        end
    };
    (from, to)
}

/// A source of bytes and the part of its line table found so far.
pub struct PagedReader<'a> {
    /// The ranges of the lines found so far, in order.
    rows_indexes: Vec<(usize, usize)>,
    source: &'a [u8],
}

impl<'a> PagedReader<'a> {
    /// The bytes of the source.
    pub closed spec fn bytes(&self) -> Seq<u8> {
        self.source@
    }

    /// The lines found so far.
    pub closed spec fn index(&self) -> Seq<(usize, usize)> {
        self.rows_indexes@
    }

    /// The source holds at least one byte, and the lines found are the first lines of
    /// its table.
    pub open spec fn wf(&self) -> bool {
        &&& self.bytes().len() <= isize::MAX
        &&& is_known_prefix(self.bytes(), self.index())
    }

    /// A reader of `source` that knows no line yet; of an empty source it knows its
    /// one line, `(0, 1)`.
    pub fn new(source: &'a [u8]) -> (r: Self)
        requires
            source@.len() <= isize::MAX,
        ensures
            r.wf(),
            r.bytes() == source@,
            source@.len() > 0 ==> r.index().len() == 0,
            source@.len() == 0 ==> r.index() == all_lines(source@),
    {
        let mut rows_indexes: Vec<(usize, usize)> = Vec::new();
        if source.len() == 0 {
            rows_indexes.push((0, 1));
        }
        let r = PagedReader { rows_indexes, source };
        assert(r.index() + lines_from(r.bytes(), resume_at(r.index())) =~= all_lines(r.bytes()));
        r
    }

    /// How many lines are known.
    pub fn cached_rows(&self) -> (r: usize)
        ensures
            r == self.index().len(),
    {
        self.rows_indexes.len()
    }

    /// Scans on from the end of the last known line until `to_row` lines are known or
    /// the source ends; never scans a byte twice.
    fn fetch_missing_rows_indexes(&mut self, to_row: usize)
        requires
            old(self).wf(),
        ensures
            final(self).wf(),
            final(self).bytes() == old(self).bytes(),
            final(self).index() == all_lines(old(self).bytes()).take(
                extended(
                    old(self).index().len() as int,
                    to_row as int,
                    all_lines(old(self).bytes()).len() as int,
                ),
            ),
    {
        let ghost s = self.source@;
        let ghost table = all_lines(s);
        let ghost known = self.rows_indexes@;
        proof {
            lemma_lines_within(s);
        }
        let n = self.source.len();
        let len = self.rows_indexes.len();
        if to_row <= len {
            assert(known =~= table.take(len as int));
            return;
        }
        let start: usize = if len == 0 {
            0
        } else {
            let last = self.rows_indexes[len - 1];
            assert(known.last() == table[len - 1]);
            if n == 0 || last.1 >= n - 1 {
                assert(known =~= table);
                assert(table.take(table.len() as int) =~= table);
                return;
            }
            last.1 + 1
        };
        assert(start == resume_at(known));
        let mut pos: usize = start;
        let mut i: usize = start;
        while i < n && self.rows_indexes.len() < to_row
            invariant
                self.source@ == s,
                n == s.len(),
                table == all_lines(s),
                1 <= s.len() <= isize::MAX,
                start <= i <= n,
                pos == i || pos == i + 1 || self.rows_indexes@.len() < to_row,
                pos == i + 1 ==> i == n,
                pos <= i + 1,
                i == n ==> pos >= n,
                pos == resume_at(self.rows_indexes@),
                len <= self.rows_indexes@.len() <= to_row,
                self.rows_indexes@ + scan(s, pos as int, i as int) == table,
            decreases n - i,
        {
            let ghost before = self.rows_indexes@;
            let c = self.source[i];
            if c == NEW_LINE {
                self.rows_indexes.push((pos, i));
                assert(self.rows_indexes@ + scan(s, i + 1, i + 1) =~= before + scan(
                    s,
                    pos as int,
                    i as int,
                ));
                pos = i + 1;
            } else if i + 1 == n {
                self.rows_indexes.push((pos, n));
                assert(self.rows_indexes@ + scan(s, n + 1, n as int) =~= before + scan(
                    s,
                    pos as int,
                    i as int,
                ));
                pos = n + 1;
            }
            i = i + 1;
        }
        let ghost found = self.rows_indexes@;
        assert(scan(s, pos as int, i as int) == lines_from(s, resume_at(found)));
        assert(found =~= table.take(found.len() as int));
    }

    /// The ranges of the `rows` lines from line `row_offset` on, or of as many as the
    /// source has; first extends the known lines so that they cover them.
    pub fn find_new_lines(&mut self, rows: u16, row_offset: u64) -> (r: Vec<(usize, usize)>)
        requires
            old(self).wf(),
        ensures
            final(self).wf(),
            final(self).bytes() == old(self).bytes(),
            final(self).index() == all_lines(old(self).bytes()).take(
                extended(
                    old(self).index().len() as int,
                    row_offset + rows,
                    all_lines(old(self).bytes()).len() as int,
                ),
            ),
            old(self).index().len() <= final(self).index().len(),
            final(self).index().take(old(self).index().len() as int) == old(self).index(),
            r@ == window(old(self).bytes(), row_offset as int, rows as int),
    {
        let ghost s = self.source@;
        let ghost table = all_lines(s);
        proof {
            lemma_lines_within(s);
        }
        let wanted: u64 = row_offset.saturating_add(rows as u64);
        let to_row: usize = if wanted <= usize::MAX as u64 {
            wanted as usize
        } else {
            usize::MAX
        };
        assert(to_row == row_offset + rows || (to_row >= table.len() && row_offset + rows
            >= table.len()));
        self.fetch_missing_rows_indexes(to_row);
        let len = self.rows_indexes.len();
        let from: usize = if row_offset < len as u64 {
            row_offset as usize
        } else {
            len
        };
        let to: usize = if wanted < len as u64 {
            wanted as usize
        } else {
            len
        };
        let mut r: Vec<(usize, usize)> = Vec::new();
        let mut k: usize = from;
        while k < to
            invariant
                from <= k <= to <= len,
                len == self.rows_indexes@.len(),
                r@ == self.rows_indexes@.subrange(from as int, k as int),
            decreases to - k,
        {
            r.push(self.rows_indexes[k]);
            k = k + 1;
            assert(r@ =~= self.rows_indexes@.subrange(from as int, k as int));
        }
        assert(r@ =~= window(s, row_offset as int, rows as int));
        r
    }

    /// The text of a window of the source: the `rows_to_read` lines from line
    /// `row_offset` on (fewer where the source ends), each cut to `columns_to_read`
    /// bytes from byte `column_offset`, tabs shown as spaces, rows separated by
    /// `"\n\r"`. Also the number of lines shown, and `columns_to_read` where some
    /// text was shown, else 0.
    pub fn read_file_paged(
        &mut self,
        row_offset: u64,
        column_offset: u64,
        rows_to_read: u16,
        columns_to_read: u16,
    ) -> (r: (String, usize, usize))
        requires
            old(self).wf(),
        ensures
            final(self).wf(),
            final(self).bytes() == old(self).bytes(),
            final(self).index() == all_lines(old(self).bytes()).take(
                extended(
                    old(self).index().len() as int,
                    row_offset + rows_to_read,
                    all_lines(old(self).bytes()).len() as int,
                ),
            ),
            old(self).index().len() <= final(self).index().len(),
            final(self).index().take(old(self).index().len() as int) == old(self).index(),
            r.0@ == render(
                old(self).bytes(),
                window(old(self).bytes(), row_offset as int, rows_to_read as int),
                column_offset as int,
                columns_to_read as int,
            ),
            r.1 == window(old(self).bytes(), row_offset as int, rows_to_read as int).len(),
            r.2 == cols_shown(
                old(self).bytes(),
                window(old(self).bytes(), row_offset as int, rows_to_read as int),
                column_offset as int,
                columns_to_read as int,
            ),
    {
        let ghost s = self.source@;
        let ghost co = column_offset as int;
        let ghost cols = columns_to_read as int;
        let indexes = self.find_new_lines(rows_to_read, row_offset);
        proof {
            lemma_lines_within(s);
        }
        assert(forall|k: int|
            0 <= k < indexes@.len() ==> #[trigger] indexes@[k] == all_lines(s)[k + at_most(
                row_offset as int,
                all_lines(s).len() as int,
            )]);
        let mut res = String::new();
        let mut has_text = false;
        let mut i: usize = 0;
        while i < indexes.len()
            invariant
                self.source@ == s,
                co == column_offset as int,
                cols == columns_to_read as int,
                0 <= i <= indexes@.len(),
                forall|k: int|
                    0 <= k < indexes@.len() ==> {
                        let line = #[trigger] indexes@[k];
                        line.0 <= line.1 && line.0 <= s.len()
                    },
                res@ == render(s, indexes@.take(i as int), co, cols),
                has_text == shows_text(s, indexes@.take(i as int), co, cols),
            decreases indexes@.len() - i,
        {
            let ghost shown = indexes@.take(i as int);
            let ghost next = indexes@.take(i + 1);
            let line = indexes[i];
            let range = clip_range(line, self.source.len(), column_offset, columns_to_read);
            let from = range.0;
            let to = range.1;
            let bytes = self.untabbed(from, to);
            let text = decode_lossy(bytes.as_slice());
            if i > 0 {
                proof {
                    reveal_strlit("\n\r");
                }
                assert("\n\r"@ =~= row_separator());
                res.append("\n\r");
            }
            res.append(text.as_str());
            assert(next.drop_last() =~= shown);
            assert(next.last() == line);
            assert(next.len() == i + 1);
            assert(text@ == visible(s, line, co, cols));
            if i == 0 {
                assert(res@ =~= render(s, next, co, cols));
            } else {
                assert(res@ =~= render(s, shown, co, cols) + row_separator() + visible(s, line, co, cols));
                assert(res@ =~= render(s, next, co, cols));
            }
            assert(shows(s, line, co, cols) == (from < to));
            assert((has_text || from < to) == shows_text(s, next, co, cols)) by {
                if shows_text(s, next, co, cols) {
                    let k = choose|k: int| 0 <= k < next.len() && shows(s, #[trigger] next[k], co, cols);
                    if k < i {
                        assert(shown[k] == next[k]);
                    }
                }
                if has_text {
                    let k = choose|k: int| 0 <= k < shown.len() && shows(s, #[trigger] shown[k], co, cols);
                    assert(shown[k] == next[k]);
                }
                if from < to {
                    assert(shows(s, next[i as int], co, cols));
                }
            }
            has_text = has_text || from < to;
            i = i + 1;
        }
        assert(indexes@.take(indexes@.len() as int) =~= indexes@);
        let cols_read: usize = if has_text {
            columns_to_read as usize
        } else {
            0
        };
        (res, indexes.len(), cols_read)
    }

    /// The bytes from `from` to `to`, each tab made a space.
    fn untabbed(&self, from: usize, to: usize) -> (r: Vec<u8>)
        requires
            from <= to <= self.bytes().len(),
        ensures
            r@ == untab(self.bytes().subrange(from as int, to as int)),
    {
        let mut r: Vec<u8> = Vec::new();
        let mut j: usize = from;
        while j < to
            invariant
                from <= j <= to <= self.source@.len(),
                r@ == untab(self.source@.subrange(from as int, j as int)),
            decreases to - j,
        {
            let c = self.source[j];
            r.push(if c == TAB { SPACE } else { c });
            j = j + 1;
            assert(r@ =~= untab(self.source@.subrange(from as int, j as int)));
        }
        r
    }
}

/// The text of two runs of lines is the text of the first, a row separator, and the
/// text of the second.
pub proof fn lemma_render_concat(
    s: Seq<u8>,
    a: Seq<(usize, usize)>,
    b: Seq<(usize, usize)>,
    col_offset: int,
    cols: int,
)
    requires
        a.len() > 0,
        b.len() > 0,
    ensures
        render(s, a + b, col_offset, cols) == render(s, a, col_offset, cols) + row_separator()
            + render(s, b, col_offset, cols),
    decreases b.len(),
{
    assert((a + b).drop_last() =~= a + b.drop_last());
    assert((a + b).last() == b.last());
    if b.len() == 1 {
        assert(a + b.drop_last() =~= a);
    } else {
        lemma_render_concat(s, a, b.drop_last(), col_offset, cols);
        assert(render(s, a + b, col_offset, cols) =~= render(s, a, col_offset, cols)
            + row_separator() + render(s, b, col_offset, cols));
    }
}

/// Where no line of a window is longer than `col_offset`, a read of it from that
/// column shows nothing and reports no columns.
pub proof fn lemma_column_clamp(s: Seq<u8>, row_offset: int, col_offset: int, rows: int, cols: int)
    requires
        0 <= col_offset,
        0 <= rows,
        forall|k: int|
            0 <= k < window(s, row_offset, rows).len() ==> {
                let line = #[trigger] window(s, row_offset, rows)[k];
                line.1 - line.0 <= col_offset
            },
    ensures
        !shows_text(s, window(s, row_offset, rows), col_offset, cols),
        cols_shown(s, window(s, row_offset, rows), col_offset, cols) == 0,
{
    let w = window(s, row_offset, rows);
    if shows_text(s, w, col_offset, cols) {
        let k = choose|k: int| 0 <= k < w.len() && shows(s, #[trigger] w[k], col_offset, cols);
        assert(w[k].1 - w[k].0 <= col_offset);
    }
}

} // verus!
