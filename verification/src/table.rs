//! winget's aligned text tables: cleaning up its lines, finding the columns,
//! and reading the rows.

use vstd::prelude::*;
use crate::text::{
    chars_of, line_bounds, lines, is_blank, is_whitespace, is_ws, string_of, trim, trim_at, trim_end,
    trim_end_at, trim_start,
};
use crate::width::{cells, char_widths, width_sum, lemma_width_sum_take_monotone, lemma_width_sum_take_step};

verus! {

// ------------------------------------------------------------ cleaning a line

/// The part of `s` after its last carriage return (all of `s` if it has none):
/// winget redraws its progress spinner in place with `\r`.
pub open spec fn after_last_cr(s: Seq<char>) -> Seq<char>
    decreases s.len(),
{
    if s.len() == 0 {
        s
    } else if s.last() == '\r' {
        Seq::<char>::empty()
    } else {
        after_last_cr(s.drop_last()).push(s.last())
    }
}

/// The byte that ends an ANSI control sequence (`ESC [ ... final`).
pub open spec fn is_csi_final(c: char) -> bool {
    '\u{40}' <= c && c <= '\u{7e}'
}

/// `s` without its ANSI escape sequences: `ESC [` up to and including a final
/// byte, or `ESC` and the one character after it.
pub open spec fn strip_ansi(s: Seq<char>) -> Seq<char>
    decreases s.len(),
{
    if s.len() == 0 {
        s
    } else if s[0] == '\u{1b}' {
        if s.len() >= 2 && s[1] == '[' {
            skip_csi(s.skip(2))
        } else if s.len() >= 2 {
            strip_ansi(s.skip(2))
        } else {
            Seq::<char>::empty()
        }
    } else {
        seq![s[0]] + strip_ansi(s.drop_first())
    }
}

/// What is left of `s`, read from inside a control sequence: its parameters up to
/// the final byte are dropped, and the rest is stripped as usual.
pub open spec fn skip_csi(s: Seq<char>) -> Seq<char>
    decreases s.len(),
{
    if s.len() == 0 {
        s
    } else if is_csi_final(s[0]) {
        strip_ansi(s.drop_first())
    } else {
        skip_csi(s.drop_first())
    }
}

/// A line of winget's output as it would look on a terminal.
pub open spec fn clean(line: Seq<char>) -> Seq<char> {
    strip_ansi(after_last_cr(line))
}

proof fn lemma_after_last_cr_append(x: Seq<char>, y: Seq<char>)
    requires
        forall|k: int| 0 <= k < y.len() ==> y[k] != '\r',
    ensures
        after_last_cr(x + y) == after_last_cr(x) + y,
    decreases y.len(),
{
    if y.len() == 0 {
        assert(x + y =~= x);
        assert(after_last_cr(x) + y =~= after_last_cr(x));
    } else {
        lemma_after_last_cr_append(x, y.drop_last());
        assert((x + y).drop_last() =~= x + y.drop_last());
        assert(after_last_cr(x) + y =~= (after_last_cr(x) + y.drop_last()).push(y.last()));
    }
}

/// Where the last carriage return in `s[start..end]` is followed by the rest.
fn after_last_cr_at(s: &[char], start: usize, end: usize) -> (p: usize)
    requires
        start <= end <= s@.len(),
    ensures
        start <= p <= end,
        s@.subrange(p as int, end as int) == after_last_cr(s@.subrange(start as int, end as int)),
{
    let mut j = end;
    while j > start && s[j - 1] != '\r'
        invariant
            start <= j <= end <= s@.len(),
            forall|k: int| j <= k < end ==> s@[k] != '\r',
        decreases j,
    {
        j = j - 1;
    }
    proof {
        let x = s@.subrange(start as int, j as int);
        let y = s@.subrange(j as int, end as int);
        assert(s@.subrange(start as int, end as int) =~= x + y);
        lemma_after_last_cr_append(x, y);
        if j > start {
            assert(x.last() == '\r');
        }
        assert(after_last_cr(x) + y =~= y);
    }
    j
}

/// `strip_ansi(s[start..end])`.
fn strip_ansi_at(s: &[char], start: usize, end: usize) -> (out: Vec<char>)
    requires
        start <= end <= s@.len(),
    ensures
        out@ == strip_ansi(s@.subrange(start as int, end as int)),
{
    let ghost goal = strip_ansi(s@.subrange(start as int, end as int));
    let mut out: Vec<char> = Vec::new();
    let mut i = start;
    while i < end
        invariant
            start <= i <= end <= s@.len(),
            goal == out@ + strip_ansi(s@.subrange(i as int, end as int)),
        decreases end - i,
    {
        let ghost rest = s@.subrange(i as int, end as int);
        let c = s[i];
        i = i + 1;
        if c == '\u{1b}' {
            if i < end {
                let d = s[i];
                i = i + 1;
                assert(rest.skip(2) =~= s@.subrange(i as int, end as int));
                if d == '[' {
                    let mut in_csi = true;
                    let ghost i0 = i;
                    while in_csi && i < end
                        invariant
                            start <= i0 <= i <= end <= s@.len(),
                            in_csi ==> goal == out@ + skip_csi(
                                s@.subrange(i as int, end as int),
                            ),
                            !in_csi ==> goal == out@ + strip_ansi(
                                s@.subrange(i as int, end as int),
                            ),
                        decreases end - i,
                    {
                        assert(s@.subrange(i as int, end as int).drop_first() =~= s@.subrange(
                            i + 1,
                            end as int,
                        ));
                        let e = s[i];
                        i = i + 1;
                        if '\u{40}' <= e && e <= '\u{7e}' {
                            in_csi = false;
                        }
                    }
                }
            } else {
                assert(rest.len() == 1);
                assert(s@.subrange(i as int, end as int) =~= Seq::<char>::empty());
                assert(out@ + Seq::<char>::empty() =~= out@);
            }
        } else {
            assert(rest.drop_first() =~= s@.subrange(i as int, end as int));
            assert(strip_ansi(rest) == seq![c] + strip_ansi(rest.drop_first()));
            assert(out@ + (seq![c] + strip_ansi(rest.drop_first())) =~= out@.push(c) + strip_ansi(
                rest.drop_first(),
            ));
            out.push(c);
            assert(goal =~= out@ + strip_ansi(s@.subrange(i as int, end as int)));
        }
    }
    assert(out@ + s@.subrange(end as int, end as int) =~= out@);
    out
}

/// `clean(s[start..end])`.
pub fn clean_at(s: &[char], start: usize, end: usize) -> (out: Vec<char>)
    requires
        start <= end <= s@.len(),
    ensures
        out@ == clean(s@.subrange(start as int, end as int)),
{
    let p = after_last_cr_at(s, start, end);
    strip_ansi_at(s, p, end)
}

/// Drop ANSI escape sequences and everything before the last carriage return,
/// which is how winget overwrites its progress spinner in place.
pub fn clean_line(line: &str) -> (r: String)
    ensures
        r@ == clean(line@),
{
    let cs = chars_of(line);
    let out = clean_at(cs.as_slice(), 0, cs.len());
    assert(cs@.subrange(0, cs@.len() as int) =~= cs@);
    string_of(out.as_slice(), 0, out.len())
}


// ------------------------------------------------------------ columns

/// Whether a label of the header `h` begins at its `i`-th character: one other
/// than a space that starts the line or follows a space.
pub open spec fn begins_label(h: Seq<char>, i: int) -> bool {
    &&& 0 <= i < h.len()
    &&& h[i] != ' '
    &&& (i == 0 || h[i - 1] == ' ')
}

/// How many labels the header `h` has: its maximal runs of characters other
/// than a space.
pub open spec fn label_count(h: Seq<char>) -> nat
    decreases h.len(),
{
    if h.len() == 0 {
        0
    } else {
        label_count(h.drop_last()) + if begins_label(h, h.len() - 1) {
            1nat
        } else {
            0nat
        }
    }
}

/// The display offsets at which the labels of the header `h` begin, given the
/// cells `ws` each of its characters takes: one offset per label, the cells
/// taken by everything before it.
pub open spec fn label_starts(h: Seq<char>, ws: Seq<usize>) -> Seq<nat>
    decreases h.len(),
{
    if h.len() == 0 {
        Seq::<nat>::empty()
    } else {
        let i = h.len() - 1;
        let rest = label_starts(h.drop_last(), ws.take(i));
        if begins_label(h, i) {
            rest.push(width_sum(ws.take(i)))
        } else {
            rest
        }
    }
}

/// The display offsets at which the labels of a header line begin. These are
/// the column starts winget aligned its table to.
pub open spec fn column_starts_of(header: Seq<char>) -> Seq<nat> {
    label_starts(header, cells(header))
}

/// The column starts as numbers.
pub open spec fn start_offsets(starts: Seq<u128>) -> Seq<nat> {
    starts.map_values(|x: u128| x as nat)
}

/// How many characters at the start of a row have their first cell before
/// display column `t`, given the cells `ws` each character takes. Offsets only
/// grow along a line, so these are a prefix.
pub open spec fn cells_before(ws: Seq<usize>, t: int) -> nat
    decreases ws.len(),
{
    if ws.len() == 0 {
        0
    } else if width_sum(ws.drop_last()) < t {
        ws.len()
    } else {
        cells_before(ws.drop_last(), t)
    }
}

/// Where column `k` of a row whose characters take the cells `ws` begins:
/// everything before the second column start belongs to the first column, and
/// the last column runs to the end.
pub open spec fn column_cut(ws: Seq<usize>, starts: Seq<nat>, k: int) -> int {
    if k <= 0 {
        0
    } else if k >= starts.len() {
        ws.len() as int
    } else {
        cells_before(ws, starts[k] as int) as int
    }
}

/// The row `s`, whose characters take the cells `ws`, cut at the column starts,
/// each field trimmed. A character belongs to the column its first cell falls
/// in.
pub open spec fn column_fields(s: Seq<char>, ws: Seq<usize>, starts: Seq<nat>) -> Seq<Seq<char>> {
    Seq::new(
        starts.len(),
        |k: int| trim(s.subrange(column_cut(ws, starts, k), column_cut(ws, starts, k + 1))),
    )
}

/// `cells_before(ws, t)` is `i` when the `i`-th character is the first to start
/// at `t` or beyond.
proof fn lemma_cells_before_is(ws: Seq<usize>, t: int, i: int)
    requires
        0 <= i <= ws.len(),
        i == 0 || width_sum(ws.take(i - 1)) < t,
        i == ws.len() || width_sum(ws.take(i)) >= t,
    ensures
        cells_before(ws, t) == i,
    decreases ws.len(),
{
    if ws.len() > 0 {
        let n = ws.len() as int;
        assert(ws.drop_last() =~= ws.take(n - 1));
        if width_sum(ws.drop_last()) < t {
            if i < n {
                lemma_width_sum_take_monotone(ws, i, n - 1);
            }
        } else {
            let w2 = ws.drop_last();
            if i > 0 {
                assert(w2.take(i - 1) =~= ws.take(i - 1));
            }
            if i < n - 1 {
                assert(w2.take(i) =~= ws.take(i));
            }
            lemma_cells_before_is(w2, t, i);
        }
    }
}

proof fn lemma_label_starts_len(h: Seq<char>, ws: Seq<usize>)
    ensures
        label_starts(h, ws).len() == label_count(h),
    decreases h.len(),
{
    if h.len() > 0 {
        assert(h.drop_last().len() == h.len() - 1);
        lemma_label_starts_len(h.drop_last(), ws.take(h.len() - 1));
        assert forall|j: int| 0 <= j < h.len() - 1 implies begins_label(h.drop_last(), j)
            == begins_label(h, j) by {}
        lemma_label_count_prefix(h);
    }
}

proof fn lemma_label_count_prefix(h: Seq<char>)
    requires
        h.len() > 0,
    ensures
        label_count(h) == label_count(h.drop_last()) + if begins_label(h, h.len() - 1) {
            1nat
        } else {
            0nat
        },
{
}

/// The display offsets at which the labels of the header `header` begin, given
/// the cells `widths` each of its characters takes: one start per label, in
/// order. Where every space takes at least one cell, the starts strictly
/// increase.
pub fn label_starts_by_widths(header: &[char], widths: &[usize]) -> (starts: Vec<u128>)
    requires
        widths@.len() == header@.len(),
    ensures
        start_offsets(starts@) == label_starts(header@, widths@),
        starts@.len() == label_count(header@),
        forall|a: int, b: int| 0 <= a <= b < starts@.len() ==> starts@[a] <= starts@[b],
        (forall|i: int| 0 <= i < header@.len() && #[trigger] header@[i] == ' ' ==> widths@[i] > 0)
            ==> forall|a: int, b: int| 0 <= a < b < starts@.len() ==> starts@[a] < starts@[b],
{
    let ghost pos = forall|i: int|
        0 <= i < header@.len() && #[trigger] header@[i] == ' ' ==> widths@[i] > 0;
    let mut starts: Vec<u128> = Vec::new();
    let mut w: u128 = 0;
    let mut prev_space = true;
    let mut i: usize = 0;
    while i < header.len()
        invariant
            i <= header@.len() == widths@.len(),
            w == width_sum(widths@.take(i as int)),
            w <= i * 0xFFFF_FFFF_FFFF_FFFFu128,
            prev_space == (i == 0 || header@[i - 1] == ' '),
            start_offsets(starts@) == label_starts(header@.take(i as int), widths@.take(i as int)),
            forall|a: int, b: int| 0 <= a <= b < starts@.len() ==> starts@[a] <= starts@[b],
            forall|a: int| 0 <= a < starts@.len() ==> starts@[a] <= w,
            pos == forall|j: int|
                0 <= j < header@.len() && #[trigger] header@[j] == ' ' ==> widths@[j] > 0,
            pos ==> forall|a: int, b: int| 0 <= a < b < starts@.len() ==> starts@[a] < starts@[b],
            pos && prev_space ==> forall|a: int| 0 <= a < starts@.len() ==> starts@[a] < w,
        decreases header@.len() - i,
    {
        let c = header[i];
        let ghost hb = header@.take(i as int);
        let ghost h1 = header@.take(i + 1);
        assert(h1.drop_last() =~= hb);
        assert(widths@.take(i + 1).take(i as int) =~= widths@.take(i as int));
        assert(begins_label(h1, i as int) == (c != ' ' && prev_space));
        if c != ' ' && prev_space {
            starts.push(w);
            assert(start_offsets(starts@) =~= start_offsets(starts@.drop_last()).push(w as nat));
            assert(starts@.drop_last() =~= starts@.subrange(0, starts@.len() - 1));
        }
        prev_space = c == ' ';
        proof {
            lemma_width_sum_take_step(widths@, i as int);
        }
        assert(widths@[i as int] <= 0xFFFF_FFFF_FFFF_FFFFu128);
        w = w + widths[i] as u128;
        i = i + 1;
    }
    assert(header@.take(header@.len() as int) =~= header@);
    assert(widths@.take(widths@.len() as int) =~= widths@);
    proof {
        lemma_label_starts_len(header@, widths@);
    }
    starts
}

/// Display-width offsets at which each header label begins. These are the column
/// starts winget aligned the table to; a space takes a cell, so they strictly
/// increase.
fn column_starts(header: &[char]) -> (starts: Vec<u128>)
    ensures
        start_offsets(starts@) == column_starts_of(header@),
        starts@.len() == label_count(header@),
        forall|a: int, b: int| 0 <= a < b < starts@.len() ==> starts@[a] < starts@[b],
{
    let widths = char_widths(header);
    label_starts_by_widths(header, widths.as_slice())
}

/// Cut the row `line`, whose characters take the cells `widths`, at the given
/// display-width offsets, each field trimmed. A character belongs to the column
/// its *first* cell falls in.
pub fn slice_by_widths(line: &[char], widths: &[usize], starts: &[u128]) -> (fields: Vec<String>)
    requires
        widths@.len() == line@.len(),
        starts@.len() >= 1,
        forall|a: int, b: int| 0 <= a <= b < starts@.len() ==> starts@[a] <= starts@[b],
    ensures
        fields@.len() == starts@.len(),
        forall|k: int|
            0 <= k < fields@.len() ==> #[trigger] fields@[k]@ == column_fields(
                line@,
                widths@,
                start_offsets(starts@),
            )[k],
{
    let ghost st = start_offsets(starts@);
    let ghost ws = widths@;
    let n = starts.len();
    let mut fields: Vec<String> = Vec::new();
    let mut i: usize = 0;
    let mut w: u128 = 0;
    let mut col: usize = 0;
    while col < n
        invariant
            n == starts@.len(),
            ws == widths@,
            ws.len() == line@.len(),
            st == start_offsets(starts@),
            forall|a: int, b: int| 0 <= a <= b < starts@.len() ==> starts@[a] <= starts@[b],
            col <= n,
            fields@.len() == col,
            i <= line@.len(),
            i == column_cut(ws, st, col as int),
            col < n ==> w == width_sum(ws.take(i as int)),
            col < n ==> w <= i * 0xFFFF_FFFF_FFFF_FFFFu128,
            col < n ==> (i == 0 || width_sum(ws.take(i - 1)) < starts@[col as int]),
            forall|k: int|
                0 <= k < col ==> #[trigger] fields@[k]@ == column_fields(line@, ws, st)[k],
        decreases n - col,
    {
        let begin = i;
        if col + 1 < n {
            let t = starts[col + 1];
            while i < line.len() && w < t
                invariant
                    begin <= i <= line@.len(),
                    ws == widths@,
                    ws.len() == line@.len(),
                    w == width_sum(ws.take(i as int)),
                    w <= i * 0xFFFF_FFFF_FFFF_FFFFu128,
                    i == 0 || width_sum(ws.take(i - 1)) < t,
                decreases line@.len() - i,
            {
                proof {
                    lemma_width_sum_take_step(ws, i as int);
                }
                assert(ws[i as int] <= 0xFFFF_FFFF_FFFF_FFFFu128);
                w = w + widths[i] as u128;
                i = i + 1;
            }
            proof {
                lemma_cells_before_is(ws, t as int, i as int);
            }
        } else {
            i = line.len();
        }
        let (a, b) = trim_at(line, begin, i);
        let field = string_of(line, a, b);
        fields.push(field);
        proof {
            assert forall|k: int| 0 <= k < col + 1 implies #[trigger] fields@[k]@ == column_fields(
                line@,
                ws,
                st,
            )[k] by {
                if k == col {
                }
            }
        }
        col = col + 1;
    }
    fields
}

/// Cut a row at the given display-width offsets. A character belongs to the
/// column its *first* cell falls in.
fn slice_by_columns(line: &[char], starts: &[u128]) -> (fields: Vec<String>)
    requires
        starts@.len() >= 1,
        forall|a: int, b: int| 0 <= a <= b < starts@.len() ==> starts@[a] <= starts@[b],
    ensures
        fields@.len() == starts@.len(),
        forall|k: int|
            0 <= k < fields@.len() ==> #[trigger] fields@[k]@ == column_fields(
                line@,
                cells(line@),
                start_offsets(starts@),
            )[k],
{
    let widths = char_widths(line);
    slice_by_widths(line, widths.as_slice(), starts)
}


// ------------------------------------------------------------ splitting from the right

/// Where the last white-space character of `s` stands, if it has one.
pub open spec fn last_ws(s: Seq<char>) -> Option<int>
    decreases s.len(),
{
    if s.len() == 0 {
        None
    } else if is_ws(s.last()) {
        Some(s.len() - 1)
    } else {
        last_ws(s.drop_last())
    }
}

/// `rest` (with no trailing white space) read as `k + 1` fields, taking `k` words
/// from the right; whatever is left, which must not be empty, is the first field.
pub open spec fn split_right_from(rest: Seq<char>, k: nat) -> Option<Seq<Seq<char>>>
    decreases k,
{
    if k == 0 {
        if rest.len() == 0 {
            None
        } else {
            Some(seq![rest])
        }
    } else {
        match last_ws(rest) {
            None => None,
            Some(i) => match split_right_from(trim_end(rest.take(i)), (k - 1) as nat) {
                None => None,
                Some(f) => Some(f.push(trim(rest.skip(i)))),
            },
        }
    }
}

/// A row read as `cols` fields from the right: only the leftmost field, the
/// package name, may contain spaces.
pub open spec fn split_right_fields(line: Seq<char>, cols: nat) -> Option<Seq<Seq<char>>> {
    split_right_from(trim_end(line), (cols - 1) as nat)
}

/// Fields found so far, followed by the words already taken from the right
/// (held right to left).
pub open spec fn with_tail(o: Option<Seq<Seq<char>>>, tail: Seq<Seq<char>>) -> Option<
    Seq<Seq<char>>,
> {
    match o {
        Some(f) => Some(f + tail.reverse()),
        None => None,
    }
}

/// The views of a vector of strings.
pub open spec fn string_views(v: Seq<String>) -> Seq<Seq<char>> {
    v.map_values(|s: String| s@)
}

/// The position of the last white-space character in `s[..end]`.
fn rfind_whitespace(s: &[char], end: usize) -> (r: Option<usize>)
    requires
        end <= s@.len(),
    ensures
        match r {
            Some(i) => last_ws(s@.take(end as int)) == Some(i as int) && i < end,
            None => last_ws(s@.take(end as int)) is None,
        },
{
    let mut k = end;
    while k > 0 && !is_whitespace(s[k - 1])
        invariant
            k <= end <= s@.len(),
            last_ws(s@.take(end as int)) == last_ws(s@.take(k as int)),
        decreases k,
    {
        assert(s@.take(k as int).drop_last() =~= s@.take(k - 1));
        k = k - 1;
    }
    if k == 0 {
        None
    } else {
        Some(k - 1)
    }
}

/// Fallback for locales whose header labels contain spaces (English `Pin type`),
/// which would otherwise be read as an extra column. Only the leftmost field —
/// the package name — can contain spaces, so the rest can be taken from the right.
fn split_right(line: &[char], cols: usize) -> (r: Option<Vec<String>>)
    requires
        cols >= 1,
    ensures
        match r {
            Some(f) => split_right_fields(line@, cols as nat) == Some(string_views(f@)),
            None => split_right_fields(line@, cols as nat) is None,
        },
{
    let mut end = trim_end_at(line, 0, line.len());
    assert(line@.subrange(0, line@.len() as int) =~= line@);
    let mut tail: Vec<String> = Vec::with_capacity(cols - 1);
    let mut j: usize = 0;
    assert(string_views(tail@).reverse() =~= Seq::<Seq<char>>::empty());
    assert(line@.subrange(0, end as int) =~= line@.take(end as int));
    while j < cols - 1
        invariant
            j <= cols - 1,
            end <= line@.len(),
            split_right_fields(line@, cols as nat) == with_tail(
                split_right_from(line@.take(end as int), (cols - 1 - j) as nat),
                string_views(tail@),
            ),
        decreases cols - 1 - j,
    {
        let ghost rest = line@.take(end as int);
        let ghost m = (cols - 1 - j) as nat;
        let i = match rfind_whitespace(line, end) {
            Some(i) => i,
            None => {
                return None;
            },
        };
        let (a, b) = trim_at(line, i, end);
        let word = string_of(line, a, b);
        assert(rest.skip(i as int) =~= line@.subrange(i as int, end as int));
        let ghost old_tail = string_views(tail@);
        tail.push(word);
        let new_end = trim_end_at(line, 0, i);
        assert(rest.take(i as int) =~= line@.subrange(0, i as int));
        assert(line@.subrange(0, new_end as int) =~= line@.take(new_end as int));
        proof {
            assert(string_views(tail@) =~= old_tail.push(word@));
            assert(old_tail.push(word@).reverse() =~= seq![word@] + old_tail.reverse());
            match split_right_from(line@.take(new_end as int), (m - 1) as nat) {
                Some(f) => {
                    assert(f.push(word@) + old_tail.reverse() =~= f + (seq![word@]
                        + old_tail.reverse()));
                },
                None => {},
            }
        }
        end = new_end;
        j = j + 1;
    }
    if end == 0 {
        assert(line@.take(0) =~= Seq::<char>::empty());
        return None;
    }
    let mut fields: Vec<String> = Vec::with_capacity(cols);
    fields.push(string_of(line, 0, end));
    assert(line@.subrange(0, end as int) =~= line@.take(end as int));
    let ghost tv = string_views(tail@);
    let mut k = tail.len();
    while k > 0
        invariant
            k <= tail@.len(),
            tv == string_views(tail@),
            string_views(fields@) == seq![line@.take(end as int)] + tv.reverse().take(
                tail@.len() - k,
            ),
        decreases k,
    {
        k = k - 1;
        let ghost before = string_views(fields@);
        let word = tail[k].clone();
        fields.push(word);
        assert(tv.reverse().take(tail@.len() - k) =~= tv.reverse().take(tail@.len() - k - 1).push(
            tv[k as int],
        ));
        assert(string_views(fields@) =~= before.push(tail@[k as int]@));
    }
    assert(tv.reverse().take(tail@.len() as int) =~= tv.reverse());
    Some(fields)
}


// ------------------------------------------------------------ identifiers

/// A character winget identifiers are made of.
pub open spec fn id_char(c: char) -> bool {
    ||| ('a' <= c && c <= 'z')
    ||| ('A' <= c && c <= 'Z')
    ||| ('0' <= c && c <= '9')
    ||| c == '.'
    ||| c == '-'
    ||| c == '_'
    ||| c == '+'
}

/// A usable package identifier: 1 to 256 characters, ASCII letters, digits and
/// `.`, `-`, `_`, `+` only, and not starting with `-`, so that winget can never
/// read one as an option such as `--silent`.
pub open spec fn valid_id(s: Seq<char>) -> bool {
    &&& 0 < s.len() <= 256
    &&& s[0] != '-'
    &&& forall|i: int| 0 <= i < s.len() ==> #[trigger] id_char(s[i])
}

/// winget identifiers are `Publisher.Package` style, or a Store product code.
/// Nothing else is ever passed to a command line, which is also why no quoting
/// is needed when building the upgrade script; one that starts with `-` would
/// be read as an option, so it is refused.
pub fn is_valid_id(id: &str) -> (b: bool)
    ensures
        b == valid_id(id@),
{
    let cs = chars_of(id);
    if cs.len() == 0 || cs.len() > 256 || cs[0] == '-' {
        return false;
    }
    let mut i: usize = 0;
    while i < cs.len()
        invariant
            i <= cs@.len(),
            cs@ == id@,
            forall|k: int| 0 <= k < i ==> #[trigger] id_char(cs@[k]),
        decreases cs@.len() - i,
    {
        let c = cs[i];
        if !(('a' <= c && c <= 'z') || ('A' <= c && c <= 'Z') || ('0' <= c && c <= '9') || c
            == '.' || c == '-' || c == '_' || c == '+') {
            assert(!id_char(cs@[i as int]));
            return false;
        }
        i = i + 1;
    }
    true
}

// ------------------------------------------------------------ tables

/// The line winget draws under a table's header: three or more dashes.
pub open spec fn is_rule(l: Seq<char>) -> bool {
    let t = trim(l);
    &&& t.len() >= 3
    &&& forall|i: int| 0 <= i < t.len() ==> t[i] == '-'
}

/// The index of the first rule among `ls`.
pub open spec fn first_rule(ls: Seq<Seq<char>>) -> Option<int>
    decreases ls.len(),
{
    if ls.len() == 0 {
        None
    } else {
        match first_rule(ls.drop_last()) {
            Some(r) => Some(r),
            None => if is_rule(ls.last()) {
                Some(ls.len() - 1)
            } else {
                None
            },
        }
    }
}

/// The fields of a line under the rule: cut at the header's column starts when
/// the header shows exactly `cols` labels, else split from the right.
pub open spec fn row_fields(l: Seq<char>, starts: Seq<nat>, cols: nat) -> Option<Seq<Seq<char>>> {
    if starts.len() == cols {
        Some(column_fields(l, cells(l), starts))
    } else {
        split_right_fields(l, cols)
    }
}

/// A real row: `cols` fields, a name, and a package identifier in the second
/// field. Summary and warning lines never have one.
pub open spec fn is_row(f: Seq<Seq<char>>, cols: nat) -> bool {
    &&& f.len() == cols
    &&& f[0].len() > 0
    &&& valid_id(f[1])
}

/// The rows among the lines `ls` under a table's rule.
pub open spec fn table_rows(ls: Seq<Seq<char>>, starts: Seq<nat>, cols: nat) -> Seq<Seq<Seq<char>>>
    decreases ls.len(),
{
    if ls.len() == 0 {
        Seq::empty()
    } else {
        let rows = table_rows(ls.drop_last(), starts, cols);
        let l = ls.last();
        if is_blank(l) {
            rows
        } else {
            match row_fields(l, starts, cols) {
                Some(f) => if is_row(f, cols) {
                    rows.push(f)
                } else {
                    rows
                },
                None => rows,
            }
        }
    }
}

/// The lines of winget's output, cleaned.
pub open spec fn cleaned_lines(out: Seq<char>) -> Seq<Seq<char>> {
    lines(out).map_values(|l: Seq<char>| clean(l))
}

/// The table in winget's output `out`, read as rows of `cols` fields. The rule
/// locates it; the line above the rule is the header, and the lines below it
/// hold the rows.
pub open spec fn table(out: Seq<char>, cols: nat) -> Seq<Seq<Seq<char>>> {
    let ls = cleaned_lines(out);
    match first_rule(ls) {
        None => Seq::empty(),
        Some(r) => {
            let starts = if r > 0 {
                column_starts_of(ls[r - 1])
            } else {
                Seq::<nat>::empty()
            };
            table_rows(ls.skip(r + 1), starts, cols)
        },
    }
}

/// Whether a table in `out` has lines with more than white space below its rule.
pub open spec fn has_data_lines(out: Seq<char>) -> bool {
    let ls = cleaned_lines(out);
    match first_rule(ls) {
        None => false,
        Some(r) => exists|j: int| r < j < ls.len() && !is_blank(#[trigger] ls[j]),
    }
}

/// The views of rows of strings.
pub open spec fn rows_view(rows: Seq<Vec<String>>) -> Seq<Seq<Seq<char>>> {
    rows.map_values(|row: Vec<String>| string_views(row@))
}

/// Whether the line `l` is a rule.
fn is_rule_line(l: &[char]) -> (b: bool)
    ensures
        b == is_rule(l@),
{
    let (a, e) = trim_at(l, 0, l.len());
    assert(l@.subrange(0, l@.len() as int) =~= l@);
    let ghost t = l@.subrange(a as int, e as int);
    assert(trim(l@) == t);
    if e - a < 3 {
        return false;
    }
    let mut i = a;
    while i < e
        invariant
            a <= i <= e <= l@.len(),
            t == l@.subrange(a as int, e as int),
            trim(l@) == t,
            forall|k: int| 0 <= k < i - a ==> t[k] == '-',
        decreases e - i,
    {
        if l[i] != '-' {
            assert(t[i - a] != '-');
            assert(!is_rule(l@));
            return false;
        }
        i = i + 1;
    }
    true
}

/// Whether nothing but white space is on the line `l`.
fn is_blank_line(l: &[char]) -> (b: bool)
    ensures
        b == is_blank(l@),
{
    let (a, e) = trim_at(l, 0, l.len());
    assert(l@.subrange(0, l@.len() as int) =~= l@);
    a == e
}

/// The lines of `out`, cleaned.
pub(crate) fn clean_lines(out: &str) -> (ls: Vec<Vec<char>>)
    ensures
        ls@.len() == cleaned_lines(out@).len(),
        forall|k: int| 0 <= k < ls@.len() ==> #[trigger] ls@[k]@ == cleaned_lines(out@)[k],
{
    let cs = chars_of(out);
    let bounds = line_bounds(cs.as_slice());
    let mut ls: Vec<Vec<char>> = Vec::new();
    let mut k: usize = 0;
    while k < bounds.len()
        invariant
            k <= bounds@.len(),
            cs@ == out@,
            bounds@.len() == lines(cs@).len(),
            forall|j: int| 0 <= j < bounds@.len() ==> #[trigger] bounds@[j].0 <= bounds@[j].1 <= cs@.len(),
            forall|j: int|
                0 <= j < bounds@.len() ==> #[trigger] cs@.subrange(
                    bounds@[j].0 as int,
                    bounds@[j].1 as int,
                ) == lines(cs@)[j],
            ls@.len() == k,
            forall|j: int| 0 <= j < k ==> #[trigger] ls@[j]@ == cleaned_lines(out@)[j],
        decreases bounds@.len() - k,
    {
        let (a, b) = bounds[k];
        assert(bounds@[k as int].0 <= bounds@[k as int].1 <= cs@.len());
        let l = clean_at(cs.as_slice(), a, b);
        assert(cs@.subrange(a as int, b as int) == lines(cs@)[k as int]);
        ls.push(l);
        k = k + 1;
    }
    ls
}

/// Read a winget table into `cols` fields per row.
///
/// The table is located by its `-----` rule; the line above it is the header and
/// everything below it is data. Trailing summary lines ("7 upgrades available.")
/// sit directly under the rows with no blank line between, so rows are validated
/// by their identifier column rather than by position.
///
/// A row has a name and an identifier, so `cols` is at least 2 whenever there
/// are lines to read.
pub fn parse_table(out: &str, cols: usize) -> (rows: Vec<Vec<String>>)
    requires
        cols >= 2 || !has_data_lines(out@),
    ensures
        rows_view(rows@) == table(out@, cols as nat),
        forall|k: int| 0 <= k < rows@.len() ==> is_row(#[trigger] string_views(rows@[k]@), cols as nat),
{
    let ls = clean_lines(out);
    let ghost lsv = cleaned_lines(out@);
    assert(ls@.map_values(|l: Vec<char>| l@) =~= lsv);
    let n = ls.len();
    let mut rule: Option<usize> = None;
    let mut k: usize = 0;
    while k < n
        invariant
            k <= n == ls@.len() == lsv.len(),
            forall|j: int| 0 <= j < n ==> #[trigger] ls@[j]@ == lsv[j],
            match rule {
                Some(r) => first_rule(lsv.take(k as int)) == Some(r as int) && r < k,
                None => first_rule(lsv.take(k as int)) is None,
            },
        decreases n - k,
    {
        assert(lsv.take(k + 1).drop_last() =~= lsv.take(k as int));
        if rule.is_none() && is_rule_line(ls[k].as_slice()) {
            rule = Some(k);
        }
        k = k + 1;
    }
    assert(lsv.take(n as int) =~= lsv);
    let r = match rule {
        None => {
            return Vec::new();
        },
        Some(r) => r,
    };
    let starts = if r > 0 {
        column_starts(ls[r - 1].as_slice())
    } else {
        Vec::new()
    };
    let ghost st = start_offsets(starts@);
    assert(st == if r > 0 {
        column_starts_of(lsv[r - 1])
    } else {
        Seq::<nat>::empty()
    });
    let by_column = starts.len() == cols;
    let ghost below = lsv.skip(r + 1);
    let mut rows: Vec<Vec<String>> = Vec::new();
    let mut k = r + 1;
    assert(below.take(0) =~= Seq::<Seq<char>>::empty());
    while k < n
        invariant
            r < k <= n == ls@.len() == lsv.len(),
            forall|j: int| 0 <= j < n ==> #[trigger] ls@[j]@ == lsv[j],
            below == lsv.skip(r + 1),
            st == start_offsets(starts@),
            forall|a: int, b: int| 0 <= a <= b < starts@.len() ==> starts@[a] <= starts@[b],
            by_column == (starts@.len() == cols),
            cols >= 2 || forall|j: int| r < j < n ==> is_blank(#[trigger] lsv[j]),
            rows_view(rows@) == table_rows(below.take(k - r - 1), st, cols as nat),
            forall|j: int| 0 <= j < rows@.len() ==> is_row(#[trigger] string_views(rows@[j]@), cols as nat),
        decreases n - k,
    {
        let ghost prefix = below.take(k - r - 1);
        assert(below.take(k - r).drop_last() =~= prefix);
        assert(below.take(k - r).last() == lsv[k as int]);
        let l = ls[k].as_slice();
        let ghost rows0 = rows@;
        if !is_blank_line(l) {
            assert(cols >= 2);
            let fields = if by_column {
                let f = slice_by_columns(l, starts.as_slice());
                assert(string_views(f@) =~= column_fields(l@, cells(l@), st));
                Some(f)
            } else {
                split_right(l, cols)
            };
            if let Some(f) = fields {
                if f.len() == cols && !f[0].as_str().is_empty() && is_valid_id(f[1].as_str()) {
                    rows.push(f);
                    assert(rows_view(rows@) =~= rows_view(rows0).push(string_views(f@)));
                }
            }
        }
        k = k + 1;
    }
    assert(below.take(n - r - 1) =~= below);
    rows
}


// ------------------------------------------------------------ laws

proof fn lemma_after_last_cr_has_no_cr(s: Seq<char>)
    ensures
        forall|i: int| 0 <= i < after_last_cr(s).len() ==> after_last_cr(s)[i] != '\r',
    decreases s.len(),
{
    if s.len() > 0 && s.last() != '\r' {
        lemma_after_last_cr_has_no_cr(s.drop_last());
        let a = after_last_cr(s.drop_last());
        assert(after_last_cr(s) == a.push(s.last()));
        assert forall|i: int| 0 <= i < after_last_cr(s).len() implies after_last_cr(s)[i] != '\r' by {
            if i < a.len() {
                assert(after_last_cr(s)[i] == a[i]);
            }
        }
    }
}

proof fn lemma_strip_ansi_has_no_cr_or_escape(s: Seq<char>)
    requires
        forall|i: int| 0 <= i < s.len() ==> s[i] != '\r',
    ensures
        forall|i: int|
            0 <= i < strip_ansi(s).len() ==> strip_ansi(s)[i] != '\r' && strip_ansi(s)[i]
                != '\u{1b}',
    decreases s.len(), 1nat,
{
    if s.len() > 0 {
        if s[0] == '\u{1b}' {
            if s.len() >= 2 {
                assert forall|i: int| 0 <= i < s.skip(2).len() implies s.skip(2)[i] != '\r' by {
                    assert(s.skip(2)[i] == s[i + 2]);
                }
            }
            if s.len() >= 2 && s[1] == '[' {
                lemma_skip_csi_has_no_cr_or_escape(s.skip(2));
                assert(strip_ansi(s) == skip_csi(s.skip(2)));
            } else if s.len() >= 2 {
                lemma_strip_ansi_has_no_cr_or_escape(s.skip(2));
                assert(strip_ansi(s) == strip_ansi(s.skip(2)));
            } else {
                assert(strip_ansi(s).len() == 0);
            }
        } else {
            assert forall|i: int| 0 <= i < s.drop_first().len() implies s.drop_first()[i] != '\r' by {
                assert(s.drop_first()[i] == s[i + 1]);
            }
            lemma_strip_ansi_has_no_cr_or_escape(s.drop_first());
            let r = strip_ansi(s.drop_first());
            assert forall|i: int| 0 <= i < strip_ansi(s).len() implies strip_ansi(s)[i] != '\r'
                && strip_ansi(s)[i] != '\u{1b}' by {
                if i > 0 {
                    assert(strip_ansi(s)[i] == r[i - 1]);
                }
            }
        }
    }
}

proof fn lemma_skip_csi_has_no_cr_or_escape(s: Seq<char>)
    requires
        forall|i: int| 0 <= i < s.len() ==> s[i] != '\r',
    ensures
        forall|i: int|
            0 <= i < skip_csi(s).len() ==> skip_csi(s)[i] != '\r' && skip_csi(s)[i] != '\u{1b}',
    decreases s.len(), 0nat,
{
    if s.len() > 0 {
        assert forall|i: int| 0 <= i < s.drop_first().len() implies s.drop_first()[i] != '\r' by {
            assert(s.drop_first()[i] == s[i + 1]);
        }
        if is_csi_final(s[0]) {
            lemma_strip_ansi_has_no_cr_or_escape(s.drop_first());
            assert(skip_csi(s) == strip_ansi(s.drop_first()));
        } else {
            lemma_skip_csi_has_no_cr_or_escape(s.drop_first());
            assert(skip_csi(s) == skip_csi(s.drop_first()));
        }
    }
}

/// A cleaned line holds no carriage return and no escape character: nothing of
/// the spinner's redrawing or of the terminal colours is left.
pub proof fn lemma_clean_has_no_cr_or_escape(line: Seq<char>)
    ensures
        forall|i: int|
            0 <= i < clean(line).len() ==> clean(line)[i] != '\r' && clean(line)[i] != '\u{1b}',
{
    lemma_after_last_cr_has_no_cr(line);
    lemma_strip_ansi_has_no_cr_or_escape(after_last_cr(line));
}

/// Trimming the end leaves a prefix that ends in something other than white
/// space, or nothing.
pub proof fn lemma_trim_end_ends_in_non_ws(s: Seq<char>)
    ensures
        trim_end(s).len() == 0 || !is_ws(trim_end(s).last()),
        trim_end(s).len() <= s.len(),
        trim_end(s) == s.take(trim_end(s).len() as int),
    decreases s.len(),
{
    if s.len() > 0 && is_ws(s.last()) {
        lemma_trim_end_ends_in_non_ws(s.drop_last());
        assert(s.drop_last().take(trim_end(s).len() as int) =~= s.take(trim_end(s).len() as int));
    } else {
        assert(s.take(s.len() as int) =~= s);
    }
}

/// `last_ws` finds the last white space, when there is one.
pub proof fn lemma_last_ws_is_last(s: Seq<char>)
    ensures
        match last_ws(s) {
            Some(i) => 0 <= i < s.len() && is_ws(s[i]) && forall|j: int|
                i < j < s.len() ==> !is_ws(#[trigger] s[j]),
            None => forall|j: int| 0 <= j < s.len() ==> !is_ws(#[trigger] s[j]),
        },
    decreases s.len(),
{
    if s.len() > 0 && !is_ws(s.last()) {
        lemma_last_ws_is_last(s.drop_last());
        assert forall|j: int| 0 <= j < s.len() - 1 implies s[j] == s.drop_last()[j] by {}
    }
}

proof fn lemma_trim_of_word(w: Seq<char>)
    requires
        forall|j: int| 0 <= j < w.len() ==> !is_ws(#[trigger] w[j]),
    ensures
        trim(w) == w,
{
    if w.len() > 0 {
        assert(crate::text::trim_start(w) == w);
    }
}

proof fn lemma_split_right_from_words(rest: Seq<char>, k: nat)
    requires
        rest.len() == 0 || !is_ws(rest.last()),
    ensures
        split_right_from(rest, k) matches Some(f) ==> f.len() == k + 1 && f[0].len() > 0 && forall|
            i: int,
        |
            1 <= i < f.len() ==> (#[trigger] f[i]).len() > 0 && forall|j: int|
                0 <= j < f[i].len() ==> !is_ws(#[trigger] f[i][j]),
    decreases k,
{
    if k > 0 {
        lemma_last_ws_is_last(rest);
        if let Some(i) = last_ws(rest) {
            let left = trim_end(rest.take(i));
            lemma_trim_end_ends_in_non_ws(rest.take(i));
            lemma_split_right_from_words(left, (k - 1) as nat);
            let tail = rest.skip(i + 1);
            assert forall|j: int| 0 <= j < tail.len() implies !is_ws(#[trigger] tail[j]) by {
                assert(tail[j] == rest[i + 1 + j]);
            }
            assert(i < rest.len() - 1);
            assert(crate::text::trim_start(rest.skip(i)) == crate::text::trim_start(tail)) by {
                assert(rest.skip(i).drop_first() =~= tail);
            }
            lemma_trim_of_word(tail);
            assert(tail.len() > 0);
            assert(crate::text::trim_end(tail) == tail);
            if let Some(f) = split_right_from(left, (k - 1) as nat) {
                let g = f.push(trim(rest.skip(i)));
                assert(trim(rest.skip(i)) == tail);
                assert forall|m: int| 1 <= m < g.len() implies (#[trigger] g[m]).len() > 0
                    && forall|j: int| 0 <= j < g[m].len() ==> !is_ws(#[trigger] g[m][j]) by {
                    if m < f.len() {
                        assert(g[m] == f[m]);
                    }
                }
            }
        }
    }
}

/// Splitting from the right leaves spaces only in the first field, the package
/// name: every other field is one non-empty word.
pub proof fn lemma_split_right_only_name_has_spaces(line: Seq<char>, cols: nat)
    requires
        cols >= 1,
    ensures
        split_right_fields(line, cols) matches Some(f) ==> f.len() == cols && f[0].len() > 0
            && forall|i: int|
            1 <= i < f.len() ==> (#[trigger] f[i]).len() > 0 && forall|j: int|
                0 <= j < f[i].len() ==> !is_ws(#[trigger] f[i][j]),
{
    lemma_trim_end_ends_in_non_ws(line);
    lemma_split_right_from_words(trim_end(line), (cols - 1) as nat);
}

/// Output without a `-----` rule holds no table, and so no rows: an empty pin
/// list, or a message in its place, reads as nothing.
pub proof fn lemma_no_rule_no_rows(out: Seq<char>, cols: nat)
    requires
        forall|i: int| 0 <= i < cleaned_lines(out).len() ==> !is_rule(#[trigger] cleaned_lines(out)[i]),
    ensures
        table(out, cols).len() == 0,
{
    lemma_first_rule_is_rule(cleaned_lines(out));
}

proof fn lemma_first_rule_is_rule(ls: Seq<Seq<char>>)
    ensures
        first_rule(ls) matches Some(r) ==> 0 <= r < ls.len() && is_rule(ls[r]),
    decreases ls.len(),
{
    if ls.len() > 0 {
        lemma_first_rule_is_rule(ls.drop_last());
    }
}

proof fn lemma_cells_before_bounded(ws: Seq<usize>, t: int)
    ensures
        cells_before(ws, t) <= ws.len(),
    decreases ws.len(),
{
    if ws.len() > 0 {
        lemma_cells_before_bounded(ws.drop_last(), t);
    }
}

proof fn lemma_cells_before_monotone(ws: Seq<usize>, t1: int, t2: int)
    requires
        t1 <= t2,
    ensures
        cells_before(ws, t1) <= cells_before(ws, t2),
    decreases ws.len(),
{
    if ws.len() > 0 {
        lemma_cells_before_bounded(ws.drop_last(), t1);
        lemma_cells_before_monotone(ws.drop_last(), t1, t2);
    }
}

/// The characters before `cells_before(ws, t)` start before display column
/// `t`, and the rest at `t` or beyond.
proof fn lemma_cells_before_splits(ws: Seq<usize>, t: int, j: int)
    requires
        0 <= j < ws.len(),
    ensures
        j < cells_before(ws, t) <==> width_sum(ws.take(j)) < t,
    decreases ws.len(),
{
    let n = ws.len() as int;
    assert(ws.drop_last() =~= ws.take(n - 1));
    if width_sum(ws.drop_last()) < t {
        lemma_width_sum_take_monotone(ws, j, n - 1);
    } else if j == n - 1 {
        lemma_cells_before_bounded(ws.drop_last(), t);
    } else {
        lemma_cells_before_splits(ws.drop_last(), t, j);
        assert(ws.drop_last().take(j) =~= ws.take(j));
    }
}

/// Cutting a row at ordered column starts loses no character and takes none
/// twice: the cuts run from the start of the line to its end without going
/// back, so the pieces between them make up the line, and each character lands
/// in the column its first cell falls in: at or after that column's start
/// (the first column takes everything before the second start), and before the
/// next column's start (the last column runs to the end).
pub proof fn lemma_column_cuts_cover_the_line(ws: Seq<usize>, starts: Seq<nat>, k: int)
    requires
        forall|a: int, b: int| 0 <= a <= b < starts.len() ==> starts[a] <= starts[b],
        0 <= k < starts.len(),
    ensures
        column_cut(ws, starts, 0) == 0,
        column_cut(ws, starts, starts.len() as int) == ws.len(),
        0 <= column_cut(ws, starts, k) <= column_cut(ws, starts, k + 1) <= ws.len(),
        forall|j: int|
            column_cut(ws, starts, k) <= j < column_cut(ws, starts, k + 1) ==> (k == 0
                || width_sum(#[trigger] ws.take(j)) >= starts[k]) && (k == starts.len() - 1
                || width_sum(ws.take(j)) < starts[k + 1]),
{
    if k >= 1 {
        lemma_cells_before_bounded(ws, starts[k] as int);
    }
    if k + 1 < starts.len() {
        lemma_cells_before_bounded(ws, starts[k + 1] as int);
        if k >= 1 {
            lemma_cells_before_monotone(ws, starts[k] as int, starts[k + 1] as int);
        }
    }
    assert forall|j: int|
        column_cut(ws, starts, k) <= j < column_cut(ws, starts, k + 1) implies (k == 0
            || width_sum(#[trigger] ws.take(j)) >= starts[k]) && (k == starts.len() - 1
            || width_sum(ws.take(j)) < starts[k + 1]) by {
        if k >= 1 {
            lemma_cells_before_splits(ws, starts[k] as int, j);
        }
        if k + 1 < starts.len() {
            lemma_cells_before_splits(ws, starts[k + 1] as int, j);
        }
    }
}

/// A text with no carriage return and no escape character in it.
pub open spec fn plain(s: Seq<char>) -> bool {
    forall|i: int| 0 <= i < s.len() ==> s[i] != '\r' && s[i] != '\u{1b}'
}

proof fn lemma_plain_subrange(s: Seq<char>, a: int, b: int)
    requires
        plain(s),
        0 <= a <= b <= s.len(),
    ensures
        plain(s.subrange(a, b)),
{
    assert forall|i: int| 0 <= i < b - a implies s.subrange(a, b)[i] != '\r' && s.subrange(a, b)[i]
        != '\u{1b}' by {
        assert(s.subrange(a, b)[i] == s[a + i]);
    }
}

proof fn lemma_plain_trim_start(s: Seq<char>)
    requires
        plain(s),
    ensures
        plain(trim_start(s)),
    decreases s.len(),
{
    if s.len() > 0 && is_ws(s[0]) {
        lemma_plain_subrange(s, 1, s.len() as int);
        assert(s.drop_first() =~= s.subrange(1, s.len() as int));
        lemma_plain_trim_start(s.drop_first());
    }
}

proof fn lemma_plain_trim_end(s: Seq<char>)
    requires
        plain(s),
    ensures
        plain(trim_end(s)),
    decreases s.len(),
{
    if s.len() > 0 && is_ws(s.last()) {
        lemma_plain_subrange(s, 0, s.len() - 1);
        assert(s.drop_last() =~= s.subrange(0, s.len() - 1));
        lemma_plain_trim_end(s.drop_last());
    }
}

proof fn lemma_plain_trim(s: Seq<char>)
    requires
        plain(s),
    ensures
        plain(trim(s)),
{
    lemma_plain_trim_start(s);
    lemma_plain_trim_end(trim_start(s));
}

proof fn lemma_plain_split_right_from(rest: Seq<char>, k: nat)
    requires
        plain(rest),
    ensures
        split_right_from(rest, k) matches Some(f) ==> forall|m: int|
            0 <= m < f.len() ==> plain(#[trigger] f[m]),
    decreases k,
{
    if k > 0 {
        if let Some(i) = last_ws(rest) {
            lemma_last_ws_is_last(rest);
            lemma_plain_subrange(rest, 0, i);
            assert(rest.take(i) =~= rest.subrange(0, i));
            lemma_plain_trim_end(rest.take(i));
            lemma_plain_split_right_from(trim_end(rest.take(i)), (k - 1) as nat);
            lemma_plain_subrange(rest, i, rest.len() as int);
            assert(rest.skip(i) =~= rest.subrange(i, rest.len() as int));
            lemma_plain_trim(rest.skip(i));
            if let Some(f) = split_right_from(trim_end(rest.take(i)), (k - 1) as nat) {
                let g = f.push(trim(rest.skip(i)));
                assert forall|m: int| 0 <= m < g.len() implies plain(#[trigger] g[m]) by {
                    if m < f.len() {
                        assert(g[m] == f[m]);
                    }
                }
            }
        }
    }
}

proof fn lemma_plain_row_fields(l: Seq<char>, starts: Seq<nat>, cols: nat)
    requires
        plain(l),
        forall|a: int, b: int| 0 <= a <= b < starts.len() ==> starts[a] <= starts[b],
    ensures
        row_fields(l, starts, cols) matches Some(f) ==> forall|m: int|
            0 <= m < f.len() ==> plain(#[trigger] f[m]),
{
    if starts.len() == cols {
        let f = column_fields(l, cells(l), starts);
        assert forall|m: int| 0 <= m < f.len() implies plain(#[trigger] f[m]) by {
            let a = column_cut(cells(l), starts, m);
            let b = column_cut(cells(l), starts, m + 1);
            lemma_column_cuts_cover_the_line(cells(l), starts, m);
            lemma_plain_subrange(l, a, b);
            lemma_plain_trim(l.subrange(a, b));
        }
    } else {
        lemma_plain_trim_end(l);
        lemma_plain_split_right_from(trim_end(l), (cols - 1) as nat);
    }
}

proof fn lemma_table_rows_plain(ls: Seq<Seq<char>>, starts: Seq<nat>, cols: nat)
    requires
        forall|i: int| 0 <= i < ls.len() ==> plain(#[trigger] ls[i]),
        forall|a: int, b: int| 0 <= a <= b < starts.len() ==> starts[a] <= starts[b],
    ensures
        table_rows(ls, starts, cols).len() <= ls.len(),
        forall|r: int, m: int|
            0 <= r < table_rows(ls, starts, cols).len() && 0 <= m < table_rows(
                ls,
                starts,
                cols,
            )[r].len() ==> plain(#[trigger] table_rows(ls, starts, cols)[r][m]),
    decreases ls.len(),
{
    if ls.len() > 0 {
        let rest = ls.drop_last();
        assert forall|i: int| 0 <= i < rest.len() implies plain(#[trigger] rest[i]) by {
            assert(rest[i] == ls[i]);
        }
        lemma_table_rows_plain(rest, starts, cols);
        assert(plain(ls[ls.len() - 1]));
        lemma_plain_row_fields(ls.last(), starts, cols);
        let prev = table_rows(rest, starts, cols);
        let now = table_rows(ls, starts, cols);
        assert forall|r: int, m: int| 0 <= r < now.len() && 0 <= m < now[r].len() implies plain(
            #[trigger] now[r][m],
        ) by {
            if r < prev.len() {
                assert(now[r] == prev[r]);
            }
        }
    }
}

/// Every field of every row read from winget's output is free of carriage
/// returns and escape characters, and a table has no more rows than there are
/// lines under its rule: each line gives at most one row, and summary and
/// warning lines give none.
pub proof fn lemma_table_rows_are_clean(out: Seq<char>, cols: nat)
    ensures
        forall|r: int, m: int|
            0 <= r < table(out, cols).len() && 0 <= m < table(out, cols)[r].len() ==> plain(
                #[trigger] table(out, cols)[r][m],
            ),
        match first_rule(cleaned_lines(out)) {
            Some(r) => table(out, cols).len() <= cleaned_lines(out).len() - r - 1,
            None => table(out, cols).len() == 0,
        },
{
    let ls = cleaned_lines(out);
    lemma_first_rule_is_rule(ls);
    if let Some(r) = first_rule(ls) {
        let starts = if r > 0 {
            column_starts_of(ls[r - 1])
        } else {
            Seq::<nat>::empty()
        };
        let below = ls.skip(r + 1);
        assert forall|i: int| 0 <= i < below.len() implies plain(#[trigger] below[i]) by {
            assert(below[i] == ls[r + 1 + i]);
            assert(ls[r + 1 + i] == clean(lines(out)[r + 1 + i]));
            lemma_clean_has_no_cr_or_escape(lines(out)[r + 1 + i]);
        }
        if r > 0 {
            lemma_column_starts_sorted(ls[r - 1]);
        }
        lemma_table_rows_plain(below, starts, cols);
    }
}

proof fn lemma_label_starts_sorted(h: Seq<char>, ws: Seq<usize>)
    requires
        ws.len() == h.len(),
    ensures
        forall|a: int, b: int|
            0 <= a <= b < label_starts(h, ws).len() ==> label_starts(h, ws)[a] <= label_starts(
                h,
                ws,
            )[b],
        forall|a: int| 0 <= a < label_starts(h, ws).len() ==> label_starts(h, ws)[a] <= width_sum(
            ws.take(h.len() as int),
        ),
    decreases h.len(),
{
    if h.len() > 0 {
        let i = h.len() - 1;
        lemma_label_starts_sorted(h.drop_last(), ws.take(i));
        assert(ws.take(i).take(i) =~= ws.take(i));
        assert(ws.take(h.len() as int) =~= ws);
        lemma_width_sum_take_monotone(ws, i, i + 1);
        let prev = label_starts(h.drop_last(), ws.take(i));
        let now = label_starts(h, ws);
        let top = width_sum(ws.take(i));
        assert(forall|a: int| 0 <= a < prev.len() ==> prev[a] <= top);
        assert(top <= width_sum(ws.take(h.len() as int)));
        if begins_label(h, i) {
            assert(now == prev.push(top));
            assert forall|a: int, b: int| 0 <= a <= b < now.len() implies now[a] <= now[b] by {
                if b == prev.len() {
                    if a < prev.len() {
                        assert(now[a] == prev[a]);
                    }
                } else {
                    assert(now[a] == prev[a] && now[b] == prev[b]);
                }
            }
            assert forall|a: int| 0 <= a < now.len() implies now[a] <= width_sum(
                ws.take(h.len() as int),
            ) by {
                if a < prev.len() {
                    assert(now[a] == prev[a]);
                }
            }
        } else {
            assert(now == prev);
        }
    }
}

proof fn lemma_column_starts_sorted(h: Seq<char>)
    ensures
        forall|a: int, b: int|
            0 <= a <= b < column_starts_of(h).len() ==> column_starts_of(h)[a]
                <= column_starts_of(h)[b],
{
    lemma_label_starts_sorted(h, cells(h));
}

/// Whether the characters of `a` occur in `b` in the same order, perhaps with
/// others between them.
pub open spec fn subsequence(a: Seq<char>, b: Seq<char>) -> bool
    decreases b.len(),
{
    if a.len() == 0 {
        true
    } else if b.len() == 0 {
        false
    } else if a[0] == b[0] {
        subsequence(a.drop_first(), b.drop_first())
    } else {
        subsequence(a, b.drop_first())
    }
}

proof fn lemma_subsequence_before(a: Seq<char>, b: Seq<char>, c: char)
    requires
        subsequence(a, b),
    ensures
        subsequence(a, seq![c] + b),
    decreases b.len(), 1nat,
{
    let cb = seq![c] + b;
    assert(cb.drop_first() =~= b);
    if a.len() > 0 && a[0] == c {
        lemma_subsequence_drop_first(a, b);
    }
}

proof fn lemma_subsequence_drop_first(a: Seq<char>, b: Seq<char>)
    requires
        subsequence(a, b),
        a.len() > 0,
    ensures
        subsequence(a.drop_first(), b),
    decreases b.len(), 0nat,
{
    if b.len() > 0 {
        assert(seq![b[0]] + b.drop_first() =~= b);
        if a[0] == b[0] {
            lemma_subsequence_before(a.drop_first(), b.drop_first(), b[0]);
        } else {
            lemma_subsequence_drop_first(a, b.drop_first());
            lemma_subsequence_before(a.drop_first(), b.drop_first(), b[0]);
        }
    }
}

proof fn lemma_subsequence_after(a: Seq<char>, x: Seq<char>, b: Seq<char>)
    requires
        subsequence(a, b),
    ensures
        subsequence(a, x + b),
    decreases x.len(),
{
    if x.len() > 0 {
        lemma_subsequence_after(a, x.drop_first(), b);
        assert(seq![x[0]] + (x.drop_first() + b) =~= x + b);
        lemma_subsequence_before(a, x.drop_first() + b, x[0]);
    }
}

proof fn lemma_strip_ansi_subsequence(s: Seq<char>)
    ensures
        subsequence(strip_ansi(s), s),
    decreases s.len(), 1nat,
{
    if s.len() > 0 {
        if s[0] == '\u{1b}' {
            if s.len() >= 2 {
                assert(s.take(2) + s.skip(2) =~= s);
                if s[1] == '[' {
                    lemma_skip_csi_subsequence(s.skip(2));
                } else {
                    lemma_strip_ansi_subsequence(s.skip(2));
                }
                lemma_subsequence_after(strip_ansi(s), s.take(2), s.skip(2));
            }
        } else {
            lemma_strip_ansi_subsequence(s.drop_first());
            let r = strip_ansi(s);
            assert(r == seq![s[0]] + strip_ansi(s.drop_first()));
            assert(r.drop_first() =~= strip_ansi(s.drop_first()));
        }
    }
}

proof fn lemma_skip_csi_subsequence(s: Seq<char>)
    ensures
        subsequence(skip_csi(s), s),
    decreases s.len(), 0nat,
{
    if s.len() > 0 {
        assert(seq![s[0]] + s.drop_first() =~= s);
        if is_csi_final(s[0]) {
            lemma_strip_ansi_subsequence(s.drop_first());
        } else {
            lemma_skip_csi_subsequence(s.drop_first());
        }
        lemma_subsequence_before(skip_csi(s), s.drop_first(), s[0]);
    }
}

proof fn lemma_after_last_cr_is_tail(s: Seq<char>)
    ensures
        after_last_cr(s).len() <= s.len(),
        after_last_cr(s) == s.skip(s.len() - after_last_cr(s).len()),
        after_last_cr(s).len() == s.len() || s[s.len() - after_last_cr(s).len() - 1] == '\r',
    decreases s.len(),
{
    if s.len() > 0 && s.last() != '\r' {
        lemma_after_last_cr_is_tail(s.drop_last());
        let t = after_last_cr(s.drop_last());
        assert(s.skip(s.len() - t.len() - 1) =~= s.drop_last().skip(s.len() - 1 - t.len()).push(
            s.last(),
        ));
    } else if s.len() > 0 {
        assert(s.skip(s.len() as int) =~= Seq::<char>::empty());
    }
}

/// A cleaned line is what follows the line's last carriage return (all of it
/// when it has none), with escape sequences taken out: its characters are those
/// of that tail, in order, and it holds no carriage return or escape.
pub proof fn lemma_clean_keeps_the_last_redraw(line: Seq<char>)
    ensures
        ({
            let tail = after_last_cr(line);
            &&& tail == line.skip(line.len() - tail.len())
            &&& (tail.len() == line.len() || line[line.len() - tail.len() - 1] == '\r')
            &&& forall|i: int| 0 <= i < tail.len() ==> tail[i] != '\r'
            &&& subsequence(clean(line), tail)
            &&& plain(clean(line))
        }),
{
    lemma_after_last_cr_is_tail(line);
    lemma_after_last_cr_has_no_cr(line);
    lemma_strip_ansi_subsequence(after_last_cr(line));
    lemma_clean_has_no_cr_or_escape(line);
}

/// The words of `s`, as `str::split_whitespace` gives them: its maximal runs of
/// characters other than white space, in order.
pub open spec fn words(s: Seq<char>) -> Seq<Seq<char>>
    decreases s.len(),
{
    let t = trim_end(s);
    if t.len() == 0 {
        Seq::empty()
    } else {
        match last_ws(t) {
            None => seq![t],
            Some(i) => {
                proof {
                    lemma_trim_end_ends_in_non_ws(s);
                    lemma_last_ws_is_last(t);
                }
                words(t.take(i)).push(t.skip(i + 1))
            },
        }
    }
}

proof fn lemma_trim_end_twice(s: Seq<char>)
    ensures
        trim_end(trim_end(s)) == trim_end(s),
{
    lemma_trim_end_ends_in_non_ws(s);
}

proof fn lemma_words_trim_end(s: Seq<char>)
    ensures
        words(trim_end(s)) == words(s),
{
    lemma_trim_end_twice(s);
}

proof fn lemma_split_right_from_words_law(rest: Seq<char>, k: nat)
    requires
        rest.len() == 0 || !is_ws(rest.last()),
    ensures
        (split_right_from(rest, k) is Some) == (words(rest).len() >= k + 1),
        split_right_from(rest, k) matches Some(f) ==> {
            &&& f.len() == k + 1
            &&& 0 < f[0].len() <= rest.len()
            &&& f[0] == rest.take(f[0].len() as int)
            &&& words(rest) == words(f[0]) + f.skip(1)
        },
    decreases k,
{
    assert(trim_end(rest) == rest);
    lemma_last_ws_is_last(rest);
    if k == 0 {
        if rest.len() > 0 {
            assert(rest.take(rest.len() as int) =~= rest);
            let f = seq![rest];
            assert(f.skip(1) =~= Seq::<Seq<char>>::empty());
            assert(words(rest) + f.skip(1) =~= words(rest));
        }
    } else {
        match last_ws(rest) {
            None => {},
            Some(i) => {
                let left = trim_end(rest.take(i));
                lemma_trim_end_ends_in_non_ws(rest.take(i));
                lemma_words_trim_end(rest.take(i));
                lemma_split_right_from_words_law(left, (k - 1) as nat);
                let w = rest.skip(i + 1);
                assert(words(rest) == words(rest.take(i)).push(w));
                let tail = rest.skip(i);
                assert forall|j: int| 0 <= j < w.len() implies !is_ws(#[trigger] w[j]) by {
                    assert(w[j] == rest[i + 1 + j]);
                }
                assert(trim_start(tail) == trim_start(w)) by {
                    assert(tail.drop_first() =~= w);
                }
                lemma_trim_of_word(w);
                assert(trim(tail) == w);
                if let Some(g) = split_right_from(left, (k - 1) as nat) {
                    let f = g.push(trim(tail));
                    assert(f[0] == g[0]);
                    assert(f.skip(1) =~= g.skip(1).push(w));
                    assert(words(rest) =~= words(f[0]) + f.skip(1));
                    assert(left == rest.take(i).take(left.len() as int));
                    assert(g[0].len() <= left.len() <= i);
                    assert(g[0] == left.take(g[0].len() as int));
                    assert(f[0] =~= rest.take(f[0].len() as int));
                }
            },
        }
    }
}

/// A row split from the right succeeds exactly when it has at least `cols`
/// words. Then its last `cols - 1` words, in order, are the fields after the
/// first, and the first field, the name, is the start of the row up to them,
/// without trailing white space: it holds the remaining words.
pub proof fn lemma_split_right_takes_words(line: Seq<char>, cols: nat)
    requires
        cols >= 1,
    ensures
        (split_right_fields(line, cols) is Some) == (words(line).len() >= cols),
        split_right_fields(line, cols) matches Some(f) ==> {
            &&& f.len() == cols
            &&& f.skip(1) == words(line).skip(words(line).len() - (cols - 1))
            &&& words(f[0]) == words(line).take(words(line).len() - (cols - 1))
            &&& f[0].len() > 0
            &&& f[0] == line.take(f[0].len() as int)
            &&& f[0].len() == 0 || !is_ws(f[0].last())
        },
{
    let rest = trim_end(line);
    lemma_trim_end_ends_in_non_ws(line);
    lemma_words_trim_end(line);
    lemma_split_right_from_words_law(rest, (cols - 1) as nat);
    if let Some(f) = split_right_fields(line, cols) {
        let ws = words(line);
        let n = ws.len() - (cols - 1);
        assert(ws == words(f[0]) + f.skip(1));
        assert(f.skip(1) =~= ws.skip(n));
        assert(words(f[0]) =~= ws.take(n));
        assert(f[0] == rest.take(f[0].len() as int));
        assert(rest == line.take(rest.len() as int));
        assert(f[0] =~= line.take(f[0].len() as int));
        lemma_split_right_only_name_has_spaces(line, cols);
        lemma_split_right_name_ends_in_word(rest, (cols - 1) as nat);
    }
}

proof fn lemma_split_right_name_ends_in_word(rest: Seq<char>, k: nat)
    requires
        rest.len() == 0 || !is_ws(rest.last()),
    ensures
        split_right_from(rest, k) matches Some(f) ==> !is_ws(f[0].last()),
    decreases k,
{
    if k > 0 {
        if let Some(i) = last_ws(rest) {
            lemma_trim_end_ends_in_non_ws(rest.take(i));
            lemma_split_right_name_ends_in_word(trim_end(rest.take(i)), (k - 1) as nat);
            if let Some(g) = split_right_from(trim_end(rest.take(i)), (k - 1) as nat) {
                assert(g.push(trim(rest.skip(i)))[0] == g[0]);
            }
        }
    }
}

/// The positions in the header `h` at which its labels begin, in order.
pub open spec fn label_begins(h: Seq<char>) -> Seq<int>
    decreases h.len(),
{
    if h.len() == 0 {
        Seq::<int>::empty()
    } else {
        let rest = label_begins(h.drop_last());
        if begins_label(h, h.len() - 1) {
            rest.push(h.len() - 1)
        } else {
            rest
        }
    }
}

/// The column starts of a header are, label by label and in order, the cells
/// taken by everything before the label's first character: one start for each
/// maximal run of characters other than a space, and none besides.
pub proof fn lemma_label_starts_are_label_offsets(h: Seq<char>, ws: Seq<usize>)
    requires
        ws.len() == h.len(),
    ensures
        label_starts(h, ws) == label_begins(h).map_values(|i: int| width_sum(ws.take(i))),
        label_begins(h).len() == label_count(h),
        forall|a: int, b: int|
            0 <= a < b < label_begins(h).len() ==> label_begins(h)[a] < label_begins(h)[b],
        forall|a: int| 0 <= a < label_begins(h).len() ==> 0 <= #[trigger] label_begins(h)[a] < h.len(),
        forall|i: int| 0 <= i < h.len() ==> (#[trigger] begins_label(h, i) <==> label_begins(h).contains(i)),
    decreases h.len(),
{
    if h.len() > 0 {
        let n = h.len() - 1;
        let h1 = h.drop_last();
        let ws1 = ws.take(n);
        lemma_label_starts_are_label_offsets(h1, ws1);
        lemma_label_starts_len(h, ws);
        lemma_label_starts_len(h1, ws1);
        let lb1 = label_begins(h1);
        let lb = label_begins(h);
        assert forall|j: int| 0 <= j < n implies begins_label(h1, j) == begins_label(h, j) by {}
        let m1 = lb1.map_values(|i: int| width_sum(ws1.take(i)));
        let m = lb1.map_values(|i: int| width_sum(ws.take(i)));
        assert forall|a: int| 0 <= a < lb1.len() implies m1[a] == m[a] by {
            assert(ws1.take(lb1[a]) =~= ws.take(lb1[a]));
        }
        assert(m1 =~= m);
        if begins_label(h, n) {
            assert(lb == lb1.push(n));
            assert(lb.map_values(|i: int| width_sum(ws.take(i))) =~= m.push(width_sum(ws.take(n))));
            assert forall|i: int| 0 <= i < h.len() implies (#[trigger] begins_label(h, i)
                <==> lb.contains(i)) by {
                if i < n {
                    if lb1.contains(i) {
                        let a = choose|a: int| 0 <= a < lb1.len() && lb1[a] == i;
                        assert(lb[a] == i);
                    }
                    if lb.contains(i) {
                        let a = choose|a: int| 0 <= a < lb.len() && lb[a] == i;
                        if a < lb1.len() {
                            assert(lb1[a] == i);
                        }
                    }
                } else {
                    assert(lb[lb.len() - 1] == n);
                }
            }
        } else {
            assert(lb == lb1);
            assert forall|i: int| 0 <= i < h.len() implies (#[trigger] begins_label(h, i)
                <==> lb.contains(i)) by {
                if i == n && lb.contains(i) {
                    let a = choose|a: int| 0 <= a < lb.len() && lb[a] == i;
                    assert(lb1[a] < n);
                }
            }
        }
    }
}

proof fn lemma_first_rule_exact(ls: Seq<Seq<char>>, r: int)
    requires
        0 <= r < ls.len(),
        is_rule(ls[r]),
        forall|j: int| 0 <= j < r ==> !is_rule(#[trigger] ls[j]),
    ensures
        first_rule(ls) == Some(r),
    decreases ls.len(),
{
    let rest = ls.drop_last();
    if r < ls.len() - 1 {
        assert(rest[r] == ls[r]);
        assert forall|j: int| 0 <= j < r implies !is_rule(#[trigger] rest[j]) by {
            assert(rest[j] == ls[j]);
        }
        lemma_first_rule_exact(rest, r);
    } else {
        lemma_first_rule_is_rule(rest);
        if let Some(q) = first_rule(rest) {
            assert(rest[q] == ls[q]);
        }
    }
}

proof fn lemma_no_rule_none(ls: Seq<Seq<char>>)
    requires
        forall|j: int| 0 <= j < ls.len() ==> !is_rule(#[trigger] ls[j]),
    ensures
        first_rule(ls) is None,
{
    lemma_first_rule_is_rule(ls);
}

/// The table is the one under the first `-----` rule of the output: when the
/// `r`-th cleaned line is a rule and no line before it is one, the line above it
/// is the header and the rows are read from the lines below it, whatever other
/// rules and tables follow.
pub proof fn lemma_table_reads_under_first_rule(out: Seq<char>, cols: nat, r: int)
    requires
        0 <= r < cleaned_lines(out).len(),
        is_rule(cleaned_lines(out)[r]),
        forall|j: int| 0 <= j < r ==> !is_rule(#[trigger] cleaned_lines(out)[j]),
    ensures
        table(out, cols) == table_rows(
            cleaned_lines(out).skip(r + 1),
            if r > 0 {
                column_starts_of(cleaned_lines(out)[r - 1])
            } else {
                Seq::<nat>::empty()
            },
            cols,
        ),
{
    lemma_first_rule_exact(cleaned_lines(out), r);
}

proof fn lemma_strip_ansi_plain_text(t: Seq<char>)
    requires
        forall|i: int| 0 <= i < t.len() ==> t[i] != '\u{1b}',
    ensures
        strip_ansi(t) == t,
    decreases t.len(),
{
    if t.len() > 0 {
        assert forall|i: int| 0 <= i < t.drop_first().len() implies t.drop_first()[i] != '\u{1b}' by {
            assert(t.drop_first()[i] == t[i + 1]);
        }
        lemma_strip_ansi_plain_text(t.drop_first());
        assert(seq![t[0]] + t.drop_first() =~= t);
    }
}

proof fn lemma_skip_csi_parameters(p: Seq<char>, rest: Seq<char>)
    requires
        forall|i: int| 0 <= i < p.len() ==> '\u{20}' <= #[trigger] p[i] && p[i] <= '\u{3f}',
    ensures
        skip_csi(p + rest) == skip_csi(rest),
    decreases p.len(),
{
    if p.len() > 0 {
        assert((p + rest).drop_first() =~= p.drop_first() + rest);
        assert((p + rest)[0] == p[0]);
        assert forall|i: int| 0 <= i < p.drop_first().len() implies '\u{20}' <= #[trigger] p.drop_first()[i]
            && p.drop_first()[i] <= '\u{3f}' by {
            assert(p.drop_first()[i] == p[i + 1]);
        }
        lemma_skip_csi_parameters(p.drop_first(), rest);
    }
}

/// An ANSI control sequence is taken out whole: `ESC [`, parameter and
/// intermediate bytes (U+0020 to U+003F), and a final byte (U+0040 to U+007E,
/// such as the `K` of erase-line or the `m` of a colour), followed by text with
/// no escape or carriage return, cleans to that text alone.
pub proof fn lemma_clean_drops_control_sequence(p: Seq<char>, f: char, t: Seq<char>)
    requires
        forall|i: int| 0 <= i < p.len() ==> '\u{20}' <= #[trigger] p[i] && p[i] <= '\u{3f}',
        '\u{40}' <= f && f <= '\u{7e}',
        forall|i: int| 0 <= i < t.len() ==> t[i] != '\u{1b}' && t[i] != '\r',
    ensures
        clean(seq!['\u{1b}', '['] + p + seq![f] + t) == t,
{
    let s = seq!['\u{1b}', '['] + p + seq![f] + t;
    assert forall|k: int| 0 <= k < s.len() implies s[k] != '\r' by {
        if k >= 2 + p.len() + 1 {
            assert(s[k] == t[k - 3 - p.len()]);
        } else if k >= 2 && k < 2 + p.len() {
            assert(s[k] == p[k - 2]);
        }
    }
    lemma_after_last_cr_append(Seq::<char>::empty(), s);
    assert(Seq::<char>::empty() + s =~= s);
    assert(after_last_cr(Seq::<char>::empty()) =~= Seq::<char>::empty());
    assert(after_last_cr(s) == s);
    assert(s.skip(2) =~= p + (seq![f] + t));
    lemma_skip_csi_parameters(p, seq![f] + t);
    assert((seq![f] + t).drop_first() =~= t);
    lemma_strip_ansi_plain_text(t);
}

/// The characters of winget identifiers: an identifier is usable exactly when it
/// has 1 to 256 characters, does not start with `-`, and each character is an
/// ASCII letter or digit or one of `.`, `-`, `_` and `+` (as in
/// `Notepad++.Notepad++`).
pub proof fn lemma_identifier_characters(s: Seq<char>)
    ensures
        valid_id(s) <==> {
            &&& 0 < s.len() <= 256
            &&& s[0] != '-'
            &&& forall|i: int|
                0 <= i < s.len() ==> {
                    ||| 'a' <= #[trigger] s[i] <= 'z'
                    ||| 'A' <= s[i] <= 'Z'
                    ||| '0' <= s[i] <= '9'
                    ||| s[i] == '.'
                    ||| s[i] == '-'
                    ||| s[i] == '_'
                    ||| s[i] == '+'
                }
        },
{
    let good = |c: char| {
        ||| 'a' <= c <= 'z'
        ||| 'A' <= c <= 'Z'
        ||| '0' <= c <= '9'
        ||| c == '.'
        ||| c == '-'
        ||| c == '_'
        ||| c == '+'
    };
    assert forall|c: char| id_char(c) == good(c) by {}
    if valid_id(s) {
        assert forall|i: int| 0 <= i < s.len() implies good(#[trigger] s[i]) by {
            assert(id_char(s[i]));
        }
    }
    if 0 < s.len() <= 256 && s[0] != '-' && forall|i: int| 0 <= i < s.len() ==> good(#[trigger] s[i]) {
        assert forall|i: int| 0 <= i < s.len() implies #[trigger] id_char(s[i]) by {
            assert(good(s[i]));
        }
    }
}

} // verus!
