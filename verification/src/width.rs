//! Display widths of characters, as terminals lay them out: winget aligns its
//! tables by these, and a CJK glyph takes two cells.

use unicode_width::UnicodeWidthChar;
use vstd::prelude::*;

verus! {

/// What `UnicodeWidthChar::width` of the unicode-width crate gives for `c`: the
/// number of terminal cells it occupies, or `None` for a control character.
pub uninterp spec fn unicode_width(c: char) -> Option<usize>;

/// A printable ASCII character, from the space to `~`.
pub open spec fn is_printable_ascii(c: char) -> bool {
    ' ' <= c && c <= '~'
}

/// A C0 or C1 control code, or DEL.
pub open spec fn is_control_code(c: char) -> bool {
    c < ' ' || ('\u{7f}' <= c && c < '\u{a0}')
}

/// `UnicodeWidthChar::width` of unicode-width. Trusted: its result is taken to be
/// `unicode_width(c)`, a function of `c` alone (the crate reads fixed lookup
/// tables), and, as its source shows, `Some(1)` for printable ASCII, `None` for
/// the C0 and C1 control codes and DEL, and for everything from U+00A0 on a `u8`
/// table entry, so never above 255. Which width the table gives each of those
/// characters is not stated here.
#[verifier::external_body]
fn unicode_char_width(c: char) -> (r: Option<usize>)
    ensures
        r == unicode_width(c),
        is_printable_ascii(c) ==> r == Some(1usize),
        r is None <==> is_control_code(c),
        r matches Some(w) ==> w <= 255,
{
    c.width()
}

/// The cells `c` takes; a control character takes none.
pub open spec fn cell(c: char) -> usize {
    match unicode_width(c) {
        Some(w) => w,
        None => 0,
    }
}

/// The cells each character of `s` takes, in order.
pub open spec fn cells(s: Seq<char>) -> Seq<usize> {
    s.map_values(|c: char| cell(c))
}

/// The cells a run of characters takes, given the cells of each.
pub open spec fn width_sum(ws: Seq<usize>) -> nat
    decreases ws.len(),
{
    if ws.len() == 0 {
        0
    } else {
        width_sum(ws.drop_last()) + ws.last() as nat
    }
}

/// The cells `c` takes.
pub fn char_width(c: char) -> (r: usize)
    ensures
        r == cell(c),
        r <= 255,
        is_printable_ascii(c) ==> r == 1,
        is_control_code(c) ==> r == 0,
{
    match unicode_char_width(c) {
        Some(w) => w,
        None => 0,
    }
}

/// The cells each character of `s` takes. A space takes one.
pub fn char_widths(s: &[char]) -> (ws: Vec<usize>)
    ensures
        ws@ == cells(s@),
        forall|i: int| 0 <= i < ws@.len() ==> #[trigger] ws@[i] <= 255,
        forall|i: int| 0 <= i < s@.len() && #[trigger] s@[i] == ' ' ==> ws@[i] == 1,
{
    let mut ws: Vec<usize> = Vec::new();
    let mut i: usize = 0;
    while i < s.len()
        invariant
            i <= s@.len(),
            ws@ =~= cells(s@.take(i as int)),
            forall|j: int| 0 <= j < ws@.len() ==> #[trigger] ws@[j] <= 255,
            forall|j: int| 0 <= j < i && #[trigger] s@[j] == ' ' ==> ws@[j] == 1,
        decreases s@.len() - i,
    {
        let w = char_width(s[i]);
        ws.push(w);
        assert(cells(s@.take(i + 1)) =~= cells(s@.take(i as int)).push(cell(s@[i as int])));
        i = i + 1;
    }
    assert(s@.take(s@.len() as int) =~= s@);
    ws
}

/// A longer prefix never takes fewer cells.
pub proof fn lemma_width_sum_take_monotone(ws: Seq<usize>, a: int, b: int)
    requires
        0 <= a <= b <= ws.len(),
    ensures
        width_sum(ws.take(a)) <= width_sum(ws.take(b)),
    decreases b - a,
{
    if a < b {
        lemma_width_sum_take_monotone(ws, a, b - 1);
        assert(ws.take(b).drop_last() =~= ws.take(b - 1));
    }
}

/// One more character adds its own cells.
pub proof fn lemma_width_sum_take_step(ws: Seq<usize>, i: int)
    requires
        0 <= i < ws.len(),
    ensures
        width_sum(ws.take(i + 1)) == width_sum(ws.take(i)) + ws[i],
{
    assert(ws.take(i + 1).drop_last() =~= ws.take(i));
}

} // verus!
