//! Character-level text handling: the views of `str` and `String` as
//! sequences of `char`, whitespace, trimming and line splitting.

use vstd::prelude::*;

verus! {

broadcast use vstd::string::group_string_axioms;

// ------------------------------------------------------------ whitespace

/// Unicode `White_Space`, the property that `char::is_whitespace` tests.
pub open spec fn is_ws(c: char) -> bool {
    ||| ('\t' <= c && c <= '\r')
    ||| c == ' '
    ||| c == '\u{85}'
    ||| c == '\u{a0}'
    ||| c == '\u{1680}'
    ||| ('\u{2000}' <= c && c <= '\u{200a}')
    ||| c == '\u{2028}'
    ||| c == '\u{2029}'
    ||| c == '\u{202f}'
    ||| c == '\u{205f}'
    ||| c == '\u{3000}'
}

/// Whether `c` is Unicode white space.
pub fn is_whitespace(c: char) -> (b: bool)
    ensures
        b == is_ws(c),
{
    ('\t' <= c && c <= '\r') || c == ' ' || c == '\u{85}' || c == '\u{a0}' || c == '\u{1680}'
        || ('\u{2000}' <= c && c <= '\u{200a}') || c == '\u{2028}' || c == '\u{2029}'
        || c == '\u{202f}' || c == '\u{205f}' || c == '\u{3000}'
}

/// `s` without its leading white space.
pub open spec fn trim_start(s: Seq<char>) -> Seq<char>
    decreases s.len(),
{
    if s.len() > 0 && is_ws(s[0]) {
        trim_start(s.drop_first())
    } else {
        s
    }
}

/// `s` without its trailing white space.
pub open spec fn trim_end(s: Seq<char>) -> Seq<char>
    decreases s.len(),
{
    if s.len() > 0 && is_ws(s.last()) {
        trim_end(s.drop_last())
    } else {
        s
    }
}

/// `s` without leading or trailing white space, as `str::trim` gives it.
pub open spec fn trim(s: Seq<char>) -> Seq<char> {
    trim_end(trim_start(s))
}

/// A line is blank when nothing but white space is on it.
pub open spec fn is_blank(s: Seq<char>) -> bool {
    trim(s).len() == 0
}

/// The position in `s` at which `trim_end(s[start..end])` ends.
pub fn trim_end_at(s: &[char], start: usize, end: usize) -> (r: usize)
    requires
        start <= end <= s@.len(),
    ensures
        start <= r <= end,
        s@.subrange(start as int, r as int) == trim_end(s@.subrange(start as int, end as int)),
{
    let mut r = end;
    while r > start && is_whitespace(s[r - 1])
        invariant
            start <= r <= end <= s@.len(),
            trim_end(s@.subrange(start as int, end as int)) == trim_end(
                s@.subrange(start as int, r as int),
            ),
        decreases r,
    {
        assert(s@.subrange(start as int, r as int).drop_last() =~= s@.subrange(
            start as int,
            r - 1,
        ));
        r = r - 1;
    }
    r
}

/// The position in `s` at which `trim_start(s[start..end])` begins.
pub fn trim_start_at(s: &[char], start: usize, end: usize) -> (l: usize)
    requires
        start <= end <= s@.len(),
    ensures
        start <= l <= end,
        s@.subrange(l as int, end as int) == trim_start(s@.subrange(start as int, end as int)),
{
    let mut l = start;
    while l < end && is_whitespace(s[l])
        invariant
            start <= l <= end <= s@.len(),
            trim_start(s@.subrange(start as int, end as int)) == trim_start(
                s@.subrange(l as int, end as int),
            ),
        decreases end - l,
    {
        assert(s@.subrange(l as int, end as int).drop_first() =~= s@.subrange(
            l + 1,
            end as int,
        ));
        l = l + 1;
    }
    l
}

/// The bounds in `s` of `trim(s[start..end])`.
pub fn trim_at(s: &[char], start: usize, end: usize) -> (r: (usize, usize))
    requires
        start <= end <= s@.len(),
    ensures
        start <= r.0 <= r.1 <= end,
        s@.subrange(r.0 as int, r.1 as int) == trim(s@.subrange(start as int, end as int)),
{
    let l = trim_start_at(s, start, end);
    let r = trim_end_at(s, l, end);
    (l, r)
}

// ------------------------------------------------------------ building strings

/// `String::push`: appends `c` to `s`.
#[verifier::external_body]
fn push_char(s: &mut String, c: char)
    ensures
        final(s)@ == old(s)@.push(c),
{
    s.push(c);
}

/// A `String` holding `s[start..end]`.
pub fn string_of(s: &[char], start: usize, end: usize) -> (r: String)
    requires
        start <= end <= s@.len(),
    ensures
        r@ == s@.subrange(start as int, end as int),
{
    let mut r = String::new();
    let mut i = start;
    while i < end
        invariant
            start <= i <= end <= s@.len(),
            r@ == s@.subrange(start as int, i as int),
        decreases end - i,
    {
        push_char(&mut r, s[i]);
        assert(s@.subrange(start as int, i + 1) =~= s@.subrange(start as int, i as int).push(
            s@[i as int],
        ));
        i = i + 1;
    }
    r
}

/// The characters of `s`, in order.
pub fn chars_of(s: &str) -> (v: Vec<char>)
    ensures
        v@ == s@,
{
    let mut v: Vec<char> = Vec::new();
    for c in it: s.chars()
        invariant
            v@ == it.seq().take(it.index()),
            it.seq() == s@,
    {
        v.push(c);
    }
    v
}

/// `s` without leading or trailing white space, as a new `String`.
pub fn trimmed(s: &str) -> (r: String)
    ensures
        r@ == trim(s@),
{
    let cs = chars_of(s);
    let (a, b) = trim_at(cs.as_slice(), 0, cs.len());
    assert(cs@.subrange(0, cs@.len() as int) =~= cs@);
    string_of(cs.as_slice(), a, b)
}

// ------------------------------------------------------------ lines

/// The pieces of `s` between line feeds; there is always at least one.
pub open spec fn split_lf(s: Seq<char>) -> Seq<Seq<char>>
    decreases s.len(),
{
    if s.len() == 0 {
        seq![Seq::<char>::empty()]
    } else {
        let pieces = split_lf(s.drop_last());
        if s.last() == '\n' {
            pieces.push(Seq::<char>::empty())
        } else {
            pieces.update(pieces.len() - 1, pieces.last().push(s.last()))
        }
    }
}

/// `x` without one carriage return at its end.
pub open spec fn strip_cr(x: Seq<char>) -> Seq<char> {
    if x.len() > 0 && x.last() == '\r' {
        x.drop_last()
    } else {
        x
    }
}

/// The lines of `s`, as `str::lines` gives them: split at `\n`, a `\r` right
/// before a `\n` belongs to the line ending, and a final empty piece (after a
/// trailing line ending, or of an empty text) is no line.
pub open spec fn lines(s: Seq<char>) -> Seq<Seq<char>> {
    let p = split_lf(s);
    let n = if p.last().len() == 0 {
        p.len() - 1
    } else {
        p.len() as int
    };
    Seq::new(n as nat, |i: int| if i < p.len() - 1 { strip_cr(p[i]) } else { p[i] })
}

proof fn lemma_split_lf_nonempty(s: Seq<char>)
    ensures
        split_lf(s).len() >= 1,
    decreases s.len(),
{
    if s.len() > 0 {
        lemma_split_lf_nonempty(s.drop_last());
    }
}

/// A text without a line feed is a single piece.
pub proof fn lemma_split_lf_single(w: Seq<char>)
    requires
        forall|i: int| 0 <= i < w.len() ==> w[i] != '\n',
    ensures
        split_lf(w) == seq![w],
    decreases w.len(),
{
    if w.len() == 0 {
        assert(w =~= Seq::<char>::empty());
    } else {
        let v = w.drop_last();
        lemma_split_lf_single(v);
        assert(v.push(w.last()) =~= w);
        assert(split_lf(w) =~= seq![w]);
    }
}

/// Joining two texts with a line feed joins their pieces.
pub proof fn lemma_split_lf_join(a: Seq<char>, b: Seq<char>)
    ensures
        split_lf(a + seq!['\n'] + b) == split_lf(a) + split_lf(b),
    decreases b.len(),
{
    lemma_split_lf_nonempty(a);
    if b.len() == 0 {
        assert((a + seq!['\n'] + b).drop_last() =~= a);
        assert(split_lf(a).push(Seq::<char>::empty()) =~= split_lf(a) + split_lf(b));
    } else {
        let b0 = b.drop_last();
        lemma_split_lf_join(a, b0);
        lemma_split_lf_nonempty(b0);
        let x = a + seq!['\n'] + b;
        assert(x.drop_last() =~= a + seq!['\n'] + b0);
        assert(x.last() == b.last());
        let p = split_lf(a);
        let q = split_lf(b0);
        if b.last() == '\n' {
            assert((p + q).push(Seq::<char>::empty()) =~= p + q.push(Seq::<char>::empty()));
        } else {
            assert((p + q).update((p + q).len() - 1, (p + q).last().push(b.last())) =~= p + q.update(
                q.len() - 1,
                q.last().push(b.last()),
            ));
        }
    }
}

/// The bounds in `s` of each of its lines.
#[verifier::spinoff_prover]
pub fn line_bounds(s: &[char]) -> (r: Vec<(usize, usize)>)
    ensures
        r@.len() == lines(s@).len(),
        forall|j: int| 0 <= j < r@.len() ==> #[trigger] r@[j].0 <= r@[j].1 <= s@.len(),
        forall|j: int|
            0 <= j < r@.len() ==> #[trigger] s@.subrange(r@[j].0 as int, r@[j].1 as int)
                == lines(s@)[j],
{
    let mut r: Vec<(usize, usize)> = Vec::new();
    let mut start: usize = 0;
    let mut i: usize = 0;
    assert(s@.take(0) =~= Seq::<char>::empty());
    while i < s.len()
        invariant
            start <= i <= s@.len(),
            split_lf(s@.take(i as int)).len() == r@.len() + 1,
            split_lf(s@.take(i as int)).last() == s@.subrange(start as int, i as int),
            forall|j: int| 0 <= j < r@.len() ==> #[trigger] r@[j].0 <= r@[j].1 <= start,
            forall|j: int|
                0 <= j < r@.len() ==> #[trigger] s@.subrange(r@[j].0 as int, r@[j].1 as int)
                    == strip_cr(split_lf(s@.take(i as int))[j]),
        decreases s@.len() - i,
    {
        let ghost prev = split_lf(s@.take(i as int));
        let ghost r0 = r@;
        assert(s@.take(i + 1).drop_last() =~= s@.take(i as int));
        assert(s@.take(i + 1).last() == s@[i as int]);
        let ghost next = split_lf(s@.take(i + 1));
        if s[i] == '\n' {
            assert(next == prev.push(Seq::<char>::empty()));
            let mut end = i;
            if end > start && s[end - 1] == '\r' {
                end = end - 1;
                assert(s@.subrange(start as int, end as int) =~= s@.subrange(
                    start as int,
                    i as int,
                ).drop_last());
            }
            assert(s@.subrange(start as int, end as int) == strip_cr(prev.last()));
            r.push((start, end));
            start = i + 1;
            assert(s@.subrange(start as int, i + 1) =~= Seq::<char>::empty());
        } else {
            assert(next == prev.update(prev.len() - 1, prev.last().push(s@[i as int])));
            assert(s@.subrange(start as int, i + 1) =~= s@.subrange(start as int, i as int).push(
                s@[i as int],
            ));
        }
        assert forall|j: int| 0 <= j < r@.len() implies #[trigger] r@[j].0 <= r@[j].1 <= start by {
            if j < r0.len() {
                assert(r@[j] == r0[j]);
            }
        }
        assert forall|j: int| 0 <= j < r@.len() implies #[trigger] s@.subrange(
            r@[j].0 as int,
            r@[j].1 as int,
        ) == strip_cr(next[j]) by {
            if j < r0.len() {
                assert(r@[j] == r0[j]);
                assert(next[j] == prev[j]);
                assert(s@.subrange(r0[j].0 as int, r0[j].1 as int) == strip_cr(prev[j]));
            } else {
                assert(j == r0.len());
                assert(next[j] == prev.last());
            }
        }
        i = i + 1;
        assert(split_lf(s@.take(i as int)) == next);
    }
    assert(s@.take(s@.len() as int) =~= s@);
    let ghost p = split_lf(s@);
    let ghost r0 = r@;
    if start < s.len() {
        r.push((start, s.len()));
    }
    proof {
        assert forall|j: int| 0 <= j < r@.len() implies #[trigger] r@[j].0 <= r@[j].1 <= s@.len() by {
            if j < r0.len() {
                assert(r@[j] == r0[j]);
            }
        }
        assert forall|j: int| 0 <= j < r@.len() implies #[trigger] s@.subrange(
            r@[j].0 as int,
            r@[j].1 as int,
        ) == lines(s@)[j] by {
            if j < p.len() - 1 {
            } else {
                assert(s@.subrange(r@[j].0 as int, r@[j].1 as int) == p.last());
            }
        }
    }
    r
}


// ------------------------------------------------------------ words

/// The pieces of `s` between spaces, as `str::split(' ')` gives them: there is
/// always at least one, and two spaces in a row leave an empty piece.
pub open spec fn split_spaces(s: Seq<char>) -> Seq<Seq<char>>
    decreases s.len(),
{
    if s.len() == 0 {
        seq![Seq::<char>::empty()]
    } else {
        let pieces = split_spaces(s.drop_last());
        if s.last() == ' ' {
            pieces.push(Seq::<char>::empty())
        } else {
            pieces.update(pieces.len() - 1, pieces.last().push(s.last()))
        }
    }
}

/// A text with no space in it.
pub open spec fn no_space(s: Seq<char>) -> bool {
    forall|i: int| 0 <= i < s.len() ==> s[i] != ' '
}

proof fn lemma_split_spaces_nonempty(s: Seq<char>)
    ensures
        split_spaces(s).len() >= 1,
    decreases s.len(),
{
    if s.len() > 0 {
        lemma_split_spaces_nonempty(s.drop_last());
    }
}

/// A text without spaces is a single piece.
pub proof fn lemma_split_spaces_word(w: Seq<char>)
    requires
        no_space(w),
    ensures
        split_spaces(w) == seq![w],
    decreases w.len(),
{
    if w.len() == 0 {
        assert(w =~= Seq::<char>::empty());
    } else {
        let v = w.drop_last();
        lemma_split_spaces_word(v);
        assert(v.push(w.last()) =~= w);
        assert(split_spaces(w) =~= seq![w]);
    }
}

/// Joining two texts with a space joins their pieces.
pub proof fn lemma_split_spaces_join(a: Seq<char>, b: Seq<char>)
    ensures
        split_spaces(a + seq![' '] + b) == split_spaces(a) + split_spaces(b),
    decreases b.len(),
{
    lemma_split_spaces_nonempty(a);
    if b.len() == 0 {
        assert((a + seq![' '] + b).drop_last() =~= a);
        assert(split_spaces(a).push(Seq::<char>::empty()) =~= split_spaces(a) + split_spaces(b));
    } else {
        let b0 = b.drop_last();
        lemma_split_spaces_join(a, b0);
        lemma_split_spaces_nonempty(b0);
        let x = a + seq![' '] + b;
        assert(x.drop_last() =~= a + seq![' '] + b0);
        assert(x.last() == b.last());
        let p = split_spaces(a);
        let q = split_spaces(b0);
        if b.last() == ' ' {
            assert((p + q).push(Seq::<char>::empty()) =~= p + q.push(Seq::<char>::empty()));
        } else {
            assert((p + q).update((p + q).len() - 1, (p + q).last().push(b.last())) =~= p + q.update(
                q.len() - 1,
                q.last().push(b.last()),
            ));
        }
    }
}

// ------------------------------------------------------------ small conversions

/// `s` as an owned `String`.
pub fn owned(s: &str) -> (r: String)
    ensures
        r@ == s@,
{
    s.to_owned()
}

/// Whether `a` and `b` hold the same characters.
pub fn chars_eq(a: &[char], b: &[char]) -> (r: bool)
    ensures
        r == (a@ == b@),
{
    if a.len() != b.len() {
        return false;
    }
    let mut i: usize = 0;
    while i < a.len()
        invariant
            i <= a@.len() == b@.len(),
            forall|k: int| 0 <= k < i ==> a@[k] == b@[k],
        decreases a@.len() - i,
    {
        if a[i] != b[i] {
            return false;
        }
        i = i + 1;
    }
    assert(a@ =~= b@);
    true
}

/// The decimal digit for `d`.
pub open spec fn digit(d: nat) -> char {
    if d == 0 { '0' }
    else if d == 1 { '1' }
    else if d == 2 { '2' }
    else if d == 3 { '3' }
    else if d == 4 { '4' }
    else if d == 5 { '5' }
    else if d == 6 { '6' }
    else if d == 7 { '7' }
    else if d == 8 { '8' }
    else { '9' }
}

/// `n` in decimal, without leading zeros.
pub open spec fn decimal(n: nat) -> Seq<char>
    decreases n,
{
    if n < 10 {
        seq![digit(n)]
    } else {
        decimal(n / 10).push(digit(n % 10))
    }
}

/// The decimal digit for `d`.
pub fn digit_char(d: u64) -> (c: char)
    requires
        d < 10,
    ensures
        c == digit(d as nat),
{
    if d == 0 { '0' }
    else if d == 1 { '1' }
    else if d == 2 { '2' }
    else if d == 3 { '3' }
    else if d == 4 { '4' }
    else if d == 5 { '5' }
    else if d == 6 { '6' }
    else if d == 7 { '7' }
    else if d == 8 { '8' }
    else { '9' }
}

/// Appends `n` in decimal to `s`.
pub fn push_decimal(s: &mut String, n: u64)
    ensures
        final(s)@ == old(s)@ + decimal(n as nat),
    decreases n,
{
    if n >= 10 {
        push_decimal(s, n / 10);
    }
    push_char(s, digit_char(n % 10));
    assert(s@ =~= old(s)@ + decimal(n as nat));
}

} // verus!
