//! What tinyget asks of winget and what it makes of the answers: the package
//! lists read from winget's tables, the argument lists of the commands it runs,
//! and the messages it shows when winget fails.

use vstd::prelude::*;
use vstd::string::StringExecFns;
use crate::table::{
    clean_lines, cleaned_lines, id_char, parse_table, rows_view, string_views, table, valid_id,
};
use crate::table::is_valid_id;
use crate::text::{
    lemma_split_lf_join, lemma_split_lf_single, lemma_split_spaces_join, lemma_split_spaces_word,
    lines, no_space, split_lf, split_spaces,
    chars_eq, chars_of, decimal, is_blank, owned, push_decimal, trim, trim_at, trimmed,
};

verus! {

// ------------------------------------------------------------ error

/// A failure to show the user: what winget said, or why it could not be asked.
#[derive(Debug, Clone)]
pub struct Error(String);

impl View for Error {
    type V = Seq<char>;

    /// The message.
    closed spec fn view(&self) -> Seq<char> {
        self.0@
    }
}

/// The message for a program that could not be started at all.
pub open spec fn launch_failure_text(not_found: bool, detail: Seq<char>) -> Seq<char> {
    if not_found {
        "winget was not found. Install the App Installer package from the Microsoft Store, then reopen tinyget."@
    } else {
        "Could not run winget: "@ + detail
    }
}

impl Error {
    /// The error for winget that could not be started: `not_found` when the
    /// program is not there, `detail` the system's own description otherwise.
    pub fn from_launch_failure(not_found: bool, detail: &str) -> (e: Error)
        ensures
            e@ == launch_failure_text(not_found, detail@),
    {
        if not_found {
            Error(
                owned(
                    "winget was not found. Install the App Installer package from the Microsoft Store, then reopen tinyget.",
                ),
            )
        } else {
            let mut m = owned("Could not run winget: ");
            m.append(detail);
            Error(m)
        }
    }

    /// The message.
    pub fn message(&self) -> (m: &str)
        ensures
            m@ == self@,
    {
        self.0.as_str()
    }
}

// ------------------------------------------------------------ types

#[derive(Debug, Clone, Copy, PartialEq, Eq, Structural)]
pub enum PinKind {
    /// Held back from `upgrade --all`, but a direct upgrade still works.
    Pinning,
    /// Refuses every upgrade until the pin is removed.
    Blocking,
    /// Pinned to a version or wildcard range. tinyget displays these but does
    /// not create them.
    Gating,
}

/// The name winget gives a kind of pin.
pub open spec fn pin_kind_name(k: PinKind) -> Seq<char> {
    match k {
        PinKind::Pinning => "Pinning"@,
        PinKind::Blocking => "Blocking"@,
        PinKind::Gating => "Gating"@,
    }
}

/// The kind of pin whose name, white space aside, is `s`.
pub open spec fn pin_kind_named(s: Seq<char>) -> Option<PinKind> {
    let t = trim(s);
    if t == "Pinning"@ {
        Some(PinKind::Pinning)
    } else if t == "Blocking"@ {
        Some(PinKind::Blocking)
    } else if t == "Gating"@ {
        Some(PinKind::Gating)
    } else {
        None
    }
}

impl PinKind {
    pub fn as_str(self) -> (s: &'static str)
        ensures
            s@ == pin_kind_name(self),
    {
        match self {
            PinKind::Pinning => "Pinning",
            PinKind::Blocking => "Blocking",
            PinKind::Gating => "Gating",
        }
    }

    /// winget prints these values in English regardless of display language.
    pub fn parse(s: &str) -> (k: Option<PinKind>)
        ensures
            k == pin_kind_named(s@),
    {
        let t = chars_of(s);
        let (a, b) = trim_at(t.as_slice(), 0, t.len());
        assert(t@.subrange(0, t@.len() as int) =~= t@);
        let word = crate::text::string_of(t.as_slice(), a, b);
        let w = chars_of(word.as_str());
        let pinning = chars_of("Pinning");
        let blocking = chars_of("Blocking");
        let gating = chars_of("Gating");
        if chars_eq(w.as_slice(), pinning.as_slice()) {
            Some(PinKind::Pinning)
        } else if chars_eq(w.as_slice(), blocking.as_slice()) {
            Some(PinKind::Blocking)
        } else if chars_eq(w.as_slice(), gating.as_slice()) {
            Some(PinKind::Gating)
        } else {
            None
        }
    }
}

/// Reading back the name of a kind of pin gives that kind.
pub proof fn lemma_pin_kind_round_trip(k: PinKind)
    ensures
        pin_kind_named(pin_kind_name(k)) == Some(k),
{
    reveal_strlit("Pinning");
    reveal_strlit("Blocking");
    reveal_strlit("Gating");
    let n = pin_kind_name(k);
    assert(trim(n) == n) by {
        assert(crate::text::trim_start(n) == n);
        assert(crate::text::trim_end(n) == n);
    }
    assert("Pinning"@.len() == 7 && "Blocking"@.len() == 8 && "Gating"@.len() == 6);
}

#[derive(Debug, Clone)]
pub struct Upgrade {
    pub name: String,
    pub id: String,
    pub current: String,
    pub available: String,
}

#[derive(Debug, Clone)]
pub struct Pin {
    pub name: String,
    pub id: String,
    pub kind: PinKind,
}

/// What a winget command printed, and whether it reported success.
pub struct Output {
    pub stdout: String,
    pub ok: bool,
}

// ------------------------------------------------------------ reading winget's output

/// The last line among `ls` with more than white space on it.
pub open spec fn last_nonblank(ls: Seq<Seq<char>>) -> Option<Seq<char>>
    decreases ls.len(),
{
    if ls.len() == 0 {
        None
    } else if !is_blank(ls.last()) {
        Some(ls.last())
    } else {
        last_nonblank(ls.drop_last())
    }
}

/// winget's reason for failing: the last non-empty line of its output, cleaned,
/// or a generic message when it printed nothing.
pub open spec fn failure_text(out: Seq<char>) -> Seq<char> {
    match last_nonblank(cleaned_lines(out)) {
        Some(l) => l,
        None => "winget reported an error."@,
    }
}

/// The last non-empty line of output, which is where winget puts its reason for
/// failing. Falls back to a generic message so the UI is never blank.
pub fn failure_reason(stdout: &str) -> (r: String)
    ensures
        r@ == failure_text(stdout@),
        !is_blank(r@),
{
    let ls = clean_lines(stdout);
    let ghost lsv = cleaned_lines(stdout@);
    let mut k = ls.len();
    assert(lsv.take(k as int) =~= lsv);
    while k > 0
        invariant
            k <= ls@.len() == lsv.len(),
            lsv == cleaned_lines(stdout@),
            forall|j: int| 0 <= j < ls@.len() ==> #[trigger] ls@[j]@ == lsv[j],
            last_nonblank(lsv) == last_nonblank(lsv.take(k as int)),
        decreases k,
    {
        let l = ls[k - 1].as_slice();
        let (a, b) = trim_at(l, 0, l.len());
        assert(l@.subrange(0, l@.len() as int) =~= l@);
        assert(lsv.take(k as int).last() == lsv[k - 1]);
        if a < b {
            let r = crate::text::string_of(l, 0, l.len());
            assert(r@ == lsv[k - 1]);
            assert(!is_blank(r@));
            assert(last_nonblank(lsv.take(k as int)) == Some(lsv[k - 1]));
            return r;
        }
        assert(lsv.take(k as int).drop_last() =~= lsv.take(k - 1));
        k = k - 1;
    }
    assert(lsv.take(0) =~= Seq::<Seq<char>>::empty());
    let r = owned("winget reported an error.");
    proof {
        reveal_strlit("winget reported an error.");
        assert(crate::text::trim_start(r@) == r@);
        assert(crate::text::trim_end(r@) == r@);
    }
    r
}

/// The client's version, as `winget --version` printed it.
pub fn version(out: &Output) -> (v: String)
    ensures
        v@ == trim(out.stdout@),
{
    trimmed(out.stdout.as_str())
}

/// The fields of an upgrade as sequences: name, identifier, installed and
/// available version.
pub open spec fn upgrade_fields(u: Upgrade) -> Seq<Seq<char>> {
    seq![u.name@, u.id@, u.current@, u.available@]
}

/// The upgrades listed in the rows of winget's `upgrade` table.
pub open spec fn upgrades_from(rows: Seq<Seq<Seq<char>>>) -> Seq<Seq<Seq<char>>> {
    rows.map_values(|r: Seq<Seq<char>>| r.take(4))
}

/// The upgrades winget offers, read from what `winget upgrade` printed. No rows
/// and a failure report mean the listing itself failed.
pub fn list_upgrades(out: &Output) -> (r: Result<Vec<Upgrade>, Error>)
    ensures
        ({
            let rows = table(out.stdout@, 5);
            match r {
                Ok(v) => !(rows.len() == 0 && !out.ok) && v@.map_values(
                    |u: Upgrade| upgrade_fields(u),
                ) == upgrades_from(rows),
                Err(e) => rows.len() == 0 && !out.ok && e@ == failure_text(out.stdout@),
            }
        }),
{
    // --include-unknown so packages whose installed version winget cannot read
    // are still offered; the caller runs the command.
    let rows = parse_table(out.stdout.as_str(), 5);
    if rows.len() == 0 && !out.ok {
        return Err(Error(failure_reason(out.stdout.as_str())));
    }
    let ghost rv = rows_view(rows@);
    assert forall|j: int| 0 <= j < rows@.len() implies (#[trigger] rows@[j])@.len() == 5 by {
        assert(string_views(rows@[j]@).len() == 5);
    }
    let mut v: Vec<Upgrade> = Vec::new();
    let mut k: usize = 0;
    while k < rows.len()
        invariant
            k <= rows@.len(),
            rv == rows_view(rows@),
            forall|j: int| 0 <= j < rows@.len() ==> (#[trigger] rows@[j])@.len() == 5,
            v@.len() == k,
            forall|j: int|
                0 <= j < k ==> #[trigger] upgrade_fields(v@[j]) == rv[j].take(4),
        decreases rows@.len() - k,
    {
        let r = &rows[k];
        assert(string_views(r@) == rv[k as int]);
        let u = Upgrade {
            name: r[0].clone(),
            id: r[1].clone(),
            current: r[2].clone(),
            available: r[3].clone(),
        };
        assert(upgrade_fields(u) =~= rv[k as int].take(4));
        v.push(u);
        k = k + 1;
    }
    assert(v@.map_values(|u: Upgrade| upgrade_fields(u)) =~= upgrades_from(rv));
    Ok(v)
}

/// A pin as sequences: name, identifier, and its kind.
pub open spec fn pin_view(p: Pin) -> (Seq<char>, Seq<char>, PinKind) {
    (p.name@, p.id@, p.kind)
}

/// The pins listed in the rows of winget's `pin list` table (name, identifier,
/// version, source, pin type): rows whose pin type is unknown are left out.
pub open spec fn pins_from(rows: Seq<Seq<Seq<char>>>) -> Seq<(Seq<char>, Seq<char>, PinKind)>
    decreases rows.len(),
{
    if rows.len() == 0 {
        Seq::empty()
    } else {
        let r = rows.last();
        match pin_kind_named(r[4]) {
            Some(k) => pins_from(rows.drop_last()).push((r[0], r[1], k)),
            None => pins_from(rows.drop_last()),
        }
    }
}

/// The pins winget holds, read from what `winget pin list` printed.
pub fn list_pins(out: &Output) -> (r: Result<Vec<Pin>, Error>)
    ensures
        ({
            let rows = table(out.stdout@, 5);
            match r {
                Ok(v) => !(rows.len() == 0 && !out.ok) && v@.map_values(|p: Pin| pin_view(p))
                    == pins_from(rows),
                Err(e) => rows.len() == 0 && !out.ok && e@ == failure_text(out.stdout@),
            }
        }),
{
    // Name, Id, Version, Source, Pin type
    let rows = parse_table(out.stdout.as_str(), 5);
    if rows.len() == 0 && !out.ok {
        return Err(Error(failure_reason(out.stdout.as_str())));
    }
    let ghost rv = rows_view(rows@);
    assert forall|j: int| 0 <= j < rows@.len() implies (#[trigger] rows@[j])@.len() == 5 by {
        assert(string_views(rows@[j]@).len() == 5);
    }
    let mut v: Vec<Pin> = Vec::new();
    let mut k: usize = 0;
    assert(rv.take(0) =~= Seq::<Seq<Seq<char>>>::empty());
    while k < rows.len()
        invariant
            k <= rows@.len(),
            rv == rows_view(rows@),
            forall|j: int| 0 <= j < rows@.len() ==> (#[trigger] rows@[j])@.len() == 5,
            v@.map_values(|p: Pin| pin_view(p)) == pins_from(rv.take(k as int)),
        decreases rows@.len() - k,
    {
        let r = &rows[k];
        assert(string_views(r@) == rv[k as int]);
        assert(rv.take(k + 1).drop_last() =~= rv.take(k as int));
        assert(rv.take(k + 1).last() == rv[k as int]);
        let ghost v0 = v@;
        match PinKind::parse(r[4].as_str()) {
            Some(kind) => {
                v.push(Pin { name: r[0].clone(), id: r[1].clone(), kind });
                assert(v@.map_values(|p: Pin| pin_view(p)) =~= v0.map_values(
                    |p: Pin| pin_view(p),
                ).push((rv[k as int][0], rv[k as int][1], kind)));
            },
            None => {},
        }
        k = k + 1;
    }
    assert(rv.take(rows@.len() as int) =~= rv);
    Ok(v)
}


// ------------------------------------------------------------ commands

/// What `format!("{:?}", s)` gives for a string `s`: `s` in double quotes, with
/// quotes, backslashes and unprintable characters escaped.
pub uninterp spec fn debug_quoted(s: Seq<char>) -> Seq<char>;

/// The `Debug` formatting of `str`, by way of `format!`. Trusted: its result is
/// taken to be `debug_quoted(s@)`, a function of `s` alone; how it escapes is not
/// stated here.
#[verifier::external_body]
fn debug_str(s: &str) -> (r: String)
    ensures
        r@ == debug_quoted(s@),
{
    format!("{s:?}")
}

/// The message for an identifier that is not one; `quoted` is the identifier
/// as `Debug` prints it.
pub open spec fn unusable_id_text(quoted: Seq<char>) -> Seq<char> {
    quoted + " is not a usable package identifier."@
}

/// The error for an identifier that is not one, given the identifier as `Debug`
/// prints it.
pub fn unusable_id(quoted: &str) -> (e: Error)
    ensures
        e@ == unusable_id_text(quoted@),
{
    let mut m = owned(quoted);
    m.append(" is not a usable package identifier.");
    Error(m)
}

/// Strings from their views.
pub open spec fn views_of(v: Seq<String>) -> Seq<Seq<char>> {
    v.map_values(|s: String| s@)
}

/// The arguments of `winget pin add` for `id`.
pub open spec fn add_pin_args(id: Seq<char>, blocking: bool) -> Seq<Seq<char>> {
    seq!["pin"@, "add"@, "--id"@, id, "--exact"@, "--accept-source-agreements"@] + if blocking {
        seq!["--blocking"@]
    } else {
        Seq::<Seq<char>>::empty()
    }
}

/// The arguments of `winget pin remove` for `id`.
pub open spec fn remove_pin_args(id: Seq<char>) -> Seq<Seq<char>> {
    seq!["pin"@, "remove"@, "--id"@, id, "--exact"@, "--accept-source-agreements"@]
}

/// The arguments that pin `id`, blocking every upgrade or only `upgrade --all`;
/// refused unless `id` is a usable identifier. The caller runs winget with them
/// and hands what it printed to `pin_change_result`.
pub fn add_pin(id: &str, blocking: bool) -> (r: Result<Vec<String>, Error>)
    ensures
        match r {
            Ok(args) => valid_id(id@) && views_of(args@) == add_pin_args(id@, blocking),
            Err(e) => !valid_id(id@) && e@ == unusable_id_text(debug_quoted(id@)),
        },
{
    if !is_valid_id(id) {
        let q = debug_str(id);
        return Err(unusable_id(q.as_str()));
    }
    let mut args: Vec<String> = Vec::new();
    args.push(owned("pin"));
    args.push(owned("add"));
    args.push(owned("--id"));
    args.push(owned(id));
    args.push(owned("--exact"));
    args.push(owned("--accept-source-agreements"));
    if blocking {
        args.push(owned("--blocking"));
    }
    assert(views_of(args@) =~= add_pin_args(id@, blocking));
    Ok(args)
}

/// The arguments that remove the pin on `id`; refused unless `id` is a usable
/// identifier.
pub fn remove_pin(id: &str) -> (r: Result<Vec<String>, Error>)
    ensures
        match r {
            Ok(args) => valid_id(id@) && views_of(args@) == remove_pin_args(id@),
            Err(e) => !valid_id(id@) && e@ == unusable_id_text(debug_quoted(id@)),
        },
{
    if !is_valid_id(id) {
        let q = debug_str(id);
        return Err(unusable_id(q.as_str()));
    }
    let mut args: Vec<String> = Vec::new();
    args.push(owned("pin"));
    args.push(owned("remove"));
    args.push(owned("--id"));
    args.push(owned(id));
    args.push(owned("--exact"));
    args.push(owned("--accept-source-agreements"));
    assert(views_of(args@) =~= remove_pin_args(id@));
    Ok(args)
}

/// How a pin change went, from what winget printed: done when it reported
/// success, else its reason for failing.
pub fn pin_change_result(out: &Output) -> (r: Result<(), Error>)
    ensures
        match r {
            Ok(()) => out.ok,
            Err(e) => !out.ok && e@ == failure_text(out.stdout@),
        },
{
    if out.ok {
        Ok(())
    } else {
        Err(Error(failure_reason(out.stdout.as_str())))
    }
}

/// Each identifier of `ids` after a space.
pub open spec fn spaced(ids: Seq<Seq<char>>) -> Seq<char>
    decreases ids.len(),
{
    if ids.len() == 0 {
        Seq::empty()
    } else {
        spaced(ids.drop_last()) + seq![' '] + ids.last()
    }
}

/// The text of the `winget upgrade` command for `ids`.
pub open spec fn upgrade_command_text(ids: Seq<Seq<char>>) -> Seq<char> {
    "winget upgrade"@ + spaced(ids) + " --exact --include-unknown"@
}

/// The single `winget upgrade` invocation that would upgrade `ids`.
///
/// `upgrade` takes its query positionally and accepts several at once, so the
/// whole selection goes out as one command rather than one per package.
pub fn upgrade_command(ids: &[String]) -> (cmd: String)
    ensures
        cmd@ == upgrade_command_text(views_of(ids@)),
{
    let ghost v = views_of(ids@);
    let mut cmd = owned("winget upgrade");
    let mut k: usize = 0;
    assert(v.take(0) =~= Seq::<Seq<char>>::empty());
    while k < ids.len()
        invariant
            k <= ids@.len(),
            v == views_of(ids@),
            cmd@ == "winget upgrade"@ + spaced(v.take(k as int)),
        decreases ids@.len() - k,
    {
        cmd.append(" ");
        cmd.append(ids[k].as_str());
        proof {
            reveal_strlit(" ");
            assert(v.take(k + 1).drop_last() =~= v.take(k as int));
            assert(v.take(k + 1).last() == ids@[k as int]@);
            assert(cmd@ =~= "winget upgrade"@ + spaced(v.take(k + 1)));
        }
        k = k + 1;
    }
    assert(v.take(ids@.len() as int) =~= v);
    cmd.append(" --exact --include-unknown");
    cmd
}

/// A usable identifier holds no space.
proof fn lemma_valid_id_no_space(id: Seq<char>)
    requires
        valid_id(id),
    ensures
        no_space(id),
{
    assert forall|i: int| 0 <= i < id.len() implies id[i] != ' ' by {
        assert(id_char(id[i]));
    }
}

proof fn lemma_command_head_words(ids: Seq<Seq<char>>)
    requires
        forall|i: int| 0 <= i < ids.len() ==> valid_id(#[trigger] ids[i]),
    ensures
        split_spaces("winget upgrade"@ + spaced(ids)) == seq!["winget"@, "upgrade"@] + ids,
    decreases ids.len(),
{
    if ids.len() == 0 {
        reveal_strlit("winget upgrade");
        reveal_strlit("winget");
        reveal_strlit("upgrade");
        assert("winget upgrade"@ + spaced(ids) =~= "winget"@ + seq![' '] + "upgrade"@);
        lemma_split_spaces_join("winget"@, "upgrade"@);
        lemma_split_spaces_word("winget"@);
        lemma_split_spaces_word("upgrade"@);
        assert(seq!["winget"@] + seq!["upgrade"@] =~= seq!["winget"@, "upgrade"@] + ids);
    } else {
        let rest = ids.drop_last();
        assert forall|i: int| 0 <= i < rest.len() implies valid_id(#[trigger] rest[i]) by {
            assert(rest[i] == ids[i]);
        }
        lemma_command_head_words(rest);
        let last = ids.last();
        assert(valid_id(ids[ids.len() - 1]));
        lemma_valid_id_no_space(last);
        lemma_split_spaces_word(last);
        assert("winget upgrade"@ + spaced(ids) =~= ("winget upgrade"@ + spaced(rest)) + seq![' ']
            + last);
        lemma_split_spaces_join("winget upgrade"@ + spaced(rest), last);
        assert(seq!["winget"@, "upgrade"@] + rest + seq![last] =~= seq!["winget"@, "upgrade"@]
            + ids);
    }
}

/// Split at its spaces, the upgrade command for usable identifiers gives back
/// `winget`, `upgrade`, the identifiers in order, `--exact` and
/// `--include-unknown`, and nothing else: no identifier starts with `-`, so
/// none of them is an option, and neither `--silent` nor
/// `--accept-package-agreements` is on the line. Installer UI, licence prompts
/// and elevation all reach the user.
pub proof fn lemma_upgrade_command_words(ids: Seq<Seq<char>>)
    requires
        forall|i: int| 0 <= i < ids.len() ==> valid_id(#[trigger] ids[i]),
    ensures
        split_spaces(upgrade_command_text(ids)) == seq!["winget"@, "upgrade"@] + ids + seq![
            "--exact"@,
            "--include-unknown"@,
        ],
        forall|i: int| 0 <= i < ids.len() ==> (#[trigger] ids[i])[0] != '-',
        !split_spaces(upgrade_command_text(ids)).contains("--silent"@),
        !split_spaces(upgrade_command_text(ids)).contains("--accept-package-agreements"@),
{
    reveal_strlit(" --exact --include-unknown");
    reveal_strlit("--exact");
    reveal_strlit("--include-unknown");
    reveal_strlit("--silent");
    reveal_strlit("--accept-package-agreements");
    reveal_strlit("winget");
    reveal_strlit("upgrade");
    let head = "winget upgrade"@ + spaced(ids);
    lemma_command_head_words(ids);
    assert(upgrade_command_text(ids) =~= (head + seq![' '] + "--exact"@) + seq![' ']
        + "--include-unknown"@);
    lemma_split_spaces_join(head, "--exact"@);
    lemma_split_spaces_join(head + seq![' '] + "--exact"@, "--include-unknown"@);
    lemma_split_spaces_word("--exact"@);
    lemma_split_spaces_word("--include-unknown"@);
    let words = split_spaces(upgrade_command_text(ids));
    assert(words =~= seq!["winget"@, "upgrade"@] + ids + seq!["--exact"@, "--include-unknown"@]);
    assert forall|i: int| 0 <= i < ids.len() implies (#[trigger] ids[i])[0] != '-' by {
        assert(valid_id(ids[i]));
    }
    assert forall|j: int| 0 <= j < words.len() implies words[j] != "--silent"@ && words[j]
        != "--accept-package-agreements"@ by {
        if 2 <= j < 2 + ids.len() {
            assert(words[j] == ids[j - 2]);
            assert(valid_id(ids[j - 2]));
            assert("--silent"@[0] == '-');
            assert("--accept-package-agreements"@[0] == '-');
        } else {
            assert("winget"@.len() == 6 && "upgrade"@.len() == 7 && "--exact"@.len() == 7
                && "--include-unknown"@.len() == 17);
            assert("--silent"@.len() == 8 && "--accept-package-agreements"@.len() == 27);
            if j == 0 {
                assert(words[j] == "winget"@);
            } else if j == 1 {
                assert(words[j] == "upgrade"@);
            } else if j == 2 + ids.len() {
                assert(words[j] == "--exact"@);
            } else {
                assert(words[j] == "--include-unknown"@);
            }
        }
    }
}

/// A text with no line feed in it.
pub open spec fn no_lf(s: Seq<char>) -> bool {
    forall|i: int| 0 <= i < s.len() ==> s[i] != '\n'
}

proof fn lemma_no_lf_concat(a: Seq<char>, b: Seq<char>)
    requires
        no_lf(a),
        no_lf(b),
    ensures
        no_lf(a + b),
{
    assert forall|i: int| 0 <= i < (a + b).len() implies (a + b)[i] != '\n' by {
        if i >= a.len() {
            assert((a + b)[i] == b[i - a.len()]);
        }
    }
}

proof fn lemma_decimal_no_lf(n: nat)
    ensures
        no_lf(decimal(n)),
    decreases n,
{
    if n >= 10 {
        lemma_decimal_no_lf(n / 10);
        lemma_no_lf_concat(decimal(n / 10), seq![crate::text::digit(n % 10)]);
    }
}

proof fn lemma_spaced_no_lf(ids: Seq<Seq<char>>)
    requires
        forall|i: int| 0 <= i < ids.len() ==> valid_id(#[trigger] ids[i]),
    ensures
        no_lf(spaced(ids)),
    decreases ids.len(),
{
    if ids.len() > 0 {
        let rest = ids.drop_last();
        assert forall|i: int| 0 <= i < rest.len() implies valid_id(#[trigger] rest[i]) by {
            assert(rest[i] == ids[i]);
        }
        lemma_spaced_no_lf(rest);
        let last = ids.last();
        assert(valid_id(ids[ids.len() - 1]));
        assert forall|i: int| 0 <= i < last.len() implies last[i] != '\n' by {
            assert(id_char(last[i]));
        }
        lemma_no_lf_concat(spaced(rest), seq![' ']);
        lemma_no_lf_concat(spaced(rest) + seq![' '], last);
    }
}

/// The third line of the upgrade script for usable identifiers is the upgrade
/// command itself, so what `lemma_upgrade_command_words` says of the command
/// is what the terminal runs: no silent switch, no agreement switch, nothing
/// but the identifiers.
pub proof fn lemma_upgrade_script_runs_the_command(ids: Seq<Seq<char>>, sentinel: Seq<char>)
    requires
        forall|i: int| 0 <= i < ids.len() ==> valid_id(#[trigger] ids[i]),
    ensures
        lines(upgrade_script_text(ids, sentinel)).len() >= 3,
        lines(upgrade_script_text(ids, sentinel))[2] == upgrade_command_text(ids),
{
    reveal_strlit("@echo off\r\ntitle tinyget - upgrading ");
    reveal_strlit(" package");
    reveal_strlit("s");
    reveal_strlit("\r\n");
    reveal_strlit("\r\n>\"");
    reveal_strlit("winget upgrade");
    reveal_strlit(" --exact --include-unknown");
    reveal_strlit("\" echo %ERRORLEVEL%\r\necho.\r\necho Finished. Press any key to close this window.\r\npause > nul\r\n");
    let plural = if ids.len() == 1 {
        Seq::<char>::empty()
    } else {
        "s"@
    };
    let cmd = upgrade_command_text(ids);
    let a = seq!['@', 'e', 'c', 'h', 'o', ' ', 'o', 'f', 'f', '\r'];
    let title = seq!['t', 'i', 't', 'l', 'e', ' ', 't', 'i', 'n', 'y', 'g', 'e', 't', ' ', '-', ' ',
        'u', 'p', 'g', 'r', 'a', 'd', 'i', 'n', 'g', ' '];
    let b = title + decimal(ids.len()) + " package"@ + plural + seq!['\r'];
    let c = cmd + seq!['\r'];
    let d = seq!['>', '"'] + sentinel
        + "\" echo %ERRORLEVEL%\r\necho.\r\necho Finished. Press any key to close this window.\r\npause > nul\r\n"@;
    assert("@echo off\r\ntitle tinyget - upgrading "@ =~= a + seq!['\n'] + title);
    assert("\r\n>\""@ =~= seq!['\r', '\n', '>', '"']);
    assert(upgrade_script_text(ids, sentinel) =~= a + seq!['\n'] + b + seq!['\n'] + c + seq![
        '\n',
    ] + d);
    lemma_decimal_no_lf(ids.len());
    lemma_spaced_no_lf(ids);
    assert(no_lf(title));
    assert(no_lf(" package"@));
    assert(no_lf(plural));
    assert(no_lf(seq!['\r']));
    lemma_no_lf_concat(title, decimal(ids.len()));
    lemma_no_lf_concat(title + decimal(ids.len()), " package"@);
    lemma_no_lf_concat(title + decimal(ids.len()) + " package"@, plural);
    lemma_no_lf_concat(title + decimal(ids.len()) + " package"@ + plural, seq!['\r']);
    assert(no_lf("winget upgrade"@));
    assert(no_lf(" --exact --include-unknown"@));
    lemma_no_lf_concat("winget upgrade"@, spaced(ids));
    lemma_no_lf_concat("winget upgrade"@ + spaced(ids), " --exact --include-unknown"@);
    lemma_no_lf_concat(cmd, seq!['\r']);
    assert(no_lf(a));
    lemma_split_lf_single(a);
    lemma_split_lf_single(b);
    lemma_split_lf_single(c);
    lemma_split_lf_join(a, b);
    lemma_split_lf_join(a + seq!['\n'] + b, c);
    lemma_split_lf_join(a + seq!['\n'] + b + seq!['\n'] + c, d);
    let p = split_lf(upgrade_script_text(ids, sentinel));
    assert(p == seq![a] + seq![b] + seq![c] + split_lf(d));
    assert(p[2] == c);
    assert(c.drop_last() =~= cmd);
}

/// The position of the first identifier in `ids` that is not usable.
pub open spec fn first_unusable(ids: Seq<Seq<char>>) -> Option<int>
    decreases ids.len(),
{
    if ids.len() == 0 {
        None
    } else {
        match first_unusable(ids.drop_last()) {
            Some(i) => Some(i),
            None => if valid_id(ids.last()) {
                None
            } else {
                Some(ids.len() - 1)
            },
        }
    }
}

/// The batch script that upgrades `ids` in a terminal window, then records
/// winget's exit code in the file `sentinel` and waits for a key.
pub open spec fn upgrade_script_text(ids: Seq<Seq<char>>, sentinel: Seq<char>) -> Seq<char> {
    "@echo off\r\ntitle tinyget - upgrading "@ + decimal(ids.len()) + " package"@ + (if ids.len()
        == 1 {
        Seq::<char>::empty()
    } else {
        "s"@
    }) + "\r\n"@ + upgrade_command_text(ids) + "\r\n>\""@ + sentinel
        + "\" echo %ERRORLEVEL%\r\necho.\r\necho Finished. Press any key to close this window.\r\npause > nul\r\n"@
}

/// The script that upgrades `ids` in a terminal the user can watch, writing
/// winget's exit code to the file `sentinel` before it pauses. Refused when
/// nothing is selected, or for the first identifier that is not one.
///
/// Deliberately not silent: no `--silent` and no `--accept-package-agreements`,
/// so installer UI, licence prompts and elevation all appear in front of the
/// user rather than being answered on their behalf. The redirect comes first on
/// the sentinel line on purpose: written the other way round,
/// `echo %ERRORLEVEL%>"file"` with an exit code of 0 parses as `echo 0>"file"`,
/// which cmd reads as redirecting handle 0 and writes nothing.
pub fn upgrade_script(ids: &[String], sentinel: &str) -> (r: Result<String, Error>)
    ensures
        ({
            let v = views_of(ids@);
            match r {
                Ok(script) => v.len() > 0 && first_unusable(v) is None && script@
                    == upgrade_script_text(v, sentinel@),
                Err(e) => if v.len() == 0 {
                    e@ == "No packages are selected."@
                } else {
                    first_unusable(v) matches Some(i) && e@ == unusable_id_text(
                        debug_quoted(v[i]),
                    )
                },
            }
        }),
{
    let ghost v = views_of(ids@);
    if ids.len() == 0 {
        return Err(Error(owned("No packages are selected.")));
    }
    let mut k: usize = 0;
    assert(v.take(0) =~= Seq::<Seq<char>>::empty());
    while k < ids.len()
        invariant
            k <= ids@.len(),
            v == views_of(ids@),
            first_unusable(v.take(k as int)) is None,
        decreases ids@.len() - k,
    {
        assert(v.take(k + 1).drop_last() =~= v.take(k as int));
        assert(v.take(k + 1).last() == ids@[k as int]@);
        if !is_valid_id(ids[k].as_str()) {
            proof {
                lemma_first_unusable_prefix(v, k as int + 1);
            }
            let q = debug_str(ids[k].as_str());
            return Err(unusable_id(q.as_str()));
        }
        k = k + 1;
    }
    assert(v.take(ids@.len() as int) =~= v);
    let mut script = owned("@echo off\r\ntitle tinyget - upgrading ");
    push_decimal(&mut script, ids.len() as u64);
    script.append(" package");
    if ids.len() != 1 {
        script.append("s");
    }
    script.append("\r\n");
    let cmd = upgrade_command(ids);
    script.append(cmd.as_str());
    script.append("\r\n>\"");
    script.append(sentinel);
    script.append("\" echo %ERRORLEVEL%\r\necho.\r\necho Finished. Press any key to close this window.\r\npause > nul\r\n",
    );
    assert(script@ =~= upgrade_script_text(v, sentinel@));
    Ok(script)
}

/// A first unusable identifier in a prefix is the first in the whole list.
proof fn lemma_first_unusable_prefix(ids: Seq<Seq<char>>, n: int)
    requires
        0 <= n <= ids.len(),
        first_unusable(ids.take(n)) is Some,
    ensures
        first_unusable(ids) == first_unusable(ids.take(n)),
    decreases ids.len() - n,
{
    if n < ids.len() {
        assert(ids.take(n + 1).drop_last() =~= ids.take(n));
        lemma_first_unusable_prefix(ids, n + 1);
    } else {
        assert(ids.take(n) =~= ids);
    }
}


/// Only usable identifiers reach a command line: no identifier is unusable
/// exactly when every one is usable.
pub proof fn lemma_first_unusable_none(ids: Seq<Seq<char>>)
    ensures
        first_unusable(ids) is None <==> forall|i: int| 0 <= i < ids.len() ==> valid_id(#[trigger] ids[i]),
    decreases ids.len(),
{
    if ids.len() > 0 {
        let rest = ids.drop_last();
        lemma_first_unusable_none(rest);
        if first_unusable(ids) is None {
            assert forall|i: int| 0 <= i < ids.len() implies valid_id(#[trigger] ids[i]) by {
                if i < rest.len() {
                    assert(rest[i] == ids[i]);
                }
            }
        } else {
            if first_unusable(rest) is None {
                assert(!valid_id(ids[ids.len() - 1]));
            } else {
                let i = choose|i: int| 0 <= i < rest.len() && !valid_id(#[trigger] rest[i]);
                assert(rest[i] == ids[i]);
            }
        }
    }
}

} // verus!
