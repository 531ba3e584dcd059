//! What the window is a view of: the upgrades on offer, the pins, the filter,
//! and which packages are ticked for upgrade.

use vstd::prelude::*;
use vstd::string::StringExecFns;
use crate::text::{chars_of, digit, digit_char, owned, string_of, trim, trimmed};
use crate::winget::{
    upgrade_command, upgrade_command_text, views_of, Error, Pin, PinKind, Upgrade,
};

verus! {

// ------------------------------------------------------------ matching the filter

/// What `str::to_lowercase` gives for `s`: its Unicode lowercase form.
pub uninterp spec fn lowercase(s: Seq<char>) -> Seq<char>;

/// `str::to_lowercase`. Trusted: its result is taken to be `lowercase(s@)`, a
/// function of `s` alone; the Unicode case mapping itself is not stated here.
#[verifier::external_body]
fn to_lowercase(s: &str) -> (r: String)
    ensures
        r@ == lowercase(s@),
{
    s.to_lowercase()
}

/// Whether `needle` occurs in `hay`; the empty text occurs everywhere.
pub open spec fn has_substring(hay: Seq<char>, needle: Seq<char>) -> bool {
    exists|i: int|
        0 <= i && i + needle.len() <= hay.len() && #[trigger] hay.subrange(i, i + needle.len())
            == needle
}

/// Whether `needle` occurs in `hay`.
pub fn contains(hay: &[char], needle: &[char]) -> (b: bool)
    ensures
        b == has_substring(hay@, needle@),
{
    let n = needle.len();
    let hl = hay.len();
    if n > hl {
        return false;
    }
    let mut i: usize = 0;
    while i <= hl - n
        invariant
            hl == hay@.len(),
            n == needle@.len() <= hay@.len(),
            i <= hay@.len() - n + 1,
            forall|j: int| 0 <= j < i ==> #[trigger] hay@.subrange(j, j + n) != needle@,
        decreases hay@.len() + 1 - i,
    {
        let mut k: usize = 0;
        let mut same = true;
        while k < n && same
            invariant
                n == needle@.len(),
                hl == hay@.len(),
                i + n <= hay@.len(),
                k <= n,
                forall|m: int| 0 <= m < k ==> hay@[i + m] == needle@[m],
                !same ==> k < n && hay@[i + k] != needle@[k as int],
            decreases n - k + if same { 1int } else { 0int },
        {
            if hay[i + k] == needle[k] {
                k = k + 1;
            } else {
                same = false;
            }
        }
        if k == n {
            assert(hay@.subrange(i as int, i + n) =~= needle@);
            return true;
        }
        assert(hay@.subrange(i as int, i + n)[k as int] != needle@[k as int]);
        i = i + 1;
    }
    proof {
        assert forall|j: int|
            0 <= j && j + n <= hay@.len() implies #[trigger] hay@.subrange(j, j + n) != needle@ by {
            assert(j < i);
        }
    }
    false
}

/// Whether a filter `f` lets a package with name `name` and identifier `id` be
/// shown: an empty filter shows everything, else it must occur in the name or
/// the identifier.
pub open spec fn admits(f: Seq<char>, name: Seq<char>, id: Seq<char>) -> bool {
    ||| f.len() == 0
    ||| has_substring(name, f)
    ||| has_substring(id, f)
}

/// Whether the filter `filter` lets the upgrade `u` be shown: the lowercase
/// filter admits the lowercase name and identifier.
pub open spec fn shown(filter: Seq<char>, u: Upgrade) -> bool {
    admits(lowercase(filter), lowercase(u.name@), lowercase(u.id@))
}

/// Whether the filter `f` lets a package with name `name` and identifier `id`
/// be shown; the window hands it all three in lowercase.
pub fn filter_admits(f: &str, name: &str, id: &str) -> (b: bool)
    ensures
        b == admits(f@, name@, id@),
{
    let fc = chars_of(f);
    if fc.len() == 0 {
        return true;
    }
    let nc = chars_of(name);
    if contains(nc.as_slice(), fc.as_slice()) {
        return true;
    }
    let ic = chars_of(id);
    contains(ic.as_slice(), fc.as_slice())
}

/// The upgrades among `ups` that the filter lets through, in order.
pub open spec fn shown_upgrades(ups: Seq<Upgrade>, filter: Seq<char>) -> Seq<Upgrade>
    decreases ups.len(),
{
    if ups.len() == 0 {
        Seq::empty()
    } else {
        let rest = shown_upgrades(ups.drop_last(), filter);
        if shown(filter, ups.last()) {
            rest.push(ups.last())
        } else {
            rest
        }
    }
}

/// Whether some upgrade in `ups` is for the package `id`.
pub open spec fn offered(ups: Seq<Upgrade>, id: Seq<char>) -> bool {
    exists|i: int| 0 <= i < ups.len() && #[trigger] ups[i].id@ == id
}

/// The identifiers of `sel` that some upgrade in `ups` is for.
pub open spec fn still_offered(sel: Set<Seq<char>>, ups: Seq<Upgrade>) -> Set<Seq<char>> {
    sel.filter(|x: Seq<char>| offered(ups, x))
}

/// The identifiers of `ups`, in order.
pub open spec fn ids_of(ups: Seq<Upgrade>) -> Seq<Seq<char>> {
    ups.map_values(|u: Upgrade| u.id@)
}

/// The identifiers in `ups` that are in `sel`, in the order of `ups`.
pub open spec fn selected_in(ups: Seq<Upgrade>, sel: Set<Seq<char>>) -> Seq<Seq<char>>
    decreases ups.len(),
{
    if ups.len() == 0 {
        Seq::empty()
    } else {
        let rest = selected_in(ups.drop_last(), sel);
        if sel.contains(ups.last().id@) {
            rest.push(ups.last().id@)
        } else {
            rest
        }
    }
}

/// The selection after ticking or unticking `id`.
pub open spec fn toggled(sel: Set<Seq<char>>, id: Seq<char>) -> Set<Seq<char>> {
    if sel.contains(id) {
        sel.remove(id)
    } else {
        sel.insert(id)
    }
}

/// The selection after "select all" with the identifiers `vis` on view: all of
/// them cleared if all are ticked, else all of them ticked.
pub open spec fn all_toggled(sel: Set<Seq<char>>, vis: Set<Seq<char>>) -> Set<Seq<char>> {
    if vis.subset_of(sel) {
        sel.difference(vis)
    } else {
        sel.union(vis)
    }
}


// ------------------------------------------------------------ sets held in sequences

proof fn lemma_remove_from_set(s: Seq<Seq<char>>, i: int)
    requires
        s.no_duplicates(),
        0 <= i < s.len(),
    ensures
        s.remove(i).no_duplicates(),
        s.remove(i).to_set() == s.to_set().remove(s[i]),
{
    s.remove_ensures(i);
    let r = s.remove(i);
    assert forall|a: int, b: int| 0 <= a < r.len() && 0 <= b < r.len() && a != b implies r[a]
        != r[b] by {
        let ia = if a < i { a } else { a + 1 };
        let ib = if b < i { b } else { b + 1 };
        assert(r[a] == s[ia]);
        assert(r[b] == s[ib]);
    }
    assert forall|x: Seq<char>| r.contains(x) <==> (s.contains(x) && x != s[i]) by {
        if r.contains(x) {
            let j = choose|j: int| 0 <= j < r.len() && r[j] == x;
            let k = if j < i { j } else { j + 1 };
            assert(s[k] == x);
        }
        if s.contains(x) && x != s[i] {
            let k = choose|k: int| 0 <= k < s.len() && s[k] == x;
            let j = if k < i { k } else { k - 1 };
            assert(r[j] == x);
        }
    }
    assert(r.to_set() =~= s.to_set().remove(s[i]));
}

proof fn lemma_push_to_set(s: Seq<Seq<char>>, x: Seq<char>)
    requires
        s.no_duplicates(),
        !s.contains(x),
    ensures
        s.push(x).no_duplicates(),
        s.push(x).to_set() == s.to_set().insert(x),
{
    let r = s.push(x);
    assert forall|a: int, b: int| 0 <= a < r.len() && 0 <= b < r.len() && a != b implies r[a]
        != r[b] by {
        if a == s.len() {
            assert(s[b] == r[b]);
        } else if b == s.len() {
            assert(s[a] == r[a]);
        }
    }
    assert forall|y: Seq<char>| r.contains(y) <==> (s.contains(y) || y == x) by {
        if r.contains(y) {
            let j = choose|j: int| 0 <= j < r.len() && r[j] == y;
            if j < s.len() {
                assert(s[j] == y);
            }
        }
        if s.contains(y) {
            let k = choose|k: int| 0 <= k < s.len() && s[k] == y;
            assert(r[k] == y);
        }
        if y == x {
            assert(r[s.len() as int] == y);
        }
    }
    assert(r.to_set() =~= s.to_set().insert(x));
}


proof fn lemma_take_to_set(s: Seq<Seq<char>>, k: int)
    requires
        0 <= k < s.len(),
    ensures
        s.take(k + 1).to_set() == s.take(k).to_set().insert(s[k]),
{
    let a = s.take(k + 1);
    let b = s.take(k);
    assert forall|y: Seq<char>| a.contains(y) <==> (b.contains(y) || y == s[k]) by {
        if a.contains(y) {
            let j = choose|j: int| 0 <= j < a.len() && a[j] == y;
            if j < k {
                assert(b[j] == y);
            }
        }
        if b.contains(y) {
            let j = choose|j: int| 0 <= j < b.len() && b[j] == y;
            assert(a[j] == y);
        }
        if y == s[k] {
            assert(a[k] == y);
        }
    }
    assert(a.to_set() =~= b.to_set().insert(s[k]));
}

/// The message a scan leaves: the upgrade list's failure, else the pin list's,
/// else the note it was started with.
pub open spec fn scan_message(
    upgrades: Result<Vec<Upgrade>, Error>,
    pins: Result<Vec<Pin>, Error>,
    note: Seq<char>,
) -> Seq<char> {
    match upgrades {
        Err(e) => e@,
        Ok(_) => match pins {
            Err(e) => e@,
            Ok(_) => note,
        },
    }
}

/// How many of `pins` are (when `blocking`) or are not (otherwise) blocking pins.
pub open spec fn count_pins(pins: Seq<Pin>, blocking: bool) -> nat
    decreases pins.len(),
{
    if pins.len() == 0 {
        0
    } else {
        count_pins(pins.drop_last(), blocking) + if (pins.last().kind == PinKind::Blocking)
            == blocking {
            1nat
        } else {
            0nat
        }
    }
}

/// The command the window previews for the ticked identifiers `ids`.
pub open spec fn command_preview_text(ids: Seq<Seq<char>>) -> Seq<char> {
    if ids.len() == 0 {
        "Select at least one package."@
    } else {
        upgrade_command_text(ids)
    }
}

/// Everything the window is a view of.
pub struct State {
    upgrades: Vec<Upgrade>,
    pins: Vec<Pin>,
    /// Package identifiers ticked for upgrade. Kept by identifier rather than by
    /// row index so a rescan does not silently move the selection to other rows.
    /// Each is held once. A vector rather than a `HashSet`: vstd models the
    /// hashing of integer and `bool` keys only, so nothing could be proved of
    /// what a `HashSet<String>` holds; the type invariant keeps it a set.
    selected: Vec<String>,
    filter: String,
}

impl State {
    /// The upgrades on offer, in display order.
    pub closed spec fn upgrade_list(&self) -> Seq<Upgrade> {
        self.upgrades@
    }

    /// The pins winget holds.
    pub closed spec fn pin_list(&self) -> Seq<Pin> {
        self.pins@
    }

    /// The filter text.
    pub closed spec fn filter_text(&self) -> Seq<char> {
        self.filter@
    }

    /// The identifiers ticked for upgrade.
    pub closed spec fn selection(&self) -> Set<Seq<char>> {
        views_of(self.selected@).to_set()
    }

    /// Each ticked identifier is held once.
    #[verifier::type_invariant]
    spec fn wf(self) -> bool {
        views_of(self.selected@).no_duplicates()
    }

    /// Nothing listed, nothing ticked, no filter.
    pub fn new() -> (s: State)
        ensures
            s.upgrade_list().len() == 0,
            s.pin_list().len() == 0,
            s.filter_text().len() == 0,
            s.selection() == Set::<Seq<char>>::empty(),
    {
        let s = State {
            upgrades: Vec::new(),
            pins: Vec::new(),
            selected: Vec::new(),
            filter: String::new(),
        };
        assert(views_of(s.selected@) =~= Seq::<Seq<char>>::empty());
        assert(s.selection() =~= Set::<Seq<char>>::empty());
        s
    }

    /// Upgrades matching the current filter, in display order.
    pub fn visible(&self) -> (v: Vec<&Upgrade>)
        ensures
            v@.map_values(|u: &Upgrade| *u) == shown_upgrades(self.upgrade_list(), self.filter_text()),
    {
        let f = to_lowercase(self.filter.as_str());
        let ghost ups = self.upgrades@;
        let mut v: Vec<&Upgrade> = Vec::new();
        let mut k: usize = 0;
        assert(ups.take(0) =~= Seq::<Upgrade>::empty());
        while k < self.upgrades.len()
            invariant
                k <= ups.len(),
                ups == self.upgrades@,
                f@ == lowercase(self.filter@),
                v@.map_values(|u: &Upgrade| *u) == shown_upgrades(ups.take(k as int), self.filter@),
            decreases ups.len() - k,
        {
            let u = &self.upgrades[k];
            let name = to_lowercase(u.name.as_str());
            let id = to_lowercase(u.id.as_str());
            let keep = filter_admits(f.as_str(), name.as_str(), id.as_str());
            assert(keep == shown(self.filter@, *u));
            assert(ups.take(k + 1).drop_last() =~= ups.take(k as int));
            assert(ups.take(k + 1).last() == *u);
            let ghost v0 = v@;
            let ghost before = shown_upgrades(ups.take(k as int), self.filter@);
            if keep {
                v.push(u);
                assert(v@.map_values(|u: &Upgrade| *u) =~= v0.map_values(|u: &Upgrade| *u).push(
                    *u,
                ));
                assert(shown_upgrades(ups.take(k + 1), self.filter@) == before.push(*u));
            } else {
                assert(shown_upgrades(ups.take(k + 1), self.filter@) == before);
            }
            k = k + 1;
        }
        assert(ups.take(ups.len() as int) =~= ups);
        v
    }

    /// Where `id` stands among the ticked identifiers.
    fn position(&self, id: &String) -> (r: Option<usize>)
        ensures
            match r {
                Some(i) => i < self.selected@.len() && views_of(self.selected@)[i as int] == id@,
                None => !views_of(self.selected@).contains(id@),
            },
    {
        let mut i: usize = 0;
        while i < self.selected.len()
            invariant
                i <= self.selected@.len(),
                forall|j: int| 0 <= j < i ==> views_of(self.selected@)[j] != id@,
            decreases self.selected@.len() - i,
        {
            if self.selected[i] == *id {
                return Some(i);
            }
            i = i + 1;
        }
        None
    }

    /// Ticks `id`.
    fn select(&mut self, id: String)
        ensures
            final(self).selection() == old(self).selection().insert(id@),
            final(self).upgrades == old(self).upgrades,
            final(self).pins == old(self).pins,
            final(self).filter == old(self).filter,
    {
        proof {
            use_type_invariant(&*self);
        }
        match self.position(&id) {
            Some(_) => {
                proof {
                    assert(self.selection() =~= self.selection().insert(id@));
                }
            },
            None => {
                let ghost before = views_of(self.selected@);
                proof {
                    lemma_push_to_set(before, id@);
                }
                let mut sel: Vec<String> = Vec::new();
                std::mem::swap(&mut sel, &mut self.selected);
                sel.push(id);
                assert(views_of(sel@) =~= before.push(id@));
                self.selected = sel;
            },
        }
    }

    /// Unticks `id`.
    fn deselect(&mut self, id: &String)
        ensures
            final(self).selection() == old(self).selection().remove(id@),
            final(self).upgrades == old(self).upgrades,
            final(self).pins == old(self).pins,
            final(self).filter == old(self).filter,
    {
        proof {
            use_type_invariant(&*self);
        }
        match self.position(id) {
            Some(i) => {
                let ghost before = views_of(self.selected@);
                proof {
                    lemma_remove_from_set(before, i as int);
                }
                let mut sel: Vec<String> = Vec::new();
                std::mem::swap(&mut sel, &mut self.selected);
                sel.remove(i);
                assert(views_of(sel@) =~= before.remove(i as int));
                self.selected = sel;
            },
            None => {
                proof {
                    assert(self.selection() =~= self.selection().remove(id@));
                }
            },
        }
    }

    /// Whether `id` is ticked.
    pub fn is_selected(&self, id: &str) -> (b: bool)
        ensures
            b == self.selection().contains(id@),
    {
        let key = owned(id);
        self.position(&key).is_some()
    }

    /// Ticks `id` if it is not ticked, and unticks it if it is.
    pub fn toggle(&mut self, id: &str)
        ensures
            final(self).selection() == toggled(old(self).selection(), id@),
            final(self).upgrade_list() == old(self).upgrade_list(),
            final(self).pin_list() == old(self).pin_list(),
            final(self).filter_text() == old(self).filter_text(),
    {
        let key = owned(id);
        if self.position(&key).is_some() {
            self.deselect(&key);
        } else {
            self.select(key);
        }
    }

    /// Selected identifiers that are still on offer, in display order, so the
    /// command matches what the user can see ticked.
    pub fn selected_ids(&self) -> (ids: Vec<String>)
        ensures
            views_of(ids@) == selected_in(self.upgrade_list(), self.selection()),
    {
        let ghost ups = self.upgrades@;
        let mut ids: Vec<String> = Vec::new();
        let mut k: usize = 0;
        assert(ups.take(0) =~= Seq::<Upgrade>::empty());
        while k < self.upgrades.len()
            invariant
                k <= ups.len(),
                ups == self.upgrades@,
                views_of(ids@) == selected_in(ups.take(k as int), self.selection()),
            decreases ups.len() - k,
        {
            let u = &self.upgrades[k];
            assert(ups.take(k + 1).drop_last() =~= ups.take(k as int));
            assert(ups.take(k + 1).last() == *u);
            let ghost before = views_of(ids@);
            if self.position(&u.id).is_some() {
                ids.push(u.id.clone());
                assert(views_of(ids@) =~= before.push(u.id@));
            }
            k = k + 1;
        }
        assert(ups.take(ups.len() as int) =~= ups);
        ids
    }

    /// Ticks every visible row, or clears them all if they are already ticked.
    /// Rows hidden by the filter are left alone either way.
    pub fn select_all(&mut self)
        ensures
            final(self).selection() == all_toggled(
                old(self).selection(),
                ids_of(shown_upgrades(old(self).upgrade_list(), old(self).filter_text())).to_set(),
            ),
            final(self).upgrade_list() == old(self).upgrade_list(),
            final(self).pin_list() == old(self).pin_list(),
            final(self).filter_text() == old(self).filter_text(),
    {
        let ghost sel0 = self.selection();
        let mut vis: Vec<String> = Vec::new();
        {
            let v = self.visible();
            let ghost shown_v = v@.map_values(|u: &Upgrade| *u);
            let mut k: usize = 0;
            while k < v.len()
                invariant
                    k <= v@.len(),
                    shown_v == v@.map_values(|u: &Upgrade| *u),
                    views_of(vis@) == ids_of(shown_v.take(k as int)),
                decreases v@.len() - k,
            {
                let ghost before = views_of(vis@);
                vis.push(v[k].id.clone());
                assert(shown_v[k as int] == *v@[k as int]);
                assert(shown_v.take(k + 1) =~= shown_v.take(k as int).push(shown_v[k as int]));
                assert(views_of(vis@) =~= before.push(shown_v[k as int].id@));
                assert(views_of(vis@) =~= ids_of(shown_v.take(k + 1)));
                k = k + 1;
            }
            assert(shown_v.take(v@.len() as int) =~= shown_v);
        }
        let ghost vv = views_of(vis@);
        let ghost vset = vv.to_set();
        assert(vv == ids_of(shown_upgrades(self.upgrade_list(), self.filter_text())));
        let mut all = true;
        let mut k: usize = 0;
        while k < vis.len()
            invariant
                k <= vis@.len(),
                vv == views_of(vis@),
                self.selection() == sel0,
                all == (forall|j: int| 0 <= j < k ==> sel0.contains(#[trigger] vv[j])),
            decreases vis@.len() - k,
        {
            assert(vv[k as int] == vis@[k as int]@);
            if !self.is_selected(vis[k].as_str()) {
                all = false;
            }
            k = k + 1;
        }
        let ghost upgrades0 = self.upgrades;
        let ghost pins0 = self.pins;
        let ghost filter0 = self.filter;
        let mut k: usize = 0;
        assert(vv.take(0).to_set() =~= Set::<Seq<char>>::empty());
        while k < vis.len()
            invariant
                k <= vis@.len(),
                vv == views_of(vis@),
                self.upgrades == upgrades0,
                self.pins == pins0,
                self.filter == filter0,
                all ==> self.selection() == sel0.difference(vv.take(k as int).to_set()),
                !all ==> self.selection() == sel0.union(vv.take(k as int).to_set()),
            decreases vis@.len() - k,
        {
            proof {
                lemma_take_to_set(vv, k as int);
            }
            if all {
                self.deselect(&vis[k]);
                assert(self.selection() =~= sel0.difference(vv.take(k + 1).to_set()));
            } else {
                self.select(vis[k].clone());
                assert(self.selection() =~= sel0.union(vv.take(k + 1).to_set()));
            }
            k = k + 1;
        }
        assert(vv.take(vis@.len() as int) =~= vv);
        proof {
            if all {
                assert forall|x: Seq<char>| vset.contains(x) implies sel0.contains(x) by {
                    let j = choose|j: int| 0 <= j < vv.len() && vv[j] == x;
                }
            } else {
                let j = choose|j: int| 0 <= j < vv.len() && !sel0.contains(vv[j]);
                assert(vset.contains(vv[j]));
            }
        }
    }

    /// Filter the upgrades shown by `text`, white space around it aside.
    pub fn set_filter(&mut self, text: &str)
        ensures
            final(self).filter_text() == trim(text@),
            final(self).selection() == old(self).selection(),
            final(self).upgrade_list() == old(self).upgrade_list(),
            final(self).pin_list() == old(self).pin_list(),
    {
        proof {
            use_type_invariant(&*self);
        }
        self.filter = trimmed(text);
    }

    /// Whether some upgrade in `ups` is for the package `id`.
    fn is_offered(ups: &Vec<Upgrade>, id: &String) -> (b: bool)
        ensures
            b == offered(ups@, id@),
    {
        let mut i: usize = 0;
        while i < ups.len()
            invariant
                i <= ups@.len(),
                forall|j: int| 0 <= j < i ==> ups@[j].id@ != id@,
            decreases ups@.len() - i,
        {
            if ups[i].id == *id {
                return true;
            }
            i = i + 1;
        }
        false
    }

    /// Apply what a scan read: the upgrade list and the pin list, each only when
    /// it could be read. Selections for packages no longer offered are dropped,
    /// so the count cannot outrun the list. Returns the message to show: `note`,
    /// unless a list could not be read.
    pub fn apply_scan(
        &mut self,
        upgrades: Result<Vec<Upgrade>, Error>,
        pins: Result<Vec<Pin>, Error>,
        note: String,
    ) -> (message: String)
        ensures
            message@ == scan_message(upgrades, pins, note@),
            match upgrades {
                Ok(v) => final(self).upgrade_list() == v@ && final(self).selection()
                    == still_offered(old(self).selection(), v@),
                Err(_) => final(self).upgrade_list() == old(self).upgrade_list()
                    && final(self).selection() == old(self).selection(),
            },
            match pins {
                Ok(p) => final(self).pin_list() == p@,
                Err(_) => final(self).pin_list() == old(self).pin_list(),
            },
            final(self).filter_text() == old(self).filter_text(),
    {
        proof {
            use_type_invariant(&*self);
        }
        let mut problem: Option<String> = None;
        match upgrades {
            Ok(v) => {
                let ghost sv = views_of(self.selected@);
                let mut kept: Vec<String> = Vec::new();
                let mut k: usize = 0;
                assert(sv.take(0).to_set() =~= Set::<Seq<char>>::empty());
                assert(views_of(kept@).to_set() =~= Set::<Seq<char>>::empty());
                assert(still_offered(Set::<Seq<char>>::empty(), v@) =~= Set::<Seq<char>>::empty());
                while k < self.selected.len()
                    invariant
                        k <= self.selected@.len(),
                        sv == views_of(self.selected@),
                        sv.no_duplicates(),
                        views_of(kept@).no_duplicates(),
                        views_of(kept@).to_set() == still_offered(sv.take(k as int).to_set(), v@),
                    decreases self.selected@.len() - k,
                {
                    let ghost before = views_of(kept@);
                    let ghost sk = sv.take(k as int);
                    let ghost x = sv[k as int];
                    proof {
                        lemma_take_to_set(sv, k as int);
                    }
                    let keep = Self::is_offered(&v, &self.selected[k]);
                    assert(x == self.selected@[k as int]@);
                    if keep {
                        proof {
                            if before.contains(x) {
                                assert(before.to_set().contains(x));
                                assert(sk.to_set().contains(x));
                                let j = choose|j: int| 0 <= j < sk.len() && sk[j] == x;
                                assert(sv[j] == sk[j]);
                            }
                            lemma_push_to_set(before, x);
                        }
                        kept.push(self.selected[k].clone());
                        assert(views_of(kept@) =~= before.push(x));
                        assert(still_offered(sk.to_set().insert(x), v@) =~= still_offered(
                            sk.to_set(),
                            v@,
                        ).insert(x));
                    } else {
                        assert(still_offered(sk.to_set().insert(x), v@) =~= still_offered(
                            sk.to_set(),
                            v@,
                        ));
                    }
                    k = k + 1;
                }
                assert(sv.take(self.selected@.len() as int) =~= sv);
                self.selected = kept;
                self.upgrades = v;
            },
            Err(e) => {
                problem = Some(owned(e.message()));
            },
        }
        match pins {
            Ok(p) => {
                self.pins = p;
            },
            Err(e) => {
                if problem.is_none() {
                    problem = Some(owned(e.message()));
                }
            },
        }
        match problem {
            Some(m) => m,
            None => note,
        }
    }

    /// How many pins are blocking ones.
    pub fn blocking_count(&self) -> (n: usize)
        ensures
            n == count_pins(self.pin_list(), true),
    {
        self.count_kind(true)
    }

    /// How many pins are not blocking ones.
    pub fn pinning_count(&self) -> (n: usize)
        ensures
            n == count_pins(self.pin_list(), false),
    {
        self.count_kind(false)
    }

    fn count_kind(&self, blocking: bool) -> (n: usize)
        ensures
            n == count_pins(self.pin_list(), blocking),
    {
        let ghost ps = self.pins@;
        let mut n: usize = 0;
        let mut k: usize = 0;
        assert(ps.take(0) =~= Seq::<Pin>::empty());
        while k < self.pins.len()
            invariant
                k <= ps.len(),
                ps == self.pins@,
                n == count_pins(ps.take(k as int), blocking),
                n <= k,
            decreases ps.len() - k,
        {
            assert(ps.take(k + 1).drop_last() =~= ps.take(k as int));
            assert(ps.take(k + 1).last() == ps[k as int]);
            if (self.pins[k].kind == PinKind::Blocking) == blocking {
                n = n + 1;
            }
            k = k + 1;
        }
        assert(ps.take(ps.len() as int) =~= ps);
        n
    }

    /// The command shown for the ticked packages that are on offer, or a prompt
    /// to tick one.
    pub fn command_preview(&self) -> (text: String)
        ensures
            text@ == command_preview_text(selected_in(self.upgrade_list(), self.selection())),
    {
        let ids = self.selected_ids();
        if ids.len() == 0 {
            owned("Select at least one package.")
        } else {
            upgrade_command(ids.as_slice())
        }
    }

    /// The upgrades on offer, in display order.
    pub fn upgrades(&self) -> (v: &Vec<Upgrade>)
        ensures
            v@ == self.upgrade_list(),
    {
        &self.upgrades
    }

    /// The pins winget holds.
    pub fn pins(&self) -> (v: &Vec<Pin>)
        ensures
            v@ == self.pin_list(),
    {
        &self.pins
    }

    /// The filter text.
    pub fn filter(&self) -> (f: &str)
        ensures
            f@ == self.filter_text(),
    {
        self.filter.as_str()
    }
}


// ------------------------------------------------------------ labels

/// `s` without the `v`s it starts with.
pub open spec fn without_leading_v(s: Seq<char>) -> Seq<char>
    decreases s.len(),
{
    if s.len() > 0 && s[0] == 'v' {
        without_leading_v(s.drop_first())
    } else {
        s
    }
}

/// The client version as the window shows it: winget prints `v1.9.2`, the
/// window shows `1.9.2`.
pub fn client_version_label(version: &str) -> (label: String)
    ensures
        label@ == without_leading_v(version@),
{
    let cs = chars_of(version);
    let mut i: usize = 0;
    assert(cs@.subrange(0, cs@.len() as int) =~= cs@);
    while i < cs.len() && cs[i] == 'v'
        invariant
            i <= cs@.len(),
            cs@ == version@,
            without_leading_v(version@) == without_leading_v(cs@.subrange(i as int, cs@.len() as int)),
        decreases cs@.len() - i,
    {
        assert(cs@.subrange(i as int, cs@.len() as int).drop_first() =~= cs@.subrange(
            i + 1,
            cs@.len() as int,
        ));
        i = i + 1;
    }
    string_of(cs.as_slice(), i, cs.len())
}

/// `n` as two decimal digits, as `{:02}` prints a number below 100.
pub open spec fn two_digits(n: nat) -> Seq<char> {
    seq![digit(n / 10), digit(n % 10)]
}

/// The time of day `secs` seconds after a midnight, as `HH:MM:SS`.
pub open spec fn clock_text(secs: nat) -> Seq<char> {
    let t = secs % 86400;
    two_digits(t / 3600) + seq![':'] + two_digits((t % 3600) / 60) + seq![':'] + two_digits(t % 60)
}

fn push_two_digits(s: &mut String, n: u64)
    requires
        n < 100,
    ensures
        final(s)@ == old(s)@ + two_digits(n as nat),
{
    let a = digit_char(n / 10);
    let b = digit_char(n % 10);
    let mut pair: Vec<char> = Vec::new();
    pair.push(a);
    pair.push(b);
    let p = string_of(pair.as_slice(), 0, 2);
    assert(p@ =~= two_digits(n as nat));
    s.append(p.as_str());
}

/// Wall-clock time as HH:MM:SS, from the seconds since the Unix epoch (or
/// since any midnight): the label that says when the lists were read.
pub fn clock(secs: u64) -> (label: String)
    ensures
        label@ == clock_text(secs as nat),
{
    let t = secs % 86400;
    let mut label = String::new();
    push_two_digits(&mut label, t / 3600);
    label.append(":");
    push_two_digits(&mut label, (t % 3600) / 60);
    label.append(":");
    push_two_digits(&mut label, t % 60);
    proof {
        reveal_strlit(":");
    }
    assert(label@ =~= clock_text(secs as nat));
    label
}

// ------------------------------------------------------------ laws

/// Ticking a package twice leaves the selection as it was.
pub proof fn lemma_toggle_twice(sel: Set<Seq<char>>, id: Seq<char>)
    ensures
        toggled(toggled(sel, id), id) == sel,
{
    assert(toggled(toggled(sel, id), id) =~= sel);
}

/// "Select all" leaves the rows the filter hides as they were.
pub proof fn lemma_select_all_leaves_hidden(sel: Set<Seq<char>>, vis: Set<Seq<char>>, id: Seq<char>)
    requires
        !vis.contains(id),
    ensures
        all_toggled(sel, vis).contains(id) == sel.contains(id),
{
}

/// After "select all", every visible row is ticked, or none is.
pub proof fn lemma_select_all_is_uniform(sel: Set<Seq<char>>, vis: Set<Seq<char>>)
    ensures
        vis.subset_of(all_toggled(sel, vis)) || vis.disjoint(all_toggled(sel, vis)),
{
}

/// After a scan, every ticked identifier is one on offer, and was ticked before:
/// the count of ticked packages cannot outrun the list.
pub proof fn lemma_scan_keeps_only_offered(sel: Set<Seq<char>>, ups: Seq<Upgrade>, id: Seq<char>)
    requires
        still_offered(sel, ups).contains(id),
    ensures
        offered(ups, id),
        sel.contains(id),
{
}

/// The identifiers that go out to an upgrade are ticked and on offer, and
/// every ticked identifier on offer goes out.
pub proof fn lemma_selected_in_is_exact(ups: Seq<Upgrade>, sel: Set<Seq<char>>)
    ensures
        forall|i: int|
            0 <= i < selected_in(ups, sel).len() ==> sel.contains(
                #[trigger] selected_in(ups, sel)[i],
            ) && offered(ups, selected_in(ups, sel)[i]),
        forall|j: int|
            0 <= j < ups.len() && sel.contains(#[trigger] ups[j].id@) ==> selected_in(
                ups,
                sel,
            ).contains(ups[j].id@),
    decreases ups.len(),
{
    if ups.len() > 0 {
        let rest = ups.drop_last();
        lemma_selected_in_is_exact(rest, sel);
        let r = selected_in(rest, sel);
        let s = selected_in(ups, sel);
        assert forall|i: int| 0 <= i < s.len() implies sel.contains(#[trigger] s[i]) && offered(
            ups,
            s[i],
        ) by {
            if i < r.len() {
                assert(s[i] == r[i]);
                let k = choose|k: int| 0 <= k < rest.len() && #[trigger] rest[k].id@ == r[i];
                assert(ups[k] == rest[k]);
            } else {
                assert(ups[ups.len() - 1].id@ == s[i]);
            }
        }
        assert forall|j: int| 0 <= j < ups.len() && sel.contains(#[trigger] ups[j].id@) implies s.contains(
            ups[j].id@,
        ) by {
            if j < rest.len() {
                assert(rest[j] == ups[j]);
                let k = choose|k: int| 0 <= k < r.len() && r[k] == ups[j].id@;
                assert(s[k] == r[k]);
            } else {
                assert(s[s.len() - 1] == ups[j].id@);
            }
        }
    }
}

/// The filter finds its text anywhere: an empty filter admits everything, a
/// filter that occurs at any position of the name or of the identifier admits
/// the package, and a filter admits nothing else.
pub proof fn lemma_filter_matches_anywhere(f: Seq<char>, name: Seq<char>, id: Seq<char>)
    ensures
        f.len() == 0 ==> admits(f, name, id),
        forall|i: int|
            0 <= i && i + f.len() <= name.len() && #[trigger] name.subrange(i, i + f.len()) == f
                ==> admits(f, name, id),
        forall|i: int|
            0 <= i && i + f.len() <= id.len() && #[trigger] id.subrange(i, i + f.len()) == f
                ==> admits(f, name, id),
        admits(f, name, id) ==> {
            ||| f.len() == 0
            ||| exists|i: int|
                0 <= i && i + f.len() <= name.len() && #[trigger] name.subrange(i, i + f.len()) == f
            ||| exists|i: int|
                0 <= i && i + f.len() <= id.len() && #[trigger] id.subrange(i, i + f.len()) == f
        },
{
}

/// An upgrade whose lowercase name or identifier holds the lowercase filter at
/// some position is among those shown.
pub proof fn lemma_visible_keeps_matches(ups: Seq<Upgrade>, filter: Seq<char>, k: int, i: int)
    requires
        0 <= k < ups.len(),
        ({
            let f = lowercase(filter);
            let n = lowercase(ups[k].name@);
            let d = lowercase(ups[k].id@);
            ||| f.len() == 0
            ||| 0 <= i && i + f.len() <= n.len() && n.subrange(i, i + f.len()) == f
            ||| 0 <= i && i + f.len() <= d.len() && d.subrange(i, i + f.len()) == f
        }),
    ensures
        shown_upgrades(ups, filter).contains(ups[k]),
{
    lemma_filter_matches_anywhere(lowercase(filter), lowercase(ups[k].name@), lowercase(ups[k].id@));
    lemma_shown_upgrades_keeps(ups, filter, k);
}

proof fn lemma_shown_upgrades_keeps(ups: Seq<Upgrade>, filter: Seq<char>, k: int)
    requires
        0 <= k < ups.len(),
        shown(filter, ups[k]),
    ensures
        shown_upgrades(ups, filter).contains(ups[k]),
    decreases ups.len(),
{
    let rest = ups.drop_last();
    let r = shown_upgrades(rest, filter);
    if k == ups.len() - 1 {
        assert(shown_upgrades(ups, filter) == r.push(ups[k]));
        assert(r.push(ups[k])[r.len() as int] == ups[k]);
    } else {
        assert(rest[k] == ups[k]);
        lemma_shown_upgrades_keeps(rest, filter, k);
        let j = choose|j: int| 0 <= j < r.len() && r[j] == ups[k];
        if shown(filter, ups.last()) {
            assert(r.push(ups.last())[j] == ups[k]);
        }
    }
}

/// "Select all" clears only when every visible row was ticked. When some
/// visible row is not ticked, it ticks every visible row and keeps every tick
/// it found; when all were ticked, it unticks the visible rows and leaves every
/// other row as it was.
pub proof fn lemma_select_all_ticks_unless_all_ticked(sel: Set<Seq<char>>, vis: Set<Seq<char>>)
    ensures
        (exists|x: Seq<char>| vis.contains(x) && !sel.contains(x)) ==> {
            &&& forall|x: Seq<char>| vis.contains(x) ==> #[trigger] all_toggled(sel, vis).contains(x)
            &&& forall|x: Seq<char>| sel.contains(x) ==> #[trigger] all_toggled(sel, vis).contains(x)
            &&& forall|x: Seq<char>|
                #[trigger] all_toggled(sel, vis).contains(x) ==> sel.contains(x) || vis.contains(x)
        },
        (forall|x: Seq<char>| vis.contains(x) ==> sel.contains(x)) ==> {
            &&& forall|x: Seq<char>| vis.contains(x) ==> !#[trigger] all_toggled(sel, vis).contains(x)
            &&& forall|x: Seq<char>|
                !vis.contains(x) ==> (#[trigger] all_toggled(sel, vis).contains(x) == sel.contains(x))
        },
{
    if exists|x: Seq<char>| vis.contains(x) && !sel.contains(x) {
        let x = choose|x: Seq<char>| vis.contains(x) && !sel.contains(x);
        assert(!vis.subset_of(sel));
    }
}

} // verus!
