//! The user interface's state and how it reacts: messages from the widgets update the state
//! and yield effects (commands for the worker, pickers and file openers for the shell), and
//! reports from the worker update the state.
use vstd::prelude::*;
use crate::commands::{Command, UiEvent};
use crate::index::opt_string_view;
use crate::model::{dup_string, dup_strings, strs_view, ChildFileId, ExtensionRules, Project, ProjectFileView, ProjectId, Settings};
use crate::naming::{is_white_space, is_white_space_exec};
use crate::text::{chars_of, lower, lower_chars, string_of};

verus! {

broadcast use {vstd::seq_lib::group_seq_properties, vstd::seq_lib::group_filter_ensures};

// ----- text of the setup dialog ---------------------------------------------------------------

/// `s` without leading white space.
pub open spec fn trim_start(s: Seq<char>) -> Seq<char>
    decreases s.len(),
{
    if s.len() > 0 && is_white_space(s[0]) {
        trim_start(s.drop_first())
    } else {
        s
    }
}

/// `s` without trailing white space.
pub open spec fn trim_end(s: Seq<char>) -> Seq<char>
    decreases s.len(),
{
    if s.len() > 0 && is_white_space(s.last()) {
        trim_end(s.drop_last())
    } else {
        s
    }
}

/// `s` without leading and trailing white space, as `str::trim` gives it.
pub open spec fn trim(s: Seq<char>) -> Seq<char> {
    trim_end(trim_start(s))
}

/// `s` without leading dots.
pub open spec fn trim_start_dots(s: Seq<char>) -> Seq<char>
    decreases s.len(),
{
    if s.len() > 0 && s[0] == '.' {
        trim_start_dots(s.drop_first())
    } else {
        s
    }
}

proof fn lemma_trim_start_skip(s: Seq<char>, k: int)
    requires
        0 <= k <= s.len(),
        forall|j: int| 0 <= j < k ==> is_white_space(#[trigger] s[j]),
    ensures
        trim_start(s) == trim_start(s.skip(k)),
    decreases k,
{
    if k == 0 {
        assert(s.skip(0) =~= s);
    } else {
        assert(is_white_space(s[0]));
        let t = s.drop_first();
        assert forall|j: int| 0 <= j < k - 1 implies is_white_space(#[trigger] t[j]) by {
            assert(t[j] == s[j + 1]);
        }
        lemma_trim_start_skip(t, k - 1);
        assert(t.skip(k - 1) =~= s.skip(k));
    }
}

proof fn lemma_trim_end_take(s: Seq<char>, k: int)
    requires
        0 <= k <= s.len(),
        forall|j: int| k <= j < s.len() ==> is_white_space(#[trigger] s[j]),
    ensures
        trim_end(s) == trim_end(s.take(k)),
    decreases s.len() - k,
{
    if k == s.len() {
        assert(s.take(k) =~= s);
    } else {
        assert(is_white_space(s.last()));
        let t = s.drop_last();
        assert forall|j: int| k <= j < t.len() implies is_white_space(#[trigger] t[j]) by {
            assert(t[j] == s[j]);
        }
        lemma_trim_end_take(t, k);
        assert(t.take(k) =~= s.take(k));
    }
}

proof fn lemma_trim_dots_skip(s: Seq<char>, k: int)
    requires
        0 <= k <= s.len(),
        forall|j: int| 0 <= j < k ==> #[trigger] s[j] == '.',
    ensures
        trim_start_dots(s) == trim_start_dots(s.skip(k)),
    decreases k,
{
    if k == 0 {
        assert(s.skip(0) =~= s);
    } else {
        let t = s.drop_first();
        assert forall|j: int| 0 <= j < k - 1 implies #[trigger] t[j] == '.' by {
            assert(t[j] == s[j + 1]);
        }
        lemma_trim_dots_skip(t, k - 1);
        assert(t.skip(k - 1) =~= s.skip(k));
    }
}

/// `s` without leading and trailing white space (see `trim`).
pub fn trim_chars(s: &Vec<char>) -> (r: Vec<char>)
    ensures
        r@ == trim(s@),
{
    let mut i: usize = 0;
    while i < s.len() && is_white_space_exec(s[i])
        invariant
            i <= s@.len(),
            forall|j: int| 0 <= j < i ==> is_white_space(#[trigger] s@[j]),
        decreases s@.len() - i,
    {
        i = i + 1;
    }
    proof {
        lemma_trim_start_skip(s@, i as int);
    }
    let ghost t = s@.skip(i as int);
    assert(trim_start(t) == t);
    let mut j: usize = s.len();
    while j > i && is_white_space_exec(s[j - 1])
        invariant
            i <= j <= s@.len(),
            forall|m: int| j <= m < s@.len() ==> is_white_space(#[trigger] s@[m]),
        decreases j,
    {
        j = j - 1;
    }
    let mut out: Vec<char> = Vec::new();
    for m in i..j
        invariant
            i <= j <= s@.len(),
            out@ == s@.subrange(i as int, m as int),
    {
        out.push(s[m]);
        assert(out@ =~= s@.subrange(i as int, m + 1));
    }
    proof {
        let k = (j - i) as int;
        assert forall|m: int| k <= m < t.len() implies is_white_space(#[trigger] t[m]) by {
            assert(t[m] == s@[m + i]);
        }
        lemma_trim_end_take(t, k);
        assert(t.take(k) =~= s@.subrange(i as int, j as int));
        if k > 0 {
            assert(t.take(k).last() == s@[j - 1]);
        }
    }
    out
}

/// `s` without leading dots (see `trim_start_dots`).
pub fn trim_leading_dots(s: &Vec<char>) -> (r: Vec<char>)
    ensures
        r@ == trim_start_dots(s@),
{
    let mut i: usize = 0;
    while i < s.len() && s[i] == '.'
        invariant
            i <= s@.len(),
            forall|j: int| 0 <= j < i ==> #[trigger] s@[j] == '.',
        decreases s@.len() - i,
    {
        i = i + 1;
    }
    proof {
        lemma_trim_dots_skip(s@, i as int);
    }
    let mut out: Vec<char> = Vec::new();
    for m in i..s.len()
        invariant
            i <= s@.len(),
            out@ == s@.subrange(i as int, m as int),
    {
        out.push(s[m]);
        assert(out@ =~= s@.subrange(i as int, m + 1));
    }
    assert(out@ =~= s@.skip(i as int));
    out
}

/// The pieces of `s` between commas, as `str::split(',')` gives them.
pub open spec fn split_commas(s: Seq<char>) -> Seq<Seq<char>>
    decreases s.len(),
{
    if s.len() == 0 {
        seq![Seq::empty()]
    } else {
        let p = split_commas(s.drop_last());
        if s.last() == ',' {
            p.push(Seq::empty())
        } else {
            p.update(p.len() - 1, p.last().push(s.last()))
        }
    }
}

proof fn lemma_split_commas_len(s: Seq<char>)
    ensures
        split_commas(s).len() >= 1,
    decreases s.len(),
{
    if s.len() > 0 {
        lemma_split_commas_len(s.drop_last());
    }
}

/// One piece of an extension list, cleaned: trimmed, leading dots dropped, ASCII lower-cased.
pub open spec fn clean_extension(piece: Seq<char>) -> Seq<char> {
    lower(trim_start_dots(trim(piece)))
}

/// The extensions written in a comma-separated list: each piece cleaned (see
/// `clean_extension`), empty ones left out.
pub open spec fn spec_parse_ext_list(s: Seq<char>) -> Seq<Seq<char>> {
    split_commas(s).map_values(|p: Seq<char>| clean_extension(p)).filter(|e: Seq<char>| e.len() > 0)
}

/// Reads a comma-separated list of extensions (see `spec_parse_ext_list`).
pub fn parse_ext_list(s: &str) -> (r: Vec<String>)
    ensures
        strs_view(r@) == spec_parse_ext_list(s@),
{
    let cs = chars_of(s);
    let mut pieces: Vec<Vec<char>> = Vec::new();
    let mut cur: Vec<char> = Vec::new();
    for i in 0..cs.len()
        invariant
            cs@ == s@,
            pieces@.map_values(|x: Vec<char>| x@).push(cur@) == split_commas(s@.take(i as int)),
    {
        let ghost before = pieces@.map_values(|x: Vec<char>| x@).push(cur@);
        proof {
            lemma_split_commas_len(s@.take(i as int));
            assert(s@.take(i + 1).drop_last() =~= s@.take(i as int));
        }
        if cs[i] == ',' {
            let done = cur;
            pieces.push(done);
            cur = Vec::new();
            assert(pieces@.map_values(|x: Vec<char>| x@).push(cur@) =~= before.push(Seq::empty()));
        } else {
            cur.push(cs[i]);
            assert(pieces@.map_values(|x: Vec<char>| x@).push(cur@) =~= before.update(
                before.len() - 1,
                before.last().push(cs@[i as int]),
            ));
        }
    }
    assert(s@.take(s@.len() as int) =~= s@);
    pieces.push(cur);
    let ghost all = pieces@.map_values(|x: Vec<char>| x@);
    assert(all == split_commas(s@));
    let ghost cleaned = all.map_values(|p: Seq<char>| clean_extension(p));
    let ghost nonempty = |e: Seq<char>| e.len() > 0;
    let mut out: Vec<String> = Vec::new();
    for i in 0..pieces.len()
        invariant
            all == pieces@.map_values(|x: Vec<char>| x@),
            cleaned == all.map_values(|p: Seq<char>| clean_extension(p)),
            nonempty == (|e: Seq<char>| e.len() > 0),
            strs_view(out@) == cleaned.take(i as int).filter(nonempty),
    {
        proof {
            assert(cleaned.take(i + 1) == cleaned.take(i as int).push(cleaned[i as int]));
            cleaned.take(i as int).lemma_filter_push(cleaned[i as int], nonempty);
        }
        let t = trim_chars(&pieces[i]);
        let d = trim_leading_dots(&t);
        let l = lower_chars(&d);
        assert(l@ == cleaned[i as int]);
        if l.len() > 0 {
            let ghost before = out@;
            out.push(string_of(&l));
            assert(strs_view(out@) =~= strs_view(before).push(l@));
        }
    }
    assert(cleaned.take(pieces@.len() as int) == cleaned);
    out
}

/// The strings of `v` with `sep` between them, as `join` gives them.
pub open spec fn join_with(v: Seq<Seq<char>>, sep: Seq<char>) -> Seq<char>
    decreases v.len(),
{
    if v.len() == 0 {
        Seq::empty()
    } else if v.len() == 1 {
        v[0]
    } else {
        join_with(v.drop_last(), sep) + sep + v.last()
    }
}

/// The strings of `v` joined with `", "` between them.
pub fn join_comma_space(v: &Vec<String>) -> (r: String)
    ensures
        r@ == join_with(strs_view(v@), seq![',', ' ']),
{
    let mut out: Vec<char> = Vec::new();
    for i in 0..v.len()
        invariant
            out@ == join_with(strs_view(v@).take(i as int), seq![',', ' ']),
    {
        let ghost before = out@;
        if i > 0 {
            out.push(',');
            out.push(' ');
        }
        let cs = chars_of(v[i].as_str());
        for k in 0..cs.len()
            invariant
                i > 0 ==> out@ == before + seq![',', ' '] + cs@.take(k as int),
                i == 0 ==> out@ == before + cs@.take(k as int),
        {
            out.push(cs[k]);
            assert(cs@.take(k + 1) == cs@.take(k as int).push(cs@[k as int]));
        }
        assert(cs@.take(cs@.len() as int) == cs@);
        let ghost w = strs_view(v@).take(i + 1);
        assert(w.drop_last() =~= strs_view(v@).take(i as int));
        assert(w.last() == v@[i as int]@);
        if i == 0 {
            assert(before =~= Seq::<char>::empty());
            assert(out@ =~= w[0]);
        } else {
            assert(out@ =~= before + seq![',', ' '] + w.last());
        }
    }
    assert(strs_view(v@).take(v@.len() as int) =~= strs_view(v@));
    string_of(&out)
}

proof fn lemma_split_concat(s: Seq<char>, t: Seq<char>)
    ensures
        split_commas(s + seq![','] + t) == split_commas(s) + split_commas(t),
    decreases t.len(),
{
    let st = s + seq![','] + t;
    if t.len() == 0 {
        assert(st =~= s.push(','));
        assert(st.drop_last() =~= s);
        assert(split_commas(t) =~= seq![Seq::<char>::empty()]);
        assert(split_commas(st) =~= split_commas(s) + split_commas(t));
    } else {
        let t0 = t.drop_last();
        let c = t.last();
        lemma_split_concat(s, t0);
        lemma_split_commas_len(t0);
        lemma_split_commas_len(s);
        assert(st.drop_last() =~= s + seq![','] + t0);
        assert(st.last() == c);
        let p = split_commas(s + seq![','] + t0);
        let q = split_commas(t0);
        assert(p == split_commas(s) + q);
        if c == ',' {
            assert(split_commas(st) == p.push(Seq::empty()));
            assert(split_commas(t) == q.push(Seq::empty()));
            assert(split_commas(st) =~= split_commas(s) + split_commas(t));
        } else {
            assert(split_commas(st) == p.update(p.len() - 1, p.last().push(c)));
            assert(split_commas(t) == q.update(q.len() - 1, q.last().push(c)));
            assert(p.last() == q.last());
            assert(split_commas(st) =~= split_commas(s) + split_commas(t));
        }
    }
}

proof fn lemma_split_no_comma(e: Seq<char>)
    requires
        !e.contains(','),
    ensures
        split_commas(e) == seq![e],
    decreases e.len(),
{
    if e.len() > 0 {
        let e0 = e.drop_last();
        assert(!e0.contains(',')) by {
            if e0.contains(',') {
                let k = choose|k: int| 0 <= k < e0.len() && e0[k] == ',';
                assert(e[k] == ',');
            }
        }
        lemma_split_no_comma(e0);
        assert(e.last() != ',') by {
            assert(e[e.len() - 1] == e.last());
        }
        assert(split_commas(e) =~= seq![e0.push(e.last())]);
        assert(e0.push(e.last()) =~= e);
    } else {
        assert(e =~= Seq::<char>::empty());
    }
}

/// An extension as a read of a list leaves it: non-empty, without commas, and cleaned.
pub open spec fn is_clean_extension(e: Seq<char>) -> bool {
    e.len() > 0 && !e.contains(',') && clean_extension(e) == e
}

/// The pieces of `v` joined with `", "`, as a split at commas gives them back.
pub open spec fn joined_pieces(v: Seq<Seq<char>>) -> Seq<Seq<char>> {
    Seq::new(v.len(), |i: int| if i == 0 { v[0] } else { seq![' '] + v[i] })
}

proof fn lemma_split_join(v: Seq<Seq<char>>)
    requires
        v.len() >= 1,
        forall|i: int| 0 <= i < v.len() ==> !(#[trigger] v[i]).contains(','),
    ensures
        split_commas(join_with(v, seq![',', ' '])) == joined_pieces(v),
    decreases v.len(),
{
    if v.len() == 1 {
        lemma_split_no_comma(v[0]);
        assert(joined_pieces(v) =~= seq![v[0]]);
    } else {
        let v0 = v.drop_last();
        assert forall|i: int| 0 <= i < v0.len() implies !(#[trigger] v0[i]).contains(',') by {
            assert(v0[i] == v[i]);
        }
        lemma_split_join(v0);
        let last = seq![' '] + v.last();
        assert(!last.contains(',')) by {
            if last.contains(',') {
                let k = choose|k: int| 0 <= k < last.len() && last[k] == ',';
                assert(k > 0);
                assert(v.last()[k - 1] == ',');
                assert(v[v.len() - 1] == v.last());
            }
        }
        assert(join_with(v, seq![',', ' ']) =~= join_with(v0, seq![',', ' ']) + seq![','] + last);
        lemma_split_concat(join_with(v0, seq![',', ' ']), last);
        lemma_split_no_comma(last);
        assert(joined_pieces(v) =~= joined_pieces(v0) + seq![last]);
    }
}

proof fn lemma_clean_leading_space(e: Seq<char>)
    ensures
        clean_extension(seq![' '] + e) == clean_extension(e),
{
    let s = seq![' '] + e;
    assert(is_white_space(s[0]));
    assert(s.drop_first() =~= e);
    assert(trim_start(s) == trim_start(e));
}

proof fn lemma_filter_keeps_all(s: Seq<Seq<char>>)
    requires
        forall|i: int| 0 <= i < s.len() ==> (#[trigger] s[i]).len() > 0,
    ensures
        s.filter(|e: Seq<char>| e.len() > 0) == s,
    decreases s.len(),
{
    let pred = |e: Seq<char>| e.len() > 0;
    if s.len() == 0 {
        assert(s.filter(pred) =~= s);
    } else {
        let s0 = s.drop_last();
        assert forall|i: int| 0 <= i < s0.len() implies (#[trigger] s0[i]).len() > 0 by {
            assert(s0[i] == s[i]);
        }
        lemma_filter_keeps_all(s0);
        s0.lemma_filter_push(s.last(), pred);
        assert(s0.push(s.last()) =~= s);
    }
}

/// Reading back a list of extensions as the setup dialog shows it (joined with `", "`) gives
/// the same extensions, when each is already in the form a read leaves it: non-empty, without
/// commas, trimmed, without leading dots, lower-case.
pub proof fn law_extension_list_round_trip(v: Seq<Seq<char>>)
    requires
        forall|i: int| 0 <= i < v.len() ==> is_clean_extension(#[trigger] v[i]),
    ensures
        spec_parse_ext_list(join_with(v, seq![',', ' '])) == v,
{
    if v.len() == 0 {
        let pieces = split_commas(join_with(v, seq![',', ' ']));
        assert(pieces =~= seq![Seq::<char>::empty()]);
        let cleaned = pieces.map_values(|p: Seq<char>| clean_extension(p));
        assert(trim_start(Seq::<char>::empty()) == Seq::<char>::empty());
        assert(trim_end(Seq::<char>::empty()) == Seq::<char>::empty());
        assert(trim_start_dots(Seq::<char>::empty()) == Seq::<char>::empty());
        assert(lower(Seq::<char>::empty()) =~= Seq::<char>::empty());
        assert(cleaned[0] == clean_extension(pieces[0]));
        assert(cleaned =~= seq![Seq::<char>::empty()]);
        let pred = |e: Seq<char>| e.len() > 0;
        Seq::<Seq<char>>::empty().lemma_filter_push(Seq::<char>::empty(), pred);
        assert(seq![Seq::<char>::empty()] =~= Seq::<Seq<char>>::empty().push(Seq::<char>::empty()));
        assert(cleaned.filter(pred) =~= v);
    } else {
        assert forall|i: int| 0 <= i < v.len() implies !(#[trigger] v[i]).contains(',') by {
            assert(is_clean_extension(v[i]));
        }
        lemma_split_join(v);
        let pieces = joined_pieces(v);
        let cleaned = pieces.map_values(|p: Seq<char>| clean_extension(p));
        assert forall|i: int| 0 <= i < v.len() implies #[trigger] cleaned[i] == v[i] by {
            assert(is_clean_extension(v[i]));
            if i > 0 {
                lemma_clean_leading_space(v[i]);
            }
        }
        assert(cleaned =~= v);
        assert forall|i: int| 0 <= i < v.len() implies (#[trigger] v[i]).len() > 0 by {
            assert(is_clean_extension(v[i]));
        }
        lemma_filter_keeps_all(v);
    }
}

// ----- dialogs, messages, effects -------------------------------------------------------------

/// The directory setup dialog: the root, the relevant directories, and the two extension lists
/// as editable text.
#[derive(Debug, Clone)]
pub struct SetupDialogState {
    pub root: Option<String>,
    pub relevant_dirs: Vec<String>,
    pub parent_extensions: String,
    pub child_extensions: String,
}

/// `d` shows `settings`: its directories, and each extension list joined with `", "`.
pub open spec fn shows_settings(d: SetupDialogState, settings: Settings) -> bool {
    &&& opt_string_view(d.root) == opt_string_view(settings.root_directory)
    &&& strs_view(d.relevant_dirs@) == strs_view(settings.relevant_directories@)
    &&& d.parent_extensions@ == join_with(settings.extension_rules.parents(), seq![',', ' '])
    &&& d.child_extensions@ == join_with(settings.extension_rules.children(), seq![',', ' '])
}

impl SetupDialogState {
    /// The dialog opened on `settings` (see `shows_settings`).
    pub fn from_settings(settings: &Settings) -> (r: SetupDialogState)
        ensures
            shows_settings(r, *settings),
    {
        SetupDialogState {
            root: crate::model::dup_opt_string(&settings.root_directory),
            relevant_dirs: dup_strings(&settings.relevant_directories),
            parent_extensions: join_comma_space(&settings.extension_rules.parent_extensions),
            child_extensions: join_comma_space(&settings.extension_rules.child_extensions),
        }
    }
}

/// The setup dialog opened on `settings` (see `SetupDialogState::from_settings`).
pub fn setup_dialog_from_settings(settings: &Settings) -> (r: SetupDialogState)
    ensures
        shows_settings(r, *settings),
{
    SetupDialogState::from_settings(settings)
}

/// The dialog asking for the name of a project started from scratch.
#[derive(Debug, Clone)]
pub struct ScratchDialogState {
    pub name: String,
}

/// How a button looks.
#[derive(Debug, Clone, Copy, PartialEq, Eq, Structural)]
pub enum ButtonKind {
    Primary,
    Secondary,
    Danger,
    Text,
}

/// A request for the thumbnail of a file, identified by its path, modification time and size.
#[derive(Debug, Clone)]
pub struct ThumbnailRequest {
    pub path: String,
    pub modified_unix: i64,
    pub size_bytes: u64,
}

/// The paths whose thumbnails were asked for and not delivered yet, each asked for once.
pub struct PendingThumbnails {
    pub paths: Vec<String>,
}

impl PendingThumbnails {
    /// Nothing asked for.
    pub fn new() -> (r: PendingThumbnails)
        ensures
            r.paths@.len() == 0,
    {
        PendingThumbnails { paths: Vec::new() }
    }

    /// Records that the thumbnail of `path` is wanted. Returns whether it was not already
    /// asked for, in which case a request is to be sent.
    pub fn begin(&mut self, path: &String) -> (r: bool)
        ensures
            r == !strs_view(old(self).paths@).contains(path@),
            strs_view(final(self).paths@) == if r {
                strs_view(old(self).paths@).push(path@)
            } else {
                strs_view(old(self).paths@)
            },
    {
        if crate::naming::contains_string(&self.paths, path) {
            false
        } else {
            let ghost before = self.paths@;
            self.paths.push(dup_string(path));
            assert(strs_view(self.paths@) =~= strs_view(before).push(path@));
            true
        }
    }

    /// Records that the thumbnail of `path` was delivered: it may be asked for again.
    pub fn finish(&mut self, path: &String)
        ensures
            forall|x: Seq<char>|
                strs_view(final(self).paths@).contains(x) <==> (strs_view(old(self).paths@).contains(x) && x != path@),
    {
        let mut kept: Vec<String> = Vec::new();
        for i in 0..self.paths.len()
            invariant
                forall|x: Seq<char>|
                    strs_view(kept@).contains(x) <==> (exists|j: int| 0 <= j < i && strs_view(self.paths@)[j] == x) && x != path@,
        {
            let ghost before = kept@;
            if self.paths[i] != *path {
                kept.push(dup_string(&self.paths[i]));
                assert(strs_view(kept@) =~= strs_view(before).push(self.paths@[i as int]@));
            }
            assert forall|x: Seq<char>| strs_view(kept@).contains(x) <==> (exists|j: int|
                0 <= j < i + 1 && strs_view(self.paths@)[j] == x) && x != path@ by {
                if strs_view(kept@).contains(x) && !strs_view(before).contains(x) {
                    let t = choose|t: int| 0 <= t < strs_view(kept@).len() && strs_view(kept@)[t] == x;
                    if t < before.len() {
                        assert(strs_view(before)[t] == x);
                    }
                    assert(strs_view(self.paths@)[i as int] == x);
                }
                if strs_view(before).contains(x) {
                    let t = choose|t: int| 0 <= t < strs_view(before).len() && strs_view(before)[t] == x;
                    if self.paths[i as int]@ != path@ {
                        assert(strs_view(kept@)[t] == x);
                    }
                }
                if (exists|j: int| 0 <= j < i + 1 && strs_view(self.paths@)[j] == x) && x != path@ {
                    let j = choose|j: int| 0 <= j < i + 1 && strs_view(self.paths@)[j] == x;
                    if j == i {
                        assert(strs_view(kept@)[strs_view(kept@).len() - 1] == x);
                    }
                }
            }
        }
        proof {
            assert forall|x: Seq<char>| strs_view(self.paths@).contains(x) <==> (exists|j: int|
                0 <= j < self.paths@.len() && strs_view(self.paths@)[j] == x) by {}
        }
        self.paths = kept;
    }
}

/// What the widgets report.
#[derive(Debug, Clone)]
pub enum Message {
    Tick,
    ProjectSelected(ProjectId),
    NewProjectMenuOpened,
    NewProjectMenuClosed,
    PickImageFromDownloads,
    BrowseForImage,
    StartScratchProject,
    ScratchNameChanged(String),
    ScratchSubmitted,
    ScratchCancelled,
    OpenSetupDialog,
    SetupRootPicked,
    SetupRelevantDirAdded,
    SetupRelevantDirRemoved(usize),
    SetupParentExtensionsChanged(String),
    SetupChildExtensionsChanged(String),
    SetupSubmitted,
    SyncNowClicked,
    RescanProjectClicked,
    SyncRelevantDirectoriesClicked,
    MoveAllMatchedClicked,
    MoveChildFileClicked(ChildFileId),
    OpenFileClicked(String),
    RevealFileClicked(String),
    StatusDismissed,
    FilesDropped(String),
}

/// What the shell is asked to do after a message.
#[derive(Debug, Clone)]
pub enum Effect {
    /// Take the worker's pending reports and apply them (see `UiState::apply_event`).
    DrainEvents,
    /// Send a command to the worker.
    Send(Command),
    /// Let the user pick an image with one of these extensions, starting in the downloads
    /// folder or not; a picked image starts a project.
    PickImage { extensions: Vec<String>, from_downloads: bool },
    /// Let the user pick the root folder (see `UiState::root_picked`).
    PickRootFolder,
    /// Let the user pick a relevant folder (see `UiState::relevant_dir_picked`).
    PickRelevantFolder,
    /// Open the file with its default application.
    OpenFile(String),
    /// Show the file in the system's file browser.
    RevealFile(String),
}

/// The user interface's state.
#[derive(Debug, Clone)]
pub struct UiState {
    pub settings: Settings,
    pub projects: Vec<Project>,
    pub selected_project: Option<ProjectId>,
    /// The latest file list reported for each project; each project appears at most once.
    pub files_by_project: Vec<(ProjectId, Vec<ProjectFileView>)>,
    pub setup_dialog: Option<SetupDialogState>,
    pub new_project_menu_open: bool,
    pub scratch_dialog: Option<ScratchDialogState>,
    pub status: Option<String>,
}

/// The files of project `pid` in `v`, if any were reported.
pub open spec fn files_entry(v: Seq<(ProjectId, Vec<ProjectFileView>)>, pid: ProjectId) -> Option<int> {
    if exists|k: int| 0 <= k < v.len() && (#[trigger] v[k]).0 == pid {
        Some(choose|k: int| 0 <= k < v.len() && (#[trigger] v[k]).0 == pid)
    } else {
        None
    }
}

/// `v` with the files of `pid` set to `files`.
pub open spec fn put_files(v: Seq<(ProjectId, Vec<ProjectFileView>)>, pid: ProjectId, files: Vec<ProjectFileView>) -> Seq<(ProjectId, Vec<ProjectFileView>)> {
    match files_entry(v, pid) {
        Some(k) => v.update(k, (pid, files)),
        None => v.push((pid, files)),
    }
}

/// The file path `path` has a parent extension (its extension, lower-cased, is listed).
pub open spec fn spec_is_source_path(rules: ExtensionRules, path: Seq<char>) -> bool {
    match crate::workflow::path_last_component(path) {
        Some(n) => match crate::scanner::ext_lower(n) {
            Some(e) => rules.spec_is_parent(e),
            None => false,
        },
        None => false,
    }
}

/// Whether the file at `path` can start a project: its extension is a parent extension.
pub fn is_source_path(rules: &ExtensionRules, path: &str) -> (r: bool)
    ensures
        r == spec_is_source_path(*rules, path@),
{
    match crate::workflow::path_file_name(path) {
        Some(n) => match crate::scanner::path_ext(n.as_str()) {
            Some(e) => rules.is_parent(e.as_str()),
            None => false,
        },
        None => false,
    }
}

/// The path, or `empty` when there is none.
pub fn display_or(path: &Option<String>, empty: &str) -> (r: String)
    ensures
        r@ == match path {
            Some(p) => p@,
            None => empty@,
        },
{
    match path {
        Some(p) => dup_string(p),
        None => empty.to_owned(),
    }
}

fn concat2(a: &str, b: &str) -> (r: String)
    ensures
        r@ == a@ + b@,
{
    let mut v = chars_of(a);
    let bv = chars_of(b);
    for i in 0..bv.len()
        invariant
            v@ == a@ + bv@.take(i as int),
    {
        v.push(bv[i]);
        assert(bv@.take(i + 1) == bv@.take(i as int).push(bv@[i as int]));
    }
    assert(bv@.take(bv@.len() as int) == bv@);
    string_of(&v)
}

fn concat4(a: &str, b: &str, c: &str, d: &str) -> (r: String)
    ensures
        r@ == a@ + b@ + c@ + d@,
{
    let ab = concat2(a, b);
    let abc = concat2(ab.as_str(), c);
    concat2(abc.as_str(), d)
}

/// The status shown when a file could not be opened.
pub open spec fn open_failure_message(path: Seq<char>, reason: Seq<char>) -> Seq<char> {
    "Couldn't open "@ + path + ": "@ + reason
}

/// The status shown when a file could not be shown in the file browser.
pub open spec fn reveal_failure_message(path: Seq<char>, reason: Seq<char>) -> Seq<char> {
    "Couldn't reveal "@ + path + ": "@ + reason
}

/// The state has each project's file list at most once.
pub open spec fn ui_wf(st: UiState) -> bool {
    forall|i: int, j: int|
        0 <= i < st.files_by_project@.len() && 0 <= j < st.files_by_project@.len() && i != j ==> (#[trigger] st.files_by_project@[i]).0
            != (#[trigger] st.files_by_project@[j]).0
}

/// What `UiState::update` does with message `msg`: the state after it, and the effects it asks
/// for.
pub open spec fn is_update(old: UiState, msg: Message, new: UiState, fx: Seq<Effect>) -> bool {
    match msg {
        Message::Tick => new == old && fx.len() == 1 && fx[0] is DrainEvents,
        Message::ProjectSelected(pid) => {
            &&& new == (UiState { selected_project: Some(pid), ..old })
            &&& fx.len() == 1
            &&& fx[0] matches Effect::Send(Command::ListFilesForProject { project_id })
            &&& project_id == pid
        },
        Message::NewProjectMenuOpened => new == (UiState { new_project_menu_open: true, ..old }) && fx.len() == 0,
        Message::NewProjectMenuClosed => new == (UiState { new_project_menu_open: false, ..old }) && fx.len() == 0,
        Message::PickImageFromDownloads => {
            &&& new == (UiState { new_project_menu_open: false, ..old })
            &&& fx.len() == 1
            &&& fx[0] matches Effect::PickImage { extensions, from_downloads }
            &&& from_downloads
            &&& strs_view(extensions@) == old.settings.extension_rules.parents()
        },
        Message::BrowseForImage => {
            &&& new == (UiState { new_project_menu_open: false, ..old })
            &&& fx.len() == 1
            &&& fx[0] matches Effect::PickImage { extensions, from_downloads }
            &&& !from_downloads
            &&& strs_view(extensions@) == old.settings.extension_rules.parents()
        },
        Message::StartScratchProject => {
            &&& new == (UiState { scratch_dialog: new.scratch_dialog, new_project_menu_open: false, ..old })
            &&& new.scratch_dialog matches Some(d)
            &&& d.name@.len() == 0
            &&& fx.len() == 0
        },
        Message::ScratchNameChanged(name) => fx.len() == 0 && match old.scratch_dialog {
            Some(_) => new == (UiState { scratch_dialog: Some(ScratchDialogState { name: name }), ..old }),
            None => new == old,
        },
        Message::ScratchSubmitted => new == (UiState { scratch_dialog: None, ..old }) && match old.scratch_dialog {
            Some(d) => if trim(d.name@).len() > 0 {
                &&& fx.len() == 1
                &&& fx[0] matches Effect::Send(Command::CreateProjectFromScratch { name })
                &&& name@ == trim(d.name@)
            } else {
                fx.len() == 0
            },
            None => fx.len() == 0,
        },
        Message::ScratchCancelled => new == (UiState { scratch_dialog: None, ..old }) && fx.len() == 0,
        Message::OpenSetupDialog => {
            &&& new == (UiState { setup_dialog: new.setup_dialog, ..old })
            &&& new.setup_dialog matches Some(d)
            &&& shows_settings(d, old.settings)
            &&& fx.len() == 0
        },
        Message::SetupRootPicked => new == old && fx.len() == 1 && fx[0] is PickRootFolder,
        Message::SetupRelevantDirAdded => new == old && fx.len() == 1 && fx[0] is PickRelevantFolder,
        Message::SetupRelevantDirRemoved(i) => fx.len() == 0 && match old.setup_dialog {
            Some(d) => if i < d.relevant_dirs@.len() {
                &&& new == (UiState { setup_dialog: new.setup_dialog, ..old })
                &&& new.setup_dialog matches Some(e)
                &&& e.root == d.root
                &&& e.parent_extensions == d.parent_extensions
                &&& e.child_extensions == d.child_extensions
                &&& e.relevant_dirs@ == d.relevant_dirs@.remove(i as int)
            } else {
                new == old
            },
            None => new == old,
        },
        Message::SetupParentExtensionsChanged(v) => fx.len() == 0 && match old.setup_dialog {
            Some(d) => new == (UiState { setup_dialog: Some(SetupDialogState { parent_extensions: v, ..d }), ..old }),
            None => new == old,
        },
        Message::SetupChildExtensionsChanged(v) => fx.len() == 0 && match old.setup_dialog {
            Some(d) => new == (UiState { setup_dialog: Some(SetupDialogState { child_extensions: v, ..d }), ..old }),
            None => new == old,
        },
        Message::SetupSubmitted => new == old && match old.setup_dialog {
            Some(d) => match d.root {
                Some(root) => if d.relevant_dirs@.len() > 0 {
                    &&& fx.len() == 1
                    &&& fx[0] matches Effect::Send(
                        Command::SaveSettings { root_directory, relevant_directories, parent_extensions, child_extensions },
                    )
                    &&& root_directory@ == root@
                    &&& strs_view(relevant_directories@) == strs_view(d.relevant_dirs@)
                    &&& strs_view(parent_extensions@) == spec_parse_ext_list(d.parent_extensions@)
                    &&& strs_view(child_extensions@) == spec_parse_ext_list(d.child_extensions@)
                } else {
                    fx.len() == 0
                },
                None => fx.len() == 0,
            },
            None => fx.len() == 0,
        },
        Message::SyncNowClicked => {
            &&& new == old
            &&& fx.len() == 2
            &&& fx[0] matches Effect::Send(Command::SyncRootDirectory)
            &&& fx[1] matches Effect::Send(Command::SyncRelevantDirectories)
        },
        Message::RescanProjectClicked => new == old && match old.selected_project {
            Some(pid) => {
                &&& fx.len() == 1
                &&& fx[0] matches Effect::Send(Command::RescanProject { project_id })
                &&& project_id == pid
            },
            None => fx.len() == 0,
        },
        Message::SyncRelevantDirectoriesClicked => {
            &&& new == old
            &&& fx.len() == 1
            &&& fx[0] matches Effect::Send(Command::SyncRelevantDirectories)
        },
        Message::MoveAllMatchedClicked => new == old && match old.selected_project {
            Some(pid) => {
                &&& fx.len() == 1
                &&& fx[0] matches Effect::Send(Command::MoveAllMatchedIntoProject { project_id })
                &&& project_id == pid
            },
            None => fx.len() == 0,
        },
        Message::MoveChildFileClicked(id) => {
            &&& new == old
            &&& fx.len() == 1
            &&& fx[0] matches Effect::Send(Command::MoveChildFileIntoProject { child_file_id })
            &&& child_file_id == id
        },
        Message::OpenFileClicked(path) => {
            &&& new == old
            &&& fx.len() == 1
            &&& fx[0] matches Effect::OpenFile(p)
            &&& p == path
        },
        Message::RevealFileClicked(path) => {
            &&& new == old
            &&& fx.len() == 1
            &&& fx[0] matches Effect::RevealFile(p)
            &&& p == path
        },
        Message::StatusDismissed => new == (UiState { status: None, ..old }) && fx.len() == 0,
        Message::FilesDropped(path) => if spec_is_source_path(old.settings.extension_rules, path@) {
            &&& new == old
            &&& fx.len() == 1
            &&& fx[0] matches Effect::Send(Command::CreateProjectFromImage { image_path })
            &&& image_path == path
        } else {
            &&& fx.len() == 0
            &&& new == (UiState { status: new.status, ..old })
            &&& new.status matches Some(m)
            &&& m@ == "Dropped file isn't a recognized image: "@ + path@
        },
    }
}

/// What `UiState::apply_event` does with a report from the worker.
pub open spec fn is_event_applied(old: UiState, ev: UiEvent, new: UiState) -> bool {
    match ev {
        UiEvent::Settings(s) => new == UiState { settings: s, setup_dialog: new.setup_dialog, ..old } && if s.root_directory
            is Some && s.relevant_directories@.len() > 0 {
            new.setup_dialog is None
        } else if old.setup_dialog is None {
            new.setup_dialog matches Some(d) && shows_settings(d, s)
        } else {
            new.setup_dialog == old.setup_dialog
        },
        UiEvent::ProjectsList(ps) => new == UiState { projects: ps, ..old },
        UiEvent::ProjectCreated(p) => new == UiState { selected_project: Some(p.id), projects: new.projects, ..old } && if exists|i: int|
            0 <= i < old.projects@.len() && (#[trigger] old.projects@[i]).id == p.id {
            new.projects == old.projects
        } else {
            new.projects@ == old.projects@.push(p)
        },
        UiEvent::FilesForProject { project_id, files } => new == UiState { files_by_project: new.files_by_project, ..old }
            && new.files_by_project@ == put_files(old.files_by_project@, project_id, files),
        UiEvent::Error(m) => new == UiState { status: Some(m), ..old },
    }
}

/// `new` is `old` with the reports `evs` from the worker applied one after the other (see
/// `is_event_applied`).
pub open spec fn events_applied(old: UiState, evs: Seq<UiEvent>, new: UiState) -> bool {
    exists|states: Seq<UiState>|
        #[trigger] states.len() == evs.len() + 1 && states[0] == old && states[evs.len() as int] == new && forall|i: int|
            0 <= i < evs.len() ==> is_event_applied(#[trigger] states[i], evs[i], states[i + 1])
}

/// No two projects of `ps` share an id.
pub open spec fn distinct_project_ids(ps: Seq<Project>) -> bool {
    forall|i: int, j: int| 0 <= i < ps.len() && 0 <= j < ps.len() && i != j ==> (#[trigger] ps[i]).id != (#[trigger] ps[j]).id
}

/// Applying reports from the worker keeps the ids of the listed projects distinct, when every
/// project list reported has distinct ids.
pub proof fn law_events_keep_project_ids_distinct(old: UiState, evs: Seq<UiEvent>, new: UiState)
    requires
        events_applied(old, evs, new),
        distinct_project_ids(old.projects@),
        forall|i: int| 0 <= i < evs.len() ==> (#[trigger] evs[i] matches UiEvent::ProjectsList(ps) ==> distinct_project_ids(ps@)),
    ensures
        distinct_project_ids(new.projects@),
{
    let states = choose|states: Seq<UiState>|
        #[trigger] states.len() == evs.len() + 1 && states[0] == old && states[evs.len() as int] == new && forall|i: int|
            0 <= i < evs.len() ==> is_event_applied(#[trigger] states[i], evs[i], states[i + 1]);
    lemma_states_keep_ids(states, evs, evs.len() as int);
}

proof fn lemma_states_keep_ids(states: Seq<UiState>, evs: Seq<UiEvent>, k: int)
    requires
        0 <= k <= evs.len(),
        states.len() == evs.len() + 1,
        distinct_project_ids(states[0].projects@),
        forall|i: int| 0 <= i < evs.len() ==> is_event_applied(#[trigger] states[i], evs[i], states[i + 1]),
        forall|i: int| 0 <= i < evs.len() ==> (#[trigger] evs[i] matches UiEvent::ProjectsList(ps) ==> distinct_project_ids(ps@)),
    ensures
        distinct_project_ids(states[k].projects@),
    decreases k,
{
    if k > 0 {
        lemma_states_keep_ids(states, evs, k - 1);
        let a = states[k - 1];
        let b = states[k];
        assert(is_event_applied(a, evs[k - 1], b));
        match evs[k - 1] {
            UiEvent::ProjectCreated(p) => {
                if !exists|i: int| 0 <= i < a.projects@.len() && (#[trigger] a.projects@[i]).id == p.id {
                    assert forall|i: int, j: int|
                        0 <= i < b.projects@.len() && 0 <= j < b.projects@.len() && i != j implies (#[trigger] b.projects@[i]).id
                            != (#[trigger] b.projects@[j]).id by {
                        if i < a.projects@.len() && j < a.projects@.len() {
                            assert(b.projects@[i] == a.projects@[i]);
                            assert(b.projects@[j] == a.projects@[j]);
                        } else if i < a.projects@.len() {
                            assert(b.projects@[i] == a.projects@[i]);
                        } else {
                            assert(b.projects@[j] == a.projects@[j]);
                        }
                    }
                }
            },
            _ => {},
        }
    }
}

impl UiState {
    /// Applies the reports `events` from the worker, in order (see `apply_event`).
    pub fn apply_events(&mut self, events: Vec<UiEvent>)
        requires
            ui_wf(*old(self)),
        ensures
            ui_wf(*final(self)),
            events_applied(*old(self), events@, *final(self)),
    {
        let ghost evs = events@;
        let ghost mut states: Seq<UiState> = seq![*self];
        let mut rest = events;
        let mut k: usize = 0;
        let total = rest.len();
        assert(evs.len() == total);
        while rest.len() > 0
            invariant
                ui_wf(*self),
                evs.len() <= usize::MAX,
                k <= evs.len(),
                rest@ == evs.skip(k as int),
                states.len() == k + 1,
                states[0] == *old(self),
                states[k as int] == *self,
                forall|i: int| 0 <= i < k ==> is_event_applied(#[trigger] states[i], evs[i], states[i + 1]),
            decreases rest.len(),
        {
            let ev = rest.remove(0);
            assert(ev == evs[k as int]);
            self.apply_event(ev);
            proof {
                let prev = states;
                states = states.push(*self);
                assert forall|i: int| 0 <= i < k + 1 implies is_event_applied(#[trigger] states[i], evs[i], states[i + 1]) by {
                    assert(states[i] == prev[i] || i == k);
                    if i < k {
                        assert(states[i + 1] == prev[i + 1]);
                    }
                }
                assert(rest@ =~= evs.skip(k + 1));
            }
            k = k + 1;
        }
        assert(k == evs.len());
        assert(states.len() == evs.len() + 1 && states[0] == *old(self) && states[evs.len() as int] == *self);
    }

    /// The state at start-up: unconfigured settings (the built-in extension rules), nothing
    /// known, nothing open.
    pub fn new() -> (r: UiState)
        ensures
            ui_wf(r),
            r.settings.root_directory is None,
            r.settings.relevant_directories@.len() == 0,
            r.settings.extension_rules.parents() == seq!["png"@, "jpg"@, "jpeg"@, "bmp"@],
            r.settings.extension_rules.children() == seq!["prt"@, "bmp"@],
            r.projects@.len() == 0,
            r.selected_project is None,
            r.files_by_project@.len() == 0,
            r.setup_dialog is None,
            !r.new_project_menu_open,
            r.scratch_dialog is None,
            r.status is None,
    {
        UiState {
            settings: Settings::unconfigured(),
            projects: Vec::new(),
            selected_project: None,
            files_by_project: Vec::new(),
            setup_dialog: None,
            new_project_menu_open: false,
            scratch_dialog: None,
            status: None,
        }
    }

    /// Reacts to a message from the widgets (see `is_update`).
    pub fn update(&mut self, msg: Message) -> (fx: Vec<Effect>)
        ensures
            is_update(*old(self), msg, *final(self), fx@),
    {
        let mut fx: Vec<Effect> = Vec::new();
        match msg {
            Message::Tick => {
                fx.push(Effect::DrainEvents);
            },
            Message::ProjectSelected(pid) => {
                self.selected_project = Some(pid);
                fx.push(Effect::Send(Command::ListFilesForProject { project_id: pid }));
            },
            Message::NewProjectMenuOpened => {
                self.new_project_menu_open = true;
            },
            Message::NewProjectMenuClosed => {
                self.new_project_menu_open = false;
            },
            Message::PickImageFromDownloads => {
                fx.push(
                    Effect::PickImage {
                        extensions: dup_strings(&self.settings.extension_rules.parent_extensions),
                        from_downloads: true,
                    },
                );
                self.new_project_menu_open = false;
            },
            Message::BrowseForImage => {
                fx.push(
                    Effect::PickImage {
                        extensions: dup_strings(&self.settings.extension_rules.parent_extensions),
                        from_downloads: false,
                    },
                );
                self.new_project_menu_open = false;
            },
            Message::StartScratchProject => {
                self.scratch_dialog = Some(ScratchDialogState { name: String::new() });
                self.new_project_menu_open = false;
            },
            Message::ScratchNameChanged(name) => {
                if self.scratch_dialog.is_some() {
                    self.scratch_dialog = Some(ScratchDialogState { name: name });
                }
            },
            Message::ScratchSubmitted => {
                let taken = match &self.scratch_dialog {
                    Some(d) => Some(trim_chars(&chars_of(d.name.as_str()))),
                    None => None,
                };
                self.scratch_dialog = None;
                match taken {
                    Some(t) => {
                        if t.len() > 0 {
                            fx.push(Effect::Send(Command::CreateProjectFromScratch { name: string_of(&t) }));
                        }
                    },
                    None => {},
                }
            },
            Message::ScratchCancelled => {
                self.scratch_dialog = None;
            },
            Message::OpenSetupDialog => {
                self.setup_dialog = Some(SetupDialogState::from_settings(&self.settings));
            },
            Message::SetupRootPicked => {
                fx.push(Effect::PickRootFolder);
            },
            Message::SetupRelevantDirAdded => {
                fx.push(Effect::PickRelevantFolder);
            },
            Message::SetupRelevantDirRemoved(i) => {
                match &mut self.setup_dialog {
                    Some(d) => {
                        if i < d.relevant_dirs.len() {
                            let _removed = d.relevant_dirs.remove(i);
                        }
                    },
                    None => {},
                }
            },
            Message::SetupParentExtensionsChanged(v) => {
                match &mut self.setup_dialog {
                    Some(d) => {
                        d.parent_extensions = v;
                    },
                    None => {},
                }
            },
            Message::SetupChildExtensionsChanged(v) => {
                match &mut self.setup_dialog {
                    Some(d) => {
                        d.child_extensions = v;
                    },
                    None => {},
                }
            },
            Message::SetupSubmitted => {
                match &self.setup_dialog {
                    Some(d) => match &d.root {
                        Some(root) => {
                            if d.relevant_dirs.len() > 0 {
                                fx.push(
                                    Effect::Send(
                                        Command::SaveSettings {
                                            root_directory: dup_string(root),
                                            relevant_directories: dup_strings(&d.relevant_dirs),
                                            parent_extensions: parse_ext_list(d.parent_extensions.as_str()),
                                            child_extensions: parse_ext_list(d.child_extensions.as_str()),
                                        },
                                    ),
                                );
                            }
                        },
                        None => {},
                    },
                    None => {},
                }
            },
            Message::SyncNowClicked => {
                fx.push(Effect::Send(Command::SyncRootDirectory));
                fx.push(Effect::Send(Command::SyncRelevantDirectories));
            },
            Message::RescanProjectClicked => {
                match self.selected_project {
                    Some(pid) => {
                        fx.push(Effect::Send(Command::RescanProject { project_id: pid }));
                    },
                    None => {},
                }
            },
            Message::SyncRelevantDirectoriesClicked => {
                fx.push(Effect::Send(Command::SyncRelevantDirectories));
            },
            Message::MoveAllMatchedClicked => {
                match self.selected_project {
                    Some(pid) => {
                        fx.push(Effect::Send(Command::MoveAllMatchedIntoProject { project_id: pid }));
                    },
                    None => {},
                }
            },
            Message::MoveChildFileClicked(id) => {
                fx.push(Effect::Send(Command::MoveChildFileIntoProject { child_file_id: id }));
            },
            Message::OpenFileClicked(path) => {
                fx.push(Effect::OpenFile(path));
            },
            Message::RevealFileClicked(path) => {
                fx.push(Effect::RevealFile(path));
            },
            Message::StatusDismissed => {
                self.status = None;
            },
            Message::FilesDropped(path) => {
                if is_source_path(&self.settings.extension_rules, path.as_str()) {
                    fx.push(Effect::Send(Command::CreateProjectFromImage { image_path: path }));
                } else {
                    self.status = Some(concat2("Dropped file isn't a recognized image: ", path.as_str()));
                }
            },
        }
        fx
    }

    /// Applies a report from the worker (see `is_event_applied`).
    pub fn apply_event(&mut self, ev: UiEvent)
        requires
            ui_wf(*old(self)),
        ensures
            ui_wf(*final(self)),
            is_event_applied(*old(self), ev, *final(self)),
    {
        match ev {
            UiEvent::Settings(s) => {
                if s.is_configured() {
                    self.setup_dialog = None;
                } else if self.setup_dialog.is_none() {
                    self.setup_dialog = Some(SetupDialogState::from_settings(&s));
                }
                self.settings = s;
            },
            UiEvent::ProjectsList(ps) => {
                self.projects = ps;
            },
            UiEvent::ProjectCreated(p) => {
                self.selected_project = Some(p.id);
                let mut known = false;
                for i in 0..self.projects.len()
                    invariant
                        known == exists|j: int| 0 <= j < i && (#[trigger] self.projects@[j]).id == p.id,
                {
                    if self.projects[i].id == p.id {
                        known = true;
                    }
                }
                if !known {
                    self.projects.push(p);
                }
            },
            UiEvent::FilesForProject { project_id, files } => {
                let mut found: Option<usize> = None;
                for i in 0..self.files_by_project.len()
                    invariant
                        match found {
                            Some(k) => k < i && self.files_by_project@[k as int].0 == project_id,
                            None => forall|j: int| 0 <= j < i ==> (#[trigger] self.files_by_project@[j]).0 != project_id,
                        },
                {
                    if found.is_none() && self.files_by_project[i].0 == project_id {
                        found = Some(i);
                    }
                }
                let ghost before = self.files_by_project@;
                match found {
                    Some(k) => {
                        proof {
                            let c = choose|c: int| 0 <= c < before.len() && (#[trigger] before[c]).0 == project_id;
                            if c != k {
                                assert(before[c].0 != before[k as int].0);
                            }
                        }
                        self.files_by_project.set(k, (project_id, files));
                    },
                    None => {
                        self.files_by_project.push((project_id, files));
                    },
                }
                proof {
                    let v = self.files_by_project@;
                    assert forall|i: int, j: int| 0 <= i < v.len() && 0 <= j < v.len() && i != j implies (#[trigger] v[i]).0
                        != (#[trigger] v[j]).0 by {
                        if i < before.len() && j < before.len() {
                            if found is Some && (i == found->0 || j == found->0) {
                                if i == found->0 {
                                    assert(before[i].0 != before[j].0);
                                } else {
                                    assert(before[i].0 != before[j].0);
                                }
                            }
                        }
                    }
                }
            },
            UiEvent::Error(m) => {
                self.status = Some(m);
            },
        }
    }

    /// Records the root folder picked for the setup dialog, when it is open.
    pub fn root_picked(&mut self, path: String)
        ensures
            match old(self).setup_dialog {
                Some(d) => *final(self) == (UiState {
                    setup_dialog: Some(SetupDialogState { root: Some(path), ..d }),
                    ..*old(self)
                }),
                None => *final(self) == *old(self),
            },
    {
        match &mut self.setup_dialog {
            Some(d) => {
                d.root = Some(path);
            },
            None => {},
        }
    }

    /// Adds the relevant folder picked for the setup dialog, when it is open and the folder is
    /// not listed yet.
    pub fn relevant_dir_picked(&mut self, path: String)
        ensures
            match old(self).setup_dialog {
                Some(d) => if strs_view(d.relevant_dirs@).contains(path@) {
                    *final(self) == *old(self)
                } else {
                    &&& *final(self) == (UiState { setup_dialog: final(self).setup_dialog, ..*old(self) })
                    &&& final(self).setup_dialog matches Some(e)
                    &&& e.root == d.root
                    &&& e.parent_extensions == d.parent_extensions
                    &&& e.child_extensions == d.child_extensions
                    &&& e.relevant_dirs@ == d.relevant_dirs@.push(path)
                },
                None => *final(self) == *old(self),
            },
    {
        match &mut self.setup_dialog {
            Some(d) => {
                if !crate::naming::contains_string(&d.relevant_dirs, &path) {
                    d.relevant_dirs.push(path);
                }
            },
            None => {},
        }
    }

    /// Reports that the file at `path` could not be opened, for `reason`.
    pub fn open_failed(&mut self, path: &str, reason: &str)
        ensures
            *final(self) == (UiState { status: final(self).status, ..*old(self) }),
            final(self).status matches Some(m) && m@ == open_failure_message(path@, reason@),
    {
        self.status = Some(concat4("Couldn't open ", path, ": ", reason));
    }

    /// Reports that the file at `path` could not be shown in the file browser, for `reason`.
    pub fn reveal_failed(&mut self, path: &str, reason: &str)
        ensures
            *final(self) == (UiState { status: final(self).status, ..*old(self) }),
            final(self).status matches Some(m) && m@ == reveal_failure_message(path@, reason@),
    {
        self.status = Some(concat4("Couldn't reveal ", path, ": ", reason));
    }
}

// ----- thumbnail cache ------------------------------------------------------------------------

/// The lower-case hexadecimal digit for `d` (below 16).
pub open spec fn hex_digit(d: int) -> char {
    if d < 10 {
        crate::naming::digit_char(d)
    } else if d == 10 {
        'a'
    } else if d == 11 {
        'b'
    } else if d == 12 {
        'c'
    } else if d == 13 {
        'd'
    } else if d == 14 {
        'e'
    } else {
        'f'
    }
}

/// The last `width` hexadecimal digits of `n`, most significant first, zero-padded.
pub open spec fn hex_digits(n: nat, width: nat) -> Seq<char>
    decreases width,
{
    if width == 0 {
        Seq::empty()
    } else {
        hex_digits(n / 16, (width - 1) as nat).push(hex_digit((n % 16) as int))
    }
}

/// The decimal form of `n`, with a minus sign when negative.
pub open spec fn signed_decimal(n: int) -> Seq<char> {
    if n < 0 {
        seq!['-'] + crate::naming::decimal((-n) as nat)
    } else {
        crate::naming::decimal(n as nat)
    }
}

/// The name under which a thumbnail is cached: the path's hash as 16 hexadecimal digits, the
/// file's modification time and its size, joined by underscores, with extension `png`.
pub open spec fn spec_thumbnail_file_name(path_hash: u64, modified_unix: i64, size_bytes: u64) -> Seq<char> {
    hex_digits(path_hash as nat, 16) + seq!['_'] + signed_decimal(modified_unix as int) + seq!['_']
        + crate::naming::decimal(size_bytes as nat) + seq!['.', 'p', 'n', 'g']
}

fn hex_digit_exec(d: u64) -> (c: char)
    requires
        d < 16,
    ensures
        c == hex_digit(d as int),
{
    if d < 10 {
        if d == 0 { '0' } else if d == 1 { '1' } else if d == 2 { '2' } else if d == 3 { '3' } else if d == 4 { '4' }
        else if d == 5 { '5' } else if d == 6 { '6' } else if d == 7 { '7' } else if d == 8 { '8' } else { '9' }
    } else if d == 10 {
        'a'
    } else if d == 11 {
        'b'
    } else if d == 12 {
        'c'
    } else if d == 13 {
        'd'
    } else if d == 14 {
        'e'
    } else {
        'f'
    }
}

fn hex_digits_exec(n: u64, width: u64) -> (r: Vec<char>)
    ensures
        r@ == hex_digits(n as nat, width as nat),
    decreases width,
{
    if width == 0 {
        Vec::new()
    } else {
        let mut v = hex_digits_exec(n / 16, width - 1);
        v.push(hex_digit_exec(n % 16));
        v
    }
}

fn signed_decimal_chars(n: i64) -> (r: Vec<char>)
    ensures
        r@ == signed_decimal(n as int),
{
    if n < 0 {
        let m: u128 = (0i128 - n as i128) as u128;
        let d = crate::naming::decimal_chars(m);
        let mut v: Vec<char> = Vec::new();
        v.push('-');
        let ghost start = v@;
        for i in 0..d.len()
            invariant
                v@ == seq!['-'] + d@.take(i as int),
        {
            v.push(d[i]);
            assert(d@.take(i + 1) == d@.take(i as int).push(d@[i as int]));
        }
        assert(d@.take(d@.len() as int) == d@);
        v
    } else {
        crate::naming::decimal_chars(n as u128)
    }
}

fn append_chars(v: &mut Vec<char>, w: &Vec<char>)
    ensures
        final(v)@ == old(v)@ + w@,
{
    let ghost start = v@;
    for i in 0..w.len()
        invariant
            v@ == start + w@.take(i as int),
    {
        v.push(w[i]);
        assert(w@.take(i + 1) == w@.take(i as int).push(w@[i as int]));
    }
    assert(w@.take(w@.len() as int) == w@);
}

/// The name under which the thumbnail of a file is cached (see `spec_thumbnail_file_name`);
/// `path_hash` is the hash of the file's path.
pub fn thumbnail_file_name(path_hash: u64, modified_unix: i64, size_bytes: u64) -> (r: String)
    ensures
        r@ == spec_thumbnail_file_name(path_hash, modified_unix, size_bytes),
{
    let mut v = hex_digits_exec(path_hash, 16);
    v.push('_');
    let m = signed_decimal_chars(modified_unix);
    append_chars(&mut v, &m);
    v.push('_');
    let z = crate::naming::decimal_chars(size_bytes as u128);
    append_chars(&mut v, &z);
    v.push('.');
    v.push('p');
    v.push('n');
    v.push('g');
    assert(v@ =~= spec_thumbnail_file_name(path_hash, modified_unix, size_bytes));
    string_of(&v)
}

/// Where the thumbnail for `req` is cached inside `cache_dir` (see `thumbnail_file_name`);
/// `path_hash` is the hash of the requested file's path.
pub fn thumbnail_cache_path(cache_dir: &str, req: &ThumbnailRequest, path_hash: u64, sep: char) -> (r: String)
    ensures
        r@ == crate::naming::spec_join(
            cache_dir@,
            spec_thumbnail_file_name(path_hash, req.modified_unix, req.size_bytes),
            sep,
        ),
{
    let name = thumbnail_file_name(path_hash, req.modified_unix, req.size_bytes);
    crate::naming::join_name(cache_dir, name.as_str(), sep)
}

// ----- the project page -------------------------------------------------------------------------

/// The number of days from 1970-01-01 to the date `y`-`m`-`d` of the proleptic Gregorian
/// calendar (negative before it).
pub open spec fn days_from_civil(y: int, m: int, d: int) -> int {
    let yy = if m <= 2 {
        y - 1
    } else {
        y
    };
    let era = yy / 400;
    let yoe = yy - era * 400;
    let mp = if m > 2 {
        m - 3
    } else {
        m + 9
    };
    let doy = (153 * mp + 2) / 5 + d - 1;
    let doe = yoe * 365 + yoe / 4 - yoe / 100 + doy;
    era * 146097 + doe - 719468
}

/// The UTC calendar date (year, month, day) of a time given in microseconds since the Unix
/// epoch: the date that many whole days (rounded down) after 1970-01-01, when chrono's dates
/// reach it (see `is_calendar_date`); nothing otherwise.
pub open spec fn utc_calendar_date(micros: i64) -> Option<(i32, u32, u32)> {
    let day = micros / 86_400_000_000;
    if exists|t: (i32, u32, u32)|
        crate::naming::is_calendar_date(t.0 as int, t.1 as nat, t.2 as nat) && #[trigger] days_from_civil(
            t.0 as int,
            t.1 as int,
            t.2 as int,
        ) == day {
        Some(
            choose|t: (i32, u32, u32)|
                crate::naming::is_calendar_date(t.0 as int, t.1 as nat, t.2 as nat) && #[trigger] days_from_civil(
                    t.0 as int,
                    t.1 as int,
                    t.2 as int,
                ) == day,
        )
    } else {
        None
    }
}

/// Calls `chrono::DateTime::from_timestamp_micros` and takes the year, month and day of the
/// date of the result (UTC). The contract claims chrono's documented behaviour: the date that
/// the time falls on (see `utc_calendar_date`; a day count names at most one date), or nothing
/// when the time is beyond chrono's range of dates.
#[verifier::external_body]
fn utc_date(micros: i64) -> (r: Option<(i32, u32, u32)>)
    ensures
        r == utc_calendar_date(micros),
{
    match chrono::DateTime::from_timestamp_micros(micros) {
        Some(t) => {
            let d = t.date_naive();
            Some((chrono::Datelike::year(&d), chrono::Datelike::month(&d), chrono::Datelike::day(&d)))
        },
        None => None,
    }
}

/// Date `a` comes before date `b`.
pub open spec fn date_before(a: (i32, u32, u32), b: (i32, u32, u32)) -> bool {
    a.0 < b.0 || (a.0 == b.0 && (a.1 < b.1 || (a.1 == b.1 && a.2 < b.2)))
}

fn date_before_exec(a: (i32, u32, u32), b: (i32, u32, u32)) -> (r: bool)
    ensures
        r == date_before(a, b),
{
    a.0 < b.0 || (a.0 == b.0 && (a.1 < b.1 || (a.1 == b.1 && a.2 < b.2)))
}

/// `d` is the date a file of `files` was created or last modified on.
pub open spec fn is_active_date(files: Seq<ProjectFileView>, d: (i32, u32, u32)) -> bool {
    exists|i: int|
        0 <= i < files.len() && (utc_calendar_date((#[trigger] files[i]).created_at) == Some(d)
            || utc_calendar_date(files[i].modified_at) == Some(d))
}

/// `v` lists dates in increasing order.
pub open spec fn dates_increasing(v: Seq<(i32, u32, u32)>) -> bool {
    forall|i: int, j: int| 0 <= i < j < v.len() ==> date_before(#[trigger] v[i], #[trigger] v[j])
}

fn insert_date(v: &mut Vec<(i32, u32, u32)>, d: (i32, u32, u32))
    requires
        dates_increasing(old(v)@),
    ensures
        dates_increasing(final(v)@),
        forall|x: (i32, u32, u32)| final(v)@.contains(x) <==> (old(v)@.contains(x) || x == d),
{
    let mut i: usize = 0;
    while i < v.len() && date_before_exec(v[i], d)
        invariant
            i <= v@.len(),
            forall|j: int| 0 <= j < i ==> date_before(#[trigger] v@[j], d),
        decreases v@.len() - i,
    {
        i = i + 1;
    }
    if i < v.len() && v[i].0 == d.0 && v[i].1 == d.1 && v[i].2 == d.2 {
        return;
    }
    let ghost before = v@;
    v.insert(i, d);
    proof {
        assert forall|a: int, b: int| 0 <= a < b < v@.len() implies date_before(#[trigger] v@[a], #[trigger] v@[b]) by {
            if b < i {
                assert(v@[a] == before[a] && v@[b] == before[b]);
            } else if b == i {
                assert(v@[a] == before[a]);
            } else if a == i {
                assert(v@[b] == before[b - 1]);
                assert(!date_before(before[i as int], d));
                if b - 1 > i {
                    assert(date_before(before[i as int], before[b - 1]));
                }
            } else if a < i {
                assert(v@[a] == before[a] && v@[b] == before[b - 1]);
            } else {
                assert(v@[a] == before[a - 1] && v@[b] == before[b - 1]);
            }
        }
        assert forall|x: (i32, u32, u32)| v@.contains(x) <==> (before.contains(x) || x == d) by {
            if v@.contains(x) {
                let k = choose|k: int| 0 <= k < v@.len() && v@[k] == x;
                if k < i {
                    assert(before[k] == x);
                } else if k > i {
                    assert(before[k - 1] == x);
                }
            }
            if before.contains(x) {
                let k = choose|k: int| 0 <= k < before.len() && before[k] == x;
                if k < i {
                    assert(v@[k] == x);
                } else {
                    assert(v@[k + 1] == x);
                }
            }
            if x == d {
                assert(v@[i as int] == d);
            }
        }
    }
}

/// The dates on which files of the list were created or last modified, each once, in
/// increasing order.
pub fn active_dates(files: &Vec<ProjectFileView>) -> (r: Vec<(i32, u32, u32)>)
    ensures
        dates_increasing(r@),
        forall|d: (i32, u32, u32)| r@.contains(d) <==> is_active_date(files@, d),
{
    let mut v: Vec<(i32, u32, u32)> = Vec::new();
    for i in 0..files.len()
        invariant
            dates_increasing(v@),
            forall|d: (i32, u32, u32)| v@.contains(d) <==> is_active_date(files@.take(i as int), d),
    {
        let ghost before = v@;
        let c = utc_date(files[i].created_at);
        match c {
            Some(d) => insert_date(&mut v, d),
            None => {},
        }
        let m = utc_date(files[i].modified_at);
        match m {
            Some(d) => insert_date(&mut v, d),
            None => {},
        }
        assert forall|d: (i32, u32, u32)| v@.contains(d) <==> is_active_date(files@.take(i + 1), d) by {
            let t = files@.take(i + 1);
            assert(t[i as int] == files@[i as int]);
            if is_active_date(files@.take(i as int), d) {
                let k = choose|k: int|
                    0 <= k < files@.take(i as int).len() && (utc_calendar_date((#[trigger] files@.take(i as int)[k]).created_at)
                        == Some(d) || utc_calendar_date(files@.take(i as int)[k].modified_at) == Some(d));
                assert(t[k] == files@.take(i as int)[k]);
            }
            if is_active_date(t, d) {
                let k = choose|k: int|
                    0 <= k < t.len() && (utc_calendar_date((#[trigger] t[k]).created_at) == Some(d)
                        || utc_calendar_date(t[k].modified_at) == Some(d));
                if k < i {
                    assert(files@.take(i as int)[k] == t[k]);
                }
            }
        }
    }
    assert(files@.take(files@.len() as int) =~= files@);
    v
}

/// The page shown for the selected project.
#[derive(Debug, Clone)]
pub struct ProjectPage {
    /// The project's name without its date prefix.
    pub title: String,
    pub folder_path: String,
    /// Some file is a child file still outside the project's folder.
    pub offers_move_all: bool,
    pub dates: Vec<(i32, u32, u32)>,
    pub files: Vec<ProjectFileView>,
    pub groups: Vec<crate::grouping::ImageGroup>,
    pub unassigned: Vec<crate::grouping::Iteration>,
    pub leftovers: Vec<ProjectFileView>,
}

/// What the main area shows.
#[derive(Debug, Clone)]
pub enum PageView {
    NothingSelected,
    /// The selected project is not in the list.
    Unknown,
    Project(ProjectPage),
}

/// The files reported for `pid`, or none.
pub open spec fn reported_files(st: UiState, pid: ProjectId) -> Seq<ProjectFileView> {
    match files_entry(st.files_by_project@, pid) {
        Some(k) => st.files_by_project@[k].1@,
        None => Seq::empty(),
    }
}

fn dup_views(v: &Vec<ProjectFileView>) -> (r: Vec<ProjectFileView>)
    ensures
        r@ == v@,
{
    let mut out: Vec<ProjectFileView> = Vec::new();
    for i in 0..v.len()
        invariant
            out@ == v@.take(i as int),
    {
        out.push(v[i].duplicate());
        assert(out@ =~= v@.take(i + 1));
    }
    assert(v@.take(v@.len() as int) =~= v@);
    out
}

impl UiState {
    /// The page for the selected project: its name without date prefix, its folder, whether to
    /// offer moving all matched files in, the active dates, and its files as last reported,
    /// grouped (see `group_files`).
    #[verifier::spinoff_prover]
    pub fn project_page(&self) -> (r: PageView)
        requires
            ui_wf(*self),
        ensures
            self.selected_project is None ==> r is NothingSelected,
            self.selected_project matches Some(pid) ==> {
                if exists|i: int| 0 <= i < self.projects@.len() && (#[trigger] self.projects@[i]).id == pid {
                    r matches PageView::Project(page) && {
                        let files = reported_files(*self, pid);
                        &&& exists|i: int|
                            0 <= i < self.projects@.len() && (#[trigger] self.projects@[i]).id == pid && (forall|j: int|
                                0 <= j < i ==> (#[trigger] self.projects@[j]).id != pid) && page.title@
                                == self.projects@[i].name@.skip(crate::naming::date_prefix_len(self.projects@[i].name@) as int)
                                && page.folder_path@ == self.projects@[i].folder_path@
                        &&& page.files@ == files
                        &&& page.offers_move_all == exists|k: int|
                            0 <= k < files.len() && (#[trigger] files[k]).source == crate::model::FileSource::Child
                        &&& dates_increasing(page.dates@)
                        &&& forall|d: (i32, u32, u32)| page.dates@.contains(d) <==> is_active_date(files, d)
                        &&& exists|stems: Seq<Seq<char>>, images: Seq<ProjectFileView>|
                            crate::grouping::is_grouping(
                                files,
                                self.settings.extension_rules,
                                stems,
                                images,
                                page.groups@,
                                page.unassigned@,
                                page.leftovers@,
                            )
                    }
                } else {
                    r is Unknown
                }
            },
    {
        let pid = match self.selected_project {
            Some(p) => p,
            None => {
                return PageView::NothingSelected;
            },
        };
        let mut found: Option<usize> = None;
        for i in 0..self.projects.len()
            invariant
                match found {
                    Some(k) => k < i && self.projects@[k as int].id == pid && forall|j: int|
                        0 <= j < k ==> (#[trigger] self.projects@[j]).id != pid,
                    None => forall|j: int| 0 <= j < i ==> (#[trigger] self.projects@[j]).id != pid,
                },
        {
            if found.is_none() && self.projects[i].id == pid {
                found = Some(i);
            }
        }
        let k = match found {
            Some(k) => k,
            None => {
                return PageView::Unknown;
            },
        };
        let project = &self.projects[k];
        let mut entry: Option<usize> = None;
        for i in 0..self.files_by_project.len()
            invariant
                match entry {
                    Some(e) => e < i && self.files_by_project@[e as int].0 == pid,
                    None => forall|j: int| 0 <= j < i ==> (#[trigger] self.files_by_project@[j]).0 != pid,
                },
        {
            if entry.is_none() && self.files_by_project[i].0 == pid {
                entry = Some(i);
            }
        }
        let files = match entry {
            Some(e) => {
                proof {
                    let c = choose|c: int| 0 <= c < self.files_by_project@.len() && (#[trigger] self.files_by_project@[c]).0 == pid;
                    if c != e {
                        assert(self.files_by_project@[c].0 != self.files_by_project@[e as int].0);
                    }
                }
                dup_views(&self.files_by_project[e].1)
            },
            None => Vec::new(),
        };
        assert(files@ == reported_files(*self, pid));
        let mut child_seen = false;
        for i in 0..files.len()
            invariant
                child_seen == exists|j: int| 0 <= j < i && (#[trigger] files@[j]).source == crate::model::FileSource::Child,
        {
            if files[i].source == crate::model::FileSource::Child {
                child_seen = true;
            }
        }
        let dates = active_dates(&files);
        let grouped = crate::grouping::group_files(&files, &self.settings.extension_rules);
        let ghost (stems, images) = choose|stems: Seq<Seq<char>>, images: Seq<ProjectFileView>|
            crate::grouping::is_grouping(
                files@,
                self.settings.extension_rules,
                stems,
                images,
                grouped.0@,
                grouped.1@,
                grouped.2@,
            );
        let (groups, unassigned, leftovers) = grouped;
        let page = ProjectPage {
            title: crate::naming::strip_date_prefix(project.name.as_str()),
            folder_path: dup_string(&project.folder_path),
            offers_move_all: child_seen,
            dates: dates,
            files: files,
            groups: groups,
            unassigned: unassigned,
            leftovers: leftovers,
        };
        proof {
            let ki = k as int;
            assert(0 <= ki < self.projects@.len() && self.projects@[ki].id == pid);
            assert(page.title@ == self.projects@[ki].name@.skip(crate::naming::date_prefix_len(self.projects@[ki].name@) as int));
            assert(0 <= ki < self.projects@.len() && self.projects@[ki].id == pid && (forall|j: int|
                0 <= j < ki ==> (#[trigger] self.projects@[j]).id != pid) && page.title@
                == self.projects@[ki].name@.skip(crate::naming::date_prefix_len(self.projects@[ki].name@) as int)
                && page.folder_path@ == self.projects@[ki].folder_path@);
            assert(page.files@ == reported_files(*self, pid));
            let files = reported_files(*self, pid);
            assert(page.offers_move_all == exists|kk: int|
                0 <= kk < files.len() && (#[trigger] files[kk]).source == crate::model::FileSource::Child);
            assert(dates_increasing(page.dates@));
            assert(forall|d: (i32, u32, u32)| page.dates@.contains(d) <==> is_active_date(files, d));
            assert(crate::grouping::is_grouping(
                files,
                self.settings.extension_rules,
                stems,
                images,
                page.groups@,
                page.unassigned@,
                page.leftovers@,
            ));
        }
        PageView::Project(page)
    }
}

} // verus!
