//! What a scan decides: which files of a project folder are source ("parent") files and under
//! which base name, which files of a relevant directory are iteration output, and which file
//! of a folder is taken as a project's seed.
use vstd::prelude::*;
use crate::index::{opt_string_view, ScannedChildFile, ScannedFile};
use crate::model::ExtensionRules;
use crate::naming::{base_name_of, extension, file_stem, spec_base_name, spec_extension, spec_file_stem};
use crate::text::{chars_eq, chars_of, lower, string_of, to_ascii_lowercase};

verus! {

broadcast use {vstd::seq_lib::group_seq_properties, vstd::seq_lib::group_filter_ensures};

/// The stem of a file name, lower-cased; empty when the name has no stem.
pub open spec fn stem_lower(name: Seq<char>) -> Seq<char> {
    match spec_file_stem(name) {
        Some(s) => lower(s),
        None => Seq::empty(),
    }
}

/// The extension of a file name, lower-cased, if it has one.
pub open spec fn ext_lower(name: Seq<char>) -> Option<Seq<char>> {
    match spec_extension(name) {
        Some(e) => Some(lower(e)),
        None => None,
    }
}

/// The extension of a file name, lower-cased; empty when it has none.
pub open spec fn ext_lower_or_empty(name: Seq<char>) -> Seq<char> {
    match ext_lower(name) {
        Some(e) => e,
        None => Seq::empty(),
    }
}

/// The lower-cased stem of a file name (empty when it has none).
pub fn file_stem_lower(file_name: &str) -> (r: String)
    ensures
        r@ == stem_lower(file_name@),
{
    match file_stem(file_name) {
        Some(s) => to_ascii_lowercase(s.as_str()),
        None => String::new(),
    }
}

/// The lower-cased extension of a file name, if it has one.
pub fn path_ext(file_name: &str) -> (r: Option<String>)
    ensures
        opt_string_view(r) == ext_lower(file_name@),
{
    match extension(file_name) {
        Some(e) => Some(to_ascii_lowercase(e.as_str())),
        None => None,
    }
}

/// The lower-cased extension of a file name; empty when it has none.
pub fn ext_lower_of(file_name: &str) -> (r: String)
    ensures
        r@ == ext_lower_or_empty(file_name@),
{
    match path_ext(file_name) {
        Some(e) => e,
        None => String::new(),
    }
}

/// The stems (lower-cased) of the scanned files whose extension is a child extension only.
pub open spec fn child_only_stems(files: Seq<ScannedFile>, rules: ExtensionRules) -> Seq<Seq<char>> {
    files.filter(|f: ScannedFile| rules.spec_is_child_only(f.ext@)).map_values(|f: ScannedFile| stem_lower(f.file_name@))
}

/// The base name a home file is recorded under: none unless its extension is a parent
/// extension; none as well when the extension is also a child extension and a file with a
/// child-only extension shares its stem (it is then iteration output, not a source);
/// otherwise the base name of its lower-cased stem.
pub open spec fn spec_parent_base_name(
    name: Seq<char>,
    ext: Seq<char>,
    rules: ExtensionRules,
    child_stems: Seq<Seq<char>>,
) -> Option<Seq<char>> {
    if !rules.spec_is_parent(ext) {
        None
    } else if rules.spec_is_child(ext) && child_stems.contains(stem_lower(name)) {
        None
    } else {
        Some(spec_base_name(stem_lower(name)))
    }
}

fn contains_chars(v: &Vec<Vec<char>>, s: &Vec<char>) -> (r: bool)
    ensures
        r == v@.map_values(|k: Vec<char>| k@).contains(s@),
{
    let ghost vv = v@.map_values(|k: Vec<char>| k@);
    for i in 0..v.len()
        invariant
            vv == v@.map_values(|k: Vec<char>| k@),
            forall|j: int| 0 <= j < i ==> #[trigger] vv[j] != s@,
    {
        if chars_eq(&v[i], s) {
            assert(v@.map_values(|k: Vec<char>| k@)[i as int] == s@);
            return true;
        }
    }
    false
}

/// The base name a home file is recorded under (see `spec_parent_base_name`).
pub fn parent_base_name(
    file_name: &str,
    file_ext: &str,
    rules: &ExtensionRules,
    child_stems: &Vec<Vec<char>>,
) -> (r: Option<String>)
    ensures
        opt_string_view(r) == spec_parent_base_name(
            file_name@,
            file_ext@,
            *rules,
            child_stems@.map_values(|k: Vec<char>| k@),
        ),
{
    if !rules.is_parent(file_ext) {
        return None;
    }
    let sl = file_stem_lower(file_name);
    if rules.is_child(file_ext) && contains_chars(child_stems, &chars_of(sl.as_str())) {
        return None;
    }
    Some(base_name_of(sl.as_str()))
}

/// The scanned files of a project folder with their base names filled in (see
/// `spec_parent_base_name`); everything else is kept.
pub fn assign_home_base_names(files: &Vec<ScannedFile>, rules: &ExtensionRules) -> (r: Vec<ScannedFile>)
    ensures
        r@.len() == files@.len(),
        forall|i: int|
            0 <= i < files@.len() ==> {
                let f = #[trigger] files@[i];
                &&& r@[i] == ScannedFile { base_name: r@[i].base_name, ..f }
                &&& opt_string_view(r@[i].base_name) == spec_parent_base_name(
                    f.file_name@,
                    f.ext@,
                    *rules,
                    child_only_stems(files@, *rules),
                )
            },
{
    let ghost pred = |f: ScannedFile| rules.spec_is_child_only(f.ext@);
    let mut stems: Vec<Vec<char>> = Vec::new();
    for i in 0..files.len()
        invariant
            pred == (|f: ScannedFile| rules.spec_is_child_only(f.ext@)),
            stems@.map_values(|k: Vec<char>| k@) == files@.take(i as int).filter(pred).map_values(
                |f: ScannedFile| stem_lower(f.file_name@),
            ),
    {
        proof {
            assert(files@.take(i + 1) == files@.take(i as int).push(files@[i as int]));
            files@.take(i as int).lemma_filter_push(files@[i as int], pred);
        }
        if rules.is_child_only(files[i].ext.as_str()) {
            let ghost old_stems = stems@;
            let sl = file_stem_lower(files[i].file_name.as_str());
            stems.push(chars_of(sl.as_str()));
            assert(stems@.map_values(|k: Vec<char>| k@) =~= old_stems.map_values(|k: Vec<char>| k@).push(
                stem_lower(files@[i as int].file_name@),
            ));
        }
    }
    assert(files@.take(files@.len() as int) == files@);
    let mut out: Vec<ScannedFile> = Vec::new();
    for i in 0..files.len()
        invariant
            stems@.map_values(|k: Vec<char>| k@) == child_only_stems(files@, *rules),
            out@.len() == i,
            forall|j: int|
                0 <= j < i ==> {
                    let f = #[trigger] files@[j];
                    &&& out@[j] == ScannedFile { base_name: out@[j].base_name, ..f }
                    &&& opt_string_view(out@[j].base_name) == spec_parent_base_name(
                        f.file_name@,
                        f.ext@,
                        *rules,
                        child_only_stems(files@, *rules),
                    )
                },
    {
        let f = &files[i];
        let b = parent_base_name(f.file_name.as_str(), f.ext.as_str(), rules, &stems);
        out.push(
            ScannedFile {
                abs_path: f.abs_path.clone(),
                relative_path: f.relative_path.clone(),
                file_name: f.file_name.clone(),
                ext: f.ext.clone(),
                size_bytes: f.size_bytes,
                created_at: f.created_at,
                modified_at: f.modified_at,
                base_name: b,
            },
        );
    }
    out
}

/// A file found in a relevant directory, recorded when its extension is a child extension
/// (its lower-cased extension and the base name of its stem are kept); other files are
/// skipped.
pub fn child_scan_entry(
    abs_path: &str,
    file_name: &str,
    size_bytes: u64,
    created_at: i64,
    modified_at: i64,
    rules: &ExtensionRules,
) -> (r: Option<ScannedChildFile>)
    ensures
        !rules.spec_is_child(ext_lower_or_empty(file_name@)) ==> r is None,
        rules.spec_is_child(ext_lower_or_empty(file_name@)) ==> (r matches Some(c) && {
            &&& c.abs_path@ == abs_path@
            &&& c.file_name@ == file_name@
            &&& c.ext@ == ext_lower_or_empty(file_name@)
            &&& c.base_name@ == spec_base_name(
                match spec_file_stem(file_name@) {
                    Some(s) => s,
                    None => Seq::empty(),
                },
            )
            &&& c.size_bytes == size_bytes
            &&& c.created_at == created_at
            &&& c.modified_at == modified_at
        }),
{
    let ext = ext_lower_of(file_name);
    if !rules.is_child(ext.as_str()) {
        return None;
    }
    let stem = match file_stem(file_name) {
        Some(s) => s,
        None => String::new(),
    };
    Some(
        ScannedChildFile {
            abs_path: string_of(&chars_of(abs_path)),
            file_name: string_of(&chars_of(file_name)),
            base_name: base_name_of(stem.as_str()),
            ext: ext,
            size_bytes: size_bytes,
            created_at: created_at,
            modified_at: modified_at,
        },
    )
}

// ----- seeds ------------------------------------------------------------------------------

/// The extension of `name`, lower-cased, is a parent extension.
pub open spec fn has_parent_ext(name: Seq<char>, rules: ExtensionRules) -> bool {
    match ext_lower(name) {
        Some(e) => rules.spec_is_parent(e),
        None => false,
    }
}

/// The extension of `name`, lower-cased, is a child extension.
pub open spec fn has_child_ext(name: Seq<char>, rules: ExtensionRules) -> bool {
    match ext_lower(name) {
        Some(e) => rules.spec_is_child(e),
        None => false,
    }
}

/// The extension of `name`, lower-cased, is a child extension only.
pub open spec fn has_child_only_ext(name: Seq<char>, rules: ExtensionRules) -> bool {
    match ext_lower(name) {
        Some(e) => rules.spec_is_child_only(e),
        None => false,
    }
}

/// `name` has an extension that is both a parent and a child extension, and a sibling with the
/// same stem has a child-only extension: it is iteration output that only looks like a source.
pub open spec fn spec_masquerading(name: Seq<char>, siblings: Seq<Seq<char>>, rules: ExtensionRules) -> bool {
    &&& has_parent_ext(name, rules)
    &&& has_child_ext(name, rules)
    &&& exists|j: int|
        0 <= j < siblings.len() && spec_file_stem(#[trigger] siblings[j]) == spec_file_stem(name)
            && has_child_only_ext(siblings[j], rules)
}

/// Whether `name`'s lower-cased extension is a parent extension.
pub fn is_parent_ext_path(name: &str, rules: &ExtensionRules) -> (r: bool)
    ensures
        r == has_parent_ext(name@, *rules),
{
    match path_ext(name) {
        Some(e) => rules.is_parent(e.as_str()),
        None => false,
    }
}

fn has_child_ext_exec(name: &str, rules: &ExtensionRules) -> (r: bool)
    ensures
        r == has_child_ext(name@, *rules),
{
    match path_ext(name) {
        Some(e) => rules.is_child(e.as_str()),
        None => false,
    }
}

fn has_child_only_ext_exec(name: &str, rules: &ExtensionRules) -> (r: bool)
    ensures
        r == has_child_only_ext(name@, *rules),
{
    match path_ext(name) {
        Some(e) => rules.is_child_only(e.as_str()),
        None => false,
    }
}

fn opt_chars(o: &Option<String>) -> (r: Option<Vec<char>>)
    ensures
        match r {
            Some(v) => opt_string_view(*o) == Some(v@),
            None => o is None,
        },
{
    match o {
        Some(s) => Some(chars_of(s.as_str())),
        None => None,
    }
}

fn opt_chars_eq(a: &Option<Vec<char>>, b: &Option<Vec<char>>) -> (r: bool)
    ensures
        r == (match (a, b) {
            (Some(x), Some(y)) => x@ == y@,
            (None, None) => true,
            _ => false,
        }),
{
    match (a, b) {
        (Some(x), Some(y)) => chars_eq(x, y),
        (None, None) => true,
        _ => false,
    }
}

/// Whether `name` is iteration output that only looks like a source file (see
/// `spec_masquerading`).
pub fn is_child_masquerading_as_parent(name: &str, siblings: &Vec<String>, rules: &ExtensionRules) -> (r: bool)
    ensures
        r == spec_masquerading(name@, crate::model::strs_view(siblings@), *rules),
{
    if !(is_parent_ext_path(name, rules) && has_child_ext_exec(name, rules)) {
        return false;
    }
    let stem = opt_chars(&file_stem(name));
    let ghost sv = crate::model::strs_view(siblings@);
    for j in 0..siblings.len()
        invariant
            sv == crate::model::strs_view(siblings@),
            has_parent_ext(name@, *rules) && has_child_ext(name@, *rules),
            match stem {
                Some(v) => spec_file_stem(name@) == Some(v@),
                None => spec_file_stem(name@) is None,
            },
            forall|m: int|
                0 <= m < j ==> !(spec_file_stem(#[trigger] sv[m]) == spec_file_stem(name@) && has_child_only_ext(
                    sv[m],
                    *rules,
                )),
    {
        let s = opt_chars(&file_stem(siblings[j].as_str()));
        assert(sv[j as int] == siblings@[j as int]@);
        if opt_chars_eq(&s, &stem) && has_child_only_ext_exec(siblings[j].as_str(), rules) {
            assert(spec_file_stem(sv[j as int]) == spec_file_stem(name@) && has_child_only_ext(sv[j as int], *rules));
            return true;
        }
        assert(!(spec_file_stem(sv[j as int]) == spec_file_stem(name@) && has_child_only_ext(sv[j as int], *rules)));
    }
    false
}

/// Entry `i` may be a folder's seed: it has a parent extension and is not masquerading.
pub open spec fn is_seed_candidate(entries: Seq<Seq<char>>, i: int, rules: ExtensionRules) -> bool {
    0 <= i < entries.len() && has_parent_ext(entries[i], rules) && !spec_masquerading(entries[i], entries, rules)
}

/// The entry taken as a folder's seed: the first candidate whose extension is not also a child
/// extension, or else the first candidate.
pub open spec fn seed_choice(entries: Seq<Seq<char>>, rules: ExtensionRules) -> Option<int> {
    if exists|i: int| is_seed_candidate(entries, i, rules) && !has_child_ext(entries[i], rules) {
        Some(
            choose|i: int|
                is_seed_candidate(entries, i, rules) && !has_child_ext(entries[i], rules) && forall|j: int|
                    0 <= j < i ==> !(is_seed_candidate(entries, j, rules) && !has_child_ext(entries[j], rules)),
        )
    } else if exists|i: int| is_seed_candidate(entries, i, rules) {
        Some(
            choose|i: int|
                is_seed_candidate(entries, i, rules) && forall|j: int| 0 <= j < i ==> !is_seed_candidate(entries, j, rules),
        )
    } else {
        None
    }
}

/// The seed file name and seed base name of a folder whose top-level files are `entries` (see
/// `seed_choice`).
pub open spec fn folder_seed(entries: Seq<Seq<char>>, rules: ExtensionRules) -> (Option<Seq<char>>, Option<Seq<char>>) {
    match seed_choice(entries, rules) {
        Some(i) => (
            Some(entries[i]),
            Some(
                spec_base_name(
                    match spec_file_stem(entries[i]) {
                        Some(s) => s,
                        None => Seq::empty(),
                    },
                ),
            ),
        ),
        None => (None, None),
    }
}

/// The seed of a folder whose top-level files are `entries`: the seed file name and the base
/// name of its stem (see `seed_choice`), or nothing when no entry qualifies.
pub fn seed_from_entries(entries: &Vec<String>, rules: &ExtensionRules) -> (r: (Option<String>, Option<String>))
    ensures
        match seed_choice(crate::model::strs_view(entries@), *rules) {
            Some(i) => is_seed_candidate(crate::model::strs_view(entries@), i, *rules) && opt_string_view(r.0) == Some(entries@[i]@) && opt_string_view(r.1) == Some(
                spec_base_name(
                    match spec_file_stem(entries@[i]@) {
                        Some(s) => s,
                        None => Seq::empty(),
                    },
                ),
            ),
            None => r.0 is None && r.1 is None,
        },
        opt_string_view(r.0) == folder_seed(crate::model::strs_view(entries@), *rules).0,
        opt_string_view(r.1) == folder_seed(crate::model::strs_view(entries@), *rules).1,
{
    let ghost ev = crate::model::strs_view(entries@);
    let mut first_any: Option<usize> = None;
    let mut first_plain: Option<usize> = None;
    for i in 0..entries.len()
        invariant
            ev == crate::model::strs_view(entries@),
            match first_any {
                Some(a) => a < i && is_seed_candidate(ev, a as int, *rules) && forall|j: int|
                    0 <= j < a ==> !is_seed_candidate(ev, j, *rules),
                None => forall|j: int| 0 <= j < i ==> !is_seed_candidate(ev, j, *rules),
            },
            match first_plain {
                Some(a) => a < i && is_seed_candidate(ev, a as int, *rules) && !has_child_ext(ev[a as int], *rules)
                    && forall|j: int| 0 <= j < a ==> !(is_seed_candidate(ev, j, *rules) && !has_child_ext(ev[j], *rules)),
                None => forall|j: int| 0 <= j < i ==> !(is_seed_candidate(ev, j, *rules) && !has_child_ext(ev[j], *rules)),
            },
    {
        let cand = is_parent_ext_path(entries[i].as_str(), rules) && !is_child_masquerading_as_parent(
            entries[i].as_str(),
            entries,
            rules,
        );
        assert(cand == is_seed_candidate(ev, i as int, *rules));
        if cand {
            if first_any.is_none() {
                first_any = Some(i);
            }
            if first_plain.is_none() && !has_child_ext_exec(entries[i].as_str(), rules) {
                first_plain = Some(i);
            }
        }
    }
    let chosen = match first_plain {
        Some(a) => {
            proof {
                let c = choose|i: int|
                    is_seed_candidate(ev, i, *rules) && !has_child_ext(ev[i], *rules) && forall|j: int|
                        0 <= j < i ==> !(is_seed_candidate(ev, j, *rules) && !has_child_ext(ev[j], *rules));
                assert(is_seed_candidate(ev, a as int, *rules) && !has_child_ext(ev[a as int], *rules));
                if c < a {
                } else if c > a {
                }
            }
            Some(a)
        },
        None => {
            match first_any {
                Some(a) => {
                    proof {
                        let c = choose|i: int|
                            is_seed_candidate(ev, i, *rules) && forall|j: int| 0 <= j < i ==> !is_seed_candidate(ev, j, *rules);
                        assert(is_seed_candidate(ev, a as int, *rules));
                        if c < a {
                        } else if c > a {
                        }
                    }
                    Some(a)
                },
                None => None,
            }
        },
    };
    match chosen {
        Some(i) => {
            let name = entries[i].clone();
            let stem = match file_stem(name.as_str()) {
                Some(s) => s,
                None => String::new(),
            };
            (Some(name), Some(base_name_of(stem.as_str())))
        },
        None => (None, None),
    }
}

} // verus!
