//! Grouping a project's file list for display: each source image with the iterations derived
//! from it, iterations whose image is not in the project, and the remaining files.
use vstd::prelude::*;
use crate::index::{arranged, opt_string_view, view_names};
use crate::model::{ExtensionRules, FileSource, ProjectFileView};
use crate::naming::{base_name_of, file_stem_or_name, spec_base_name, stem_or_name};
use crate::order::{is_stable_text_order, stable_text_order};
use crate::text::{chars_eq, chars_lt, chars_of, lemma_text_lt_order, string_of, text_lt};

verus! {

broadcast use {vstd::seq_lib::group_seq_properties, vstd::seq_lib::group_filter_ensures};

/// The files of one iteration: the child files sharing a stem.
#[derive(Debug, Clone)]
pub struct Iteration {
    pub label: String,
    pub files: Vec<ProjectFileView>,
}

/// A source image with the iterations derived from it.
#[derive(Debug, Clone)]
pub struct ImageGroup {
    pub image: ProjectFileView,
    pub iterations: Vec<Iteration>,
}

/// A source image: a home file with a base name.
pub open spec fn is_image_row(f: ProjectFileView) -> bool {
    f.source == FileSource::Home && f.base_name is Some
}

/// The source images, in list order.
pub open spec fn image_rows(files: Seq<ProjectFileView>) -> Seq<ProjectFileView> {
    files.filter(|f: ProjectFileView| is_image_row(f))
}

/// The names of the source images.
pub open spec fn image_names(files: Seq<ProjectFileView>) -> Seq<Seq<char>> {
    view_names(image_rows(files))
}

/// Rows that are not source images (by name) and have a child extension.
pub open spec fn iteration_rows(files: Seq<ProjectFileView>, rules: ExtensionRules) -> Seq<ProjectFileView> {
    files.filter(
        |f: ProjectFileView| !image_names(files).contains(f.file_name@) && rules.spec_is_child(f.ext@),
    )
}

/// Rows that are not source images (by name) and do not have a child extension.
pub open spec fn leftover_rows(files: Seq<ProjectFileView>, rules: ExtensionRules) -> Seq<ProjectFileView> {
    files.filter(
        |f: ProjectFileView| !image_names(files).contains(f.file_name@) && !rules.spec_is_child(f.ext@),
    )
}

/// The stem a row is grouped under.
pub open spec fn row_stem(f: ProjectFileView) -> Seq<char> {
    stem_or_name(f.file_name@)
}

/// `stems` lists the stems of `rows` once each, in ascending order.
pub open spec fn is_stem_list(rows: Seq<ProjectFileView>, stems: Seq<Seq<char>>) -> bool {
    &&& forall|i: int, j: int| 0 <= i < j < stems.len() ==> text_lt(#[trigger] stems[i], #[trigger] stems[j])
    &&& forall|k: Seq<char>|
        #[trigger] stems.contains(k) <==> exists|r: int| 0 <= r < rows.len() && row_stem(#[trigger] rows[r]) == k
}

/// The rows with stem `k`.
pub open spec fn rows_with_stem(rows: Seq<ProjectFileView>, k: Seq<char>) -> Seq<ProjectFileView> {
    rows.filter(|f: ProjectFileView| row_stem(f) == k)
}

/// The extensions of rows, as sort keys.
pub open spec fn view_exts(v: Seq<ProjectFileView>) -> Seq<Seq<char>> {
    v.map_values(|f: ProjectFileView| f.ext@)
}

/// `it` is the iteration of stem `k`: labelled `k`, holding the rows with that stem ordered by
/// extension (rows with the same extension keep their order).
pub open spec fn is_iteration_of(it: Iteration, rows: Seq<ProjectFileView>, k: Seq<char>) -> bool {
    &&& it.label@ == k
    &&& exists|perm: Seq<usize>|
        is_stable_text_order(view_exts(rows_with_stem(rows, k)), perm) && it.files@ == arranged(
            rows_with_stem(rows, k),
            perm,
        )
}

/// `i` is the first image whose base name is the base name of stem `k`.
pub open spec fn is_first_image_for(images: Seq<ProjectFileView>, k: Seq<char>, i: int) -> bool {
    &&& 0 <= i < images.len()
    &&& opt_string_view(images[i].base_name) == Some(spec_base_name(k))
    &&& forall|j: int| 0 <= j < i ==> opt_string_view(#[trigger] images[j].base_name) != Some(spec_base_name(k))
}

/// The image an iteration of stem `k` belongs to, if any.
pub open spec fn assigned_image(images: Seq<ProjectFileView>, k: Seq<char>) -> Option<int> {
    if exists|i: int| is_first_image_for(images, k, i) {
        Some(choose|i: int| is_first_image_for(images, k, i))
    } else {
        None
    }
}

/// `its` are the iterations of `stems`, one for each, in order.
pub open spec fn are_iterations_of(its: Seq<Iteration>, rows: Seq<ProjectFileView>, stems: Seq<Seq<char>>) -> bool {
    &&& its.len() == stems.len()
    &&& forall|m: int| 0 <= m < its.len() ==> is_iteration_of(#[trigger] its[m], rows, stems[m])
}

/// The complete description of a grouping: the images (the groups' images) sorted by name, each with the
/// iterations (in stem order) whose stem's base name is first found among them, the other
/// iterations as unassigned, and the remaining rows in list order.
pub open spec fn is_grouping(
    files: Seq<ProjectFileView>,
    rules: ExtensionRules,
    stems: Seq<Seq<char>>,
    images: Seq<ProjectFileView>,
    groups: Seq<ImageGroup>,
    unassigned: Seq<Iteration>,
    leftovers: Seq<ProjectFileView>,
) -> bool {
    let rows = iteration_rows(files, rules);
    &&& groups.map_values(|g: ImageGroup| g.image) == images
    &&& exists|perm: Seq<usize>|
        is_stable_text_order(view_names(image_rows(files)), perm) && images == arranged(image_rows(files), perm)
    &&& is_stem_list(rows, stems)
    &&& forall|i: int|
        0 <= i < groups.len() ==> are_iterations_of(
            (#[trigger] groups[i]).iterations@,
            rows,
            stems.filter(|k: Seq<char>| assigned_image(images, k) == Some(i)),
        )
    &&& are_iterations_of(unassigned, rows, stems.filter(|k: Seq<char>| assigned_image(images, k) is None))
    &&& leftovers == leftover_rows(files, rules)
}

impl Iteration {
    /// A copy of this iteration.
    pub fn duplicate(&self) -> (r: Iteration)
        ensures
            r.label == self.label,
            r.files@ == self.files@,
    {
        let mut files: Vec<ProjectFileView> = Vec::new();
        for i in 0..self.files.len()
            invariant
                files@ == self.files@.take(i as int),
        {
            files.push(self.files[i].duplicate());
            assert(self.files@.take(i + 1) == self.files@.take(i as int).push(self.files@[i as int]));
        }
        assert(self.files@.take(self.files@.len() as int) == self.files@);
        Iteration { label: self.label.clone(), files }
    }
}

fn contains_name(names: &Vec<Vec<char>>, n: &Vec<char>) -> (r: bool)
    ensures
        r == names@.map_values(|k: Vec<char>| k@).contains(n@),
{
    let ghost nv = names@.map_values(|k: Vec<char>| k@);
    for i in 0..names.len()
        invariant
            nv == names@.map_values(|k: Vec<char>| k@),
            forall|j: int| 0 <= j < i ==> #[trigger] nv[j] != n@,
    {
        if chars_eq(&names[i], n) {
            assert(nv[i as int] == n@);
            return true;
        }
    }
    false
}

fn ext_keys(v: &Vec<ProjectFileView>) -> (r: Vec<Vec<char>>)
    ensures
        r@.map_values(|k: Vec<char>| k@) == view_exts(v@),
{
    let mut r: Vec<Vec<char>> = Vec::new();
    for i in 0..v.len()
        invariant
            r@.map_values(|k: Vec<char>| k@) == view_exts(v@).take(i as int),
    {
        let ghost old_r = r@;
        r.push(chars_of(v[i].ext.as_str()));
        assert(r@.map_values(|k: Vec<char>| k@) =~= old_r.map_values(|k: Vec<char>| k@).push(v@[i as int].ext@));
        assert(view_exts(v@).take(i + 1) =~= view_exts(v@).take(i as int).push(v@[i as int].ext@));
    }
    assert(view_exts(v@).take(v@.len() as int) =~= view_exts(v@));
    r
}

fn name_keys(v: &Vec<ProjectFileView>) -> (r: Vec<Vec<char>>)
    ensures
        r@.map_values(|k: Vec<char>| k@) == view_names(v@),
{
    let mut r: Vec<Vec<char>> = Vec::new();
    for i in 0..v.len()
        invariant
            r@.map_values(|k: Vec<char>| k@) == view_names(v@).take(i as int),
    {
        let ghost old_r = r@;
        r.push(chars_of(v[i].file_name.as_str()));
        assert(r@.map_values(|k: Vec<char>| k@) =~= old_r.map_values(|k: Vec<char>| k@).push(v@[i as int].file_name@));
        assert(view_names(v@).take(i + 1) =~= view_names(v@).take(i as int).push(v@[i as int].file_name@));
    }
    assert(view_names(v@).take(v@.len() as int) =~= view_names(v@));
    r
}

fn arrange(src: &Vec<ProjectFileView>, perm: &Vec<usize>) -> (r: Vec<ProjectFileView>)
    requires
        forall|i: int| 0 <= i < perm@.len() ==> #[trigger] perm@[i] < src@.len(),
    ensures
        r@ == arranged(src@, perm@),
{
    let mut r: Vec<ProjectFileView> = Vec::new();
    for i in 0..perm.len()
        invariant
            forall|i: int| 0 <= i < perm@.len() ==> #[trigger] perm@[i] < src@.len(),
            r@ == arranged(src@, perm@).take(i as int),
    {
        r.push(src[perm[i]].duplicate());
        assert(arranged(src@, perm@).take(i + 1) =~= arranged(src@, perm@).take(i as int).push(src@[perm@[i as int] as int]));
    }
    assert(arranged(src@, perm@).take(perm@.len() as int) =~= arranged(src@, perm@));
    r
}

/// Adds stem `k` to a strictly ascending list of stems unless it is there already.
fn insert_stem(stems: &mut Vec<Vec<char>>, k: Vec<char>)
    requires
        forall|i: int, j: int|
            0 <= i < j < old(stems)@.len() ==> text_lt(#[trigger] old(stems)@[i]@, #[trigger] old(stems)@[j]@),
    ensures
        forall|i: int, j: int|
            0 <= i < j < final(stems)@.len() ==> text_lt(#[trigger] final(stems)@[i]@, #[trigger] final(stems)@[j]@),
        final(stems)@.map_values(|v: Vec<char>| v@).to_set() == old(stems)@.map_values(|v: Vec<char>| v@).to_set().insert(k@),
{
    let ghost ks = k@;
    let mut pos: usize = 0;
    while pos < stems.len() && chars_lt(&stems[pos], &k)
        invariant
            pos <= stems@.len(),
            k@ == ks,
            forall|i: int, j: int| 0 <= i < j < stems@.len() ==> text_lt(#[trigger] stems@[i]@, #[trigger] stems@[j]@),
            forall|m: int| 0 <= m < pos ==> text_lt(#[trigger] stems@[m]@, ks),
        decreases stems@.len() - pos,
    {
        pos = pos + 1;
    }
    let ghost before = stems@.map_values(|v: Vec<char>| v@);
    if pos < stems.len() && chars_eq(&stems[pos], &k) {
        assert(before[pos as int] == ks);
        assert(before.to_set().insert(ks) =~= before.to_set());
        return;
    }
    let ghost old_stems = stems@;
    if pos < stems.len() {
        proof {
            lemma_text_lt_order(ks, stems@[pos as int]@, ks);
        }
    }
    stems.insert(pos, k);
    assert forall|i: int, j: int| 0 <= i < j < stems@.len() implies text_lt(#[trigger] stems@[i]@, #[trigger] stems@[j]@) by {
        let p = pos as int;
        if i < p && j < p {
            assert(stems@[i] == old_stems[i] && stems@[j] == old_stems[j]);
        } else if i < p && j == p {
            assert(stems@[i] == old_stems[i]);
        } else if i < p {
            assert(stems@[i] == old_stems[i] && stems@[j] == old_stems[j - 1]);
        } else if i == p {
            assert(stems@[j] == old_stems[j - 1]);
            lemma_text_lt_order(ks, old_stems[p]@, old_stems[j - 1]@);
            if j - 1 > p {
                assert(text_lt(old_stems[p]@, old_stems[j - 1]@));
            }
        } else {
            assert(stems@[i] == old_stems[i - 1] && stems@[j] == old_stems[j - 1]);
        }
    }
    let ghost after = stems@.map_values(|v: Vec<char>| v@);
    assert(after =~= before.insert(pos as int, ks));
    assert(after.to_set() =~= before.to_set().insert(ks)) by {
        assert forall|x: Seq<char>| after.to_set().contains(x) implies before.to_set().insert(ks).contains(x) by {
            let i = choose|i: int| 0 <= i < after.len() && after[i] == x;
            if i < pos {
                assert(before[i] == x);
            } else if i > pos {
                assert(before[i - 1] == x);
            }
        }
        assert forall|x: Seq<char>| before.to_set().insert(ks).contains(x) implies after.to_set().contains(x) by {
            if x == ks {
                assert(after[pos as int] == x);
            } else {
                let i = choose|i: int| 0 <= i < before.len() && before[i] == x;
                if i < pos {
                    assert(after[i] == x);
                } else {
                    assert(after[i + 1] == x);
                }
            }
        }
    }
}


/// The view of an optional index.
pub open spec fn opt_index(o: Option<usize>) -> Option<int> {
    match o {
        Some(i) => Some(i as int),
        None => None,
    }
}

/// The first image whose base name is the base name of stem `k` (see `assigned_image`).
fn first_image_for(images: &Vec<ProjectFileView>, k: &Vec<char>) -> (r: Option<usize>)
    ensures
        opt_index(r) == assigned_image(images@, k@),
{
    let label = string_of(k);
    let base = base_name_of(label.as_str());
    for j in 0..images.len()
        invariant
            base@ == spec_base_name(k@),
            forall|m: int| 0 <= m < j ==> opt_string_view(#[trigger] images@[m].base_name) != Some(spec_base_name(k@)),
    {
        let hit = match &images[j].base_name {
            Some(b) => *b == base,
            None => false,
        };
        if hit {
            assert(is_first_image_for(images@, k@, j as int));
            proof {
                let c = choose|i: int| is_first_image_for(images@, k@, i);
                if c < j {
                } else if c > j {
                    assert(opt_string_view(images@[j as int].base_name) != Some(spec_base_name(k@)));
                }
            }
            return Some(j);
        }
    }
    assert forall|i: int| !is_first_image_for(images@, k@, i) by {
        if is_first_image_for(images@, k@, i) {
            assert(opt_string_view(images@[i].base_name) == Some(spec_base_name(k@)));
        }
    }
    None
}

/// The rows with stem `k`, in list order.
fn select_stem(rows: &Vec<ProjectFileView>, k: &Vec<char>) -> (r: Vec<ProjectFileView>)
    ensures
        r@ == rows_with_stem(rows@, k@),
{
    let ghost pred = |f: ProjectFileView| row_stem(f) == k@;
    let mut out: Vec<ProjectFileView> = Vec::new();
    for i in 0..rows.len()
        invariant
            pred == (|f: ProjectFileView| row_stem(f) == k@),
            out@ == rows@.take(i as int).filter(pred),
    {
        proof {
            assert(rows@.take(i + 1) == rows@.take(i as int).push(rows@[i as int]));
            rows@.take(i as int).lemma_filter_push(rows@[i as int], pred);
        }
        let st = chars_of(file_stem_or_name(rows[i].file_name.as_str()).as_str());
        if chars_eq(&st, k) {
            out.push(rows[i].duplicate());
        }
    }
    assert(rows@.take(rows@.len() as int) == rows@);
    out
}

/// The iterations among `iters` whose assigned image is `target`, in order.
fn collect_iterations(iters: &Vec<Iteration>, assign: &Vec<Option<usize>>, target: Option<usize>, rows: Ghost<Seq<ProjectFileView>>, stems: Ghost<Seq<Seq<char>>>, images: Ghost<Seq<ProjectFileView>>) -> (r: Vec<Iteration>)
    requires
        iters@.len() == stems@.len(),
        assign@.len() == stems@.len(),
        forall|m: int| 0 <= m < iters@.len() ==> is_iteration_of(#[trigger] iters@[m], rows@, stems@[m]),
        forall|m: int| 0 <= m < assign@.len() ==> opt_index(#[trigger] assign@[m]) == assigned_image(images@, stems@[m]),
    ensures
        are_iterations_of(r@, rows@, stems@.filter(|k: Seq<char>| assigned_image(images@, k) == opt_index(target))),
{
    let ghost pred = |k: Seq<char>| assigned_image(images@, k) == opt_index(target);
    let mut out: Vec<Iteration> = Vec::new();
    for t in 0..iters.len()
        invariant
            iters@.len() == stems@.len(),
            assign@.len() == stems@.len(),
            forall|m: int| 0 <= m < iters@.len() ==> is_iteration_of(#[trigger] iters@[m], rows@, stems@[m]),
            forall|m: int| 0 <= m < assign@.len() ==> opt_index(#[trigger] assign@[m]) == assigned_image(images@, stems@[m]),
            pred == (|k: Seq<char>| assigned_image(images@, k) == opt_index(target)),
            are_iterations_of(out@, rows@, stems@.take(t as int).filter(pred)),
    {
        proof {
            assert(stems@.take(t + 1) == stems@.take(t as int).push(stems@[t as int]));
            stems@.take(t as int).lemma_filter_push(stems@[t as int], pred);
        }
        let hit = match (assign[t], target) {
            (Some(a), Some(b)) => a == b,
            (None, None) => true,
            _ => false,
        };
        assert(hit == pred(stems@[t as int])) by {
            assert(opt_index(assign@[t as int]) == assigned_image(images@, stems@[t as int]));
        }
        if hit {
            let it = iters[t].duplicate();
            assert(is_iteration_of(iters@[t as int], rows@, stems@[t as int]));
            let ghost old_out = out@;
            out.push(it);
            assert forall|m: int| 0 <= m < out@.len() implies is_iteration_of(#[trigger] out@[m], rows@, stems@.take(t + 1).filter(pred)[m]) by {
                if m < old_out.len() {
                    assert(out@[m] == old_out[m]);
                }
            }
        }
    }
    assert(stems@.take(iters@.len() as int) == stems@);
    out
}

/// Groups a project's file list for display (see `is_grouping`): each source image (a home
/// file with a base name), sorted by name, with the iterations derived from it; the
/// iterations whose base name matches no image; and the other files.
pub fn group_files(files: &Vec<ProjectFileView>, rules: &ExtensionRules) -> (r: (Vec<ImageGroup>, Vec<Iteration>, Vec<ProjectFileView>))
    ensures
        exists|stems: Seq<Seq<char>>, images: Seq<ProjectFileView>|
            is_grouping(files@, *rules, stems, images, r.0@, r.1@, r.2@),
{
    // the source images, sorted by name
    let ghost ipred = |f: ProjectFileView| is_image_row(f);
    let mut imgs: Vec<ProjectFileView> = Vec::new();
    for i in 0..files.len()
        invariant
            ipred == (|f: ProjectFileView| is_image_row(f)),
            imgs@ == files@.take(i as int).filter(ipred),
    {
        proof {
            assert(files@.take(i + 1) == files@.take(i as int).push(files@[i as int]));
            files@.take(i as int).lemma_filter_push(files@[i as int], ipred);
        }
        if files[i].source == FileSource::Home && files[i].base_name.is_some() {
            imgs.push(files[i].duplicate());
        }
    }
    assert(files@.take(files@.len() as int) == files@);
    assert(imgs@ == image_rows(files@));
    let names = name_keys(&imgs);
    let perm = stable_text_order(&names);
    let images = arrange(&imgs, &perm);
    let ghost nv = names@.map_values(|k: Vec<char>| k@);
    assert(nv == image_names(files@));

    // the other rows: iteration output and leftovers
    let ghost rpred = |f: ProjectFileView| !image_names(files@).contains(f.file_name@) && rules.spec_is_child(f.ext@);
    let ghost lpred = |f: ProjectFileView| !image_names(files@).contains(f.file_name@) && !rules.spec_is_child(f.ext@);
    let mut rows: Vec<ProjectFileView> = Vec::new();
    let mut leftovers: Vec<ProjectFileView> = Vec::new();
    for i in 0..files.len()
        invariant
            nv == names@.map_values(|k: Vec<char>| k@),
            nv == image_names(files@),
            rpred == (|f: ProjectFileView| !image_names(files@).contains(f.file_name@) && rules.spec_is_child(f.ext@)),
            lpred == (|f: ProjectFileView| !image_names(files@).contains(f.file_name@) && !rules.spec_is_child(f.ext@)),
            rows@ == files@.take(i as int).filter(rpred),
            leftovers@ == files@.take(i as int).filter(lpred),
    {
        proof {
            assert(files@.take(i + 1) == files@.take(i as int).push(files@[i as int]));
            files@.take(i as int).lemma_filter_push(files@[i as int], rpred);
            files@.take(i as int).lemma_filter_push(files@[i as int], lpred);
        }
        let is_image = contains_name(&names, &chars_of(files[i].file_name.as_str()));
        if !is_image {
            if rules.is_child(files[i].ext.as_str()) {
                rows.push(files[i].duplicate());
            } else {
                leftovers.push(files[i].duplicate());
            }
        }
    }
    assert(rows@ == iteration_rows(files@, *rules));
    assert(leftovers@ == leftover_rows(files@, *rules));

    // the stems of the iteration rows, ascending
    let mut stems: Vec<Vec<char>> = Vec::new();
    for i in 0..rows.len()
        invariant
            forall|a: int, b: int| 0 <= a < b < stems@.len() ==> text_lt(#[trigger] stems@[a]@, #[trigger] stems@[b]@),
            stems@.map_values(|v: Vec<char>| v@).to_set() == rows@.take(i as int).map_values(|f: ProjectFileView| row_stem(f)).to_set(),
    {
        let st = chars_of(file_stem_or_name(rows[i].file_name.as_str()).as_str());
        insert_stem(&mut stems, st);
        assert(rows@.take(i + 1).map_values(|f: ProjectFileView| row_stem(f)) =~= rows@.take(i as int).map_values(
            |f: ProjectFileView| row_stem(f),
        ).push(row_stem(rows@[i as int])));
        proof {
            rows@.take(i as int).map_values(|f: ProjectFileView| row_stem(f)).lemma_push_to_set_commute(row_stem(rows@[i as int]));
        }
    }
    assert(rows@.take(rows@.len() as int) == rows@);
    let ghost sv = stems@.map_values(|v: Vec<char>| v@);
    assert(is_stem_list(rows@, sv)) by {
        let rs = rows@.map_values(|f: ProjectFileView| row_stem(f));
        assert forall|k: Seq<char>| #[trigger] sv.contains(k) <==> exists|r: int| 0 <= r < rows@.len() && row_stem(#[trigger] rows@[r]) == k by {
            if sv.contains(k) {
                assert(sv.to_set().contains(k));
                assert(rs.to_set().contains(k));
                let r = choose|r: int| 0 <= r < rs.len() && rs[r] == k;
                assert(row_stem(rows@[r]) == k);
            }
            if exists|r: int| 0 <= r < rows@.len() && row_stem(#[trigger] rows@[r]) == k {
                let r = choose|r: int| 0 <= r < rows@.len() && row_stem(#[trigger] rows@[r]) == k;
                assert(rs[r] == k);
                assert(rs.to_set().contains(k));
                assert(sv.to_set().contains(k));
            }
        }
        assert forall|a: int, b: int| 0 <= a < b < sv.len() implies text_lt(#[trigger] sv[a], #[trigger] sv[b]) by {
            assert(sv[a] == stems@[a]@ && sv[b] == stems@[b]@);
        }
    }

    // one iteration per stem, with the image it belongs to
    let mut iters: Vec<Iteration> = Vec::new();
    let mut assign: Vec<Option<usize>> = Vec::new();
    for t in 0..stems.len()
        invariant
            sv == stems@.map_values(|v: Vec<char>| v@),
            iters@.len() == t,
            assign@.len() == t,
            forall|m: int| 0 <= m < t ==> is_iteration_of(#[trigger] iters@[m], rows@, sv[m]),
            forall|m: int| 0 <= m < t ==> opt_index(#[trigger] assign@[m]) == assigned_image(images@, sv[m]),
    {
        let sel = select_stem(&rows, &stems[t]);
        let keys = ext_keys(&sel);
        let p = stable_text_order(&keys);
        let grouped = arrange(&sel, &p);
        let it = Iteration { label: string_of(&stems[t]), files: grouped };
        assert(is_iteration_of(it, rows@, sv[t as int]));
        let a = first_image_for(&images, &stems[t]);
        let ghost old_iters = iters@;
        let ghost old_assign = assign@;
        iters.push(it);
        assign.push(a);
        assert forall|m: int| 0 <= m < t + 1 implies is_iteration_of(#[trigger] iters@[m], rows@, sv[m]) by {
            if m < t {
                assert(iters@[m] == old_iters[m]);
            }
        }
        assert forall|m: int| 0 <= m < t + 1 implies opt_index(#[trigger] assign@[m]) == assigned_image(images@, sv[m]) by {
            if m < t {
                assert(assign@[m] == old_assign[m]);
            }
        }
    }

    // the images with their iterations, and the unassigned iterations
    let mut groups: Vec<ImageGroup> = Vec::new();
    for i in 0..images.len()
        invariant
            iters@.len() == sv.len(),
            assign@.len() == sv.len(),
            forall|m: int| 0 <= m < iters@.len() ==> is_iteration_of(#[trigger] iters@[m], rows@, sv[m]),
            forall|m: int| 0 <= m < assign@.len() ==> opt_index(#[trigger] assign@[m]) == assigned_image(images@, sv[m]),
            groups@.len() == i,
            forall|g: int| 0 <= g < i ==> (#[trigger] groups@[g]).image == images@[g],
            forall|g: int|
                0 <= g < i ==> are_iterations_of(
                    (#[trigger] groups@[g]).iterations@,
                    rows@,
                    sv.filter(|k: Seq<char>| assigned_image(images@, k) == Some(g)),
                ),
    {
        let its = collect_iterations(&iters, &assign, Some(i), Ghost(rows@), Ghost(sv), Ghost(images@));
        assert(opt_index(Some(i)) == Some(i as int));
        let ghost old_groups = groups@;
        groups.push(ImageGroup { image: images[i].duplicate(), iterations: its });
        assert forall|g: int| 0 <= g < i + 1 implies are_iterations_of(
            (#[trigger] groups@[g]).iterations@,
            rows@,
            sv.filter(|k: Seq<char>| assigned_image(images@, k) == Some(g)),
        ) by {
            if g < i {
                assert(groups@[g] == old_groups[g]);
            }
        }
        assert forall|g: int| 0 <= g < i + 1 implies (#[trigger] groups@[g]).image == images@[g] by {
            if g < i {
                assert(groups@[g] == old_groups[g]);
            }
        }
    }
    let unassigned = collect_iterations(&iters, &assign, None, Ghost(rows@), Ghost(sv), Ghost(images@));
    proof {
        let f1 = |k: Seq<char>| assigned_image(images@, k) == opt_index(None::<usize>);
        let f2 = |k: Seq<char>| assigned_image(images@, k) is None;
        assert(f1 =~= f2);
        assert(sv.filter(f1) == sv.filter(f2));
    }
    assert(groups@.map_values(|g: ImageGroup| g.image) =~= images@);
    assert(is_stable_text_order(view_names(image_rows(files@)), perm@) && images@ == arranged(image_rows(files@), perm@));
    assert(is_grouping(files@, *rules, sv, images@, groups@, unassigned@, leftovers@));
    let r = (groups, unassigned, leftovers);
    assert(is_grouping(files@, *rules, sv, images@, r.0@, r.1@, r.2@));
    r
}

proof fn lemma_arranged_contains<T>(src: Seq<T>, perm: Seq<usize>, a: int)
    requires
        crate::order::is_index_permutation(perm, src.len()),
        0 <= a < src.len(),
        src.len() <= usize::MAX,
    ensures
        arranged(src, perm).contains(src[a]),
{
    assert(perm.contains(a as usize));
    let q = choose|q: int| 0 <= q < perm.len() && perm[q] == a as usize;
    assert(arranged(src, perm)[q] == src[a]);
}

proof fn lemma_arranged_members<T>(src: Seq<T>, perm: Seq<usize>, x: T)
    requires
        crate::order::is_index_permutation(perm, src.len()),
        arranged(src, perm).contains(x),
    ensures
        src.contains(x),
{
    let q = choose|q: int| 0 <= q < arranged(src, perm).len() && arranged(src, perm)[q] == x;
    assert(perm[q] < src.len());
    assert(src[perm[q] as int] == x);
}

/// A row is in an iteration of stem `k` exactly when it is one of the iteration rows with stem
/// `k`.
proof fn lemma_iteration_members(it: Iteration, rows: Seq<ProjectFileView>, k: Seq<char>, f: ProjectFileView)
    requires
        is_iteration_of(it, rows, k),
        rows.len() <= usize::MAX,
    ensures
        it.files@.contains(f) <==> (rows.contains(f) && row_stem(f) == k),
{
    let perm = choose|perm: Seq<usize>|
        is_stable_text_order(view_exts(rows_with_stem(rows, k)), perm) && it.files@ == arranged(rows_with_stem(rows, k), perm);
    let sel = rows_with_stem(rows, k);
    let pred = |g: ProjectFileView| row_stem(g) == k;
    assert(view_exts(sel).len() == sel.len());
    if it.files@.contains(f) {
        lemma_arranged_members(sel, perm, f);
        let a = choose|a: int| 0 <= a < sel.len() && sel[a] == f;
        assert(pred(sel[a]));
        rows.lemma_filter_contains_rev(pred, f);
    }
    if rows.contains(f) && row_stem(f) == k {
        let r = choose|r: int| 0 <= r < rows.len() && rows[r] == f;
        assert(pred(rows[r]));
        assert(sel.contains(f));
        let a = choose|a: int| 0 <= a < sel.len() && sel[a] == f;
        lemma_arranged_contains(sel, perm, a);
    }
}

/// In a grouping of `files`, each row that is not a source image by name lands in its place:
/// a row with a child extension is in the iteration labelled with its stem, which sits under
/// the first image whose base name is the stem's base name (or among the unassigned iterations
/// when there is none), and every iteration holding the row is labelled with that stem; any
/// other row is a leftover.
pub proof fn law_grouping_places_each_row(
    files: Seq<ProjectFileView>,
    rules: ExtensionRules,
    stems: Seq<Seq<char>>,
    images: Seq<ProjectFileView>,
    groups: Seq<ImageGroup>,
    unassigned: Seq<Iteration>,
    leftovers: Seq<ProjectFileView>,
    r: int,
)
    requires
        is_grouping(files, rules, stems, images, groups, unassigned, leftovers),
        files.len() <= usize::MAX,
        0 <= r < files.len(),
        !image_names(files).contains(files[r].file_name@),
    ensures
        rules.spec_is_child(files[r].ext@) ==> match assigned_image(images, row_stem(files[r])) {
            Some(i) => 0 <= i < groups.len() && exists|m: int|
                0 <= m < groups[i].iterations@.len() && (#[trigger] groups[i].iterations@[m]).label@ == row_stem(files[r])
                    && groups[i].iterations@[m].files@.contains(files[r]),
            None => exists|m: int|
                0 <= m < unassigned.len() && (#[trigger] unassigned[m]).label@ == row_stem(files[r])
                    && unassigned[m].files@.contains(files[r]),
        },
        forall|i: int, m: int|
            0 <= i < groups.len() && 0 <= m < groups[i].iterations@.len() && (#[trigger] groups[i].iterations@[m]).files@.contains(
                files[r],
            ) ==> groups[i].iterations@[m].label@ == row_stem(files[r]),
        forall|m: int|
            0 <= m < unassigned.len() && (#[trigger] unassigned[m]).files@.contains(files[r]) ==> unassigned[m].label@
                == row_stem(files[r]),
        !rules.spec_is_child(files[r].ext@) ==> leftovers.contains(files[r]),
{
    let f = files[r];
    let rows = iteration_rows(files, rules);
    let k = row_stem(f);
    let ipred = |g: ProjectFileView| !image_names(files).contains(g.file_name@) && rules.spec_is_child(g.ext@);
    let lpred = |g: ProjectFileView| !image_names(files).contains(g.file_name@) && !rules.spec_is_child(g.ext@);
    assert(rows.len() <= files.len());
    assert(groups.map_values(|g: ImageGroup| g.image) == images);
    assert(groups.len() == images.len());
    if rules.spec_is_child(f.ext@) {
        assert(ipred(files[r]));
        assert(rows.contains(f));
        let rr = choose|x: int| 0 <= x < rows.len() && rows[x] == f;
        assert(row_stem(rows[rr]) == k);
        assert(stems.contains(k));
        match assigned_image(images, k) {
            Some(i) => {
                let sel = stems.filter(|kk: Seq<char>| assigned_image(images, kk) == Some(i));
                let spred = |kk: Seq<char>| assigned_image(images, kk) == Some(i);
                let t = choose|t: int| 0 <= t < stems.len() && stems[t] == k;
                assert(spred(stems[t]));
                assert(sel.contains(k));
                let m = choose|m: int| 0 <= m < sel.len() && sel[m] == k;
                let wi = choose|x: int| is_first_image_for(images, k, x);
                assert(0 <= i < groups.len());
                assert(are_iterations_of(groups[i].iterations@, rows, sel));
                assert(is_iteration_of(groups[i].iterations@[m], rows, sel[m]));
                lemma_iteration_members(groups[i].iterations@[m], rows, k, f);
            },
            None => {
                let sel = stems.filter(|kk: Seq<char>| assigned_image(images, kk) is None);
                let spred = |kk: Seq<char>| assigned_image(images, kk) is None;
                let t = choose|t: int| 0 <= t < stems.len() && stems[t] == k;
                assert(spred(stems[t]));
                assert(sel.contains(k));
                let m = choose|m: int| 0 <= m < sel.len() && sel[m] == k;
                assert(is_iteration_of(unassigned[m], rows, sel[m]));
                lemma_iteration_members(unassigned[m], rows, k, f);
            },
        }
    } else {
        assert(lpred(files[r]));
        assert(leftovers == leftover_rows(files, rules));
    }
    assert forall|i: int, m: int|
        0 <= i < groups.len() && 0 <= m < groups[i].iterations@.len() && (#[trigger] groups[i].iterations@[m]).files@.contains(
            f,
        ) implies groups[i].iterations@[m].label@ == k by {
        let sel = stems.filter(|kk: Seq<char>| assigned_image(images, kk) == Some(i));
        assert(are_iterations_of(groups[i].iterations@, rows, sel));
        assert(is_iteration_of(groups[i].iterations@[m], rows, sel[m]));
        lemma_iteration_members(groups[i].iterations@[m], rows, sel[m], f);
    }
    assert forall|m: int| 0 <= m < unassigned.len() && (#[trigger] unassigned[m]).files@.contains(f) implies unassigned[m].label@
        == k by {
        let sel = stems.filter(|kk: Seq<char>| assigned_image(images, kk) is None);
        assert(is_iteration_of(unassigned[m], rows, sel[m]));
        lemma_iteration_members(unassigned[m], rows, sel[m], f);
    }
}

} // verus!
