//! The snapshot lifecycle: which baseline images no test produces any more,
//! which files to remove, and what cleaning a directory removes.
use crate::listing::{image_names, string_views};
use crate::names::{has_image_extension, join, join_path, same_name};
use crate::pair::{insert_name, lemma_is_sorted_names, sorted_names, strictly_sorted};
use vstd::prelude::*;

verus! {

/// The names of dead snapshots: in the baseline listing and not among the
/// freshly generated current images.
pub open spec fn dead_names(current: Seq<Seq<char>>, snapshots: Seq<Seq<char>>) -> Set<Seq<char>> {
    Set::new(|n: Seq<char>| snapshots.contains(n) && !current.contains(n))
}

/// The paths of `names` joined onto `dir`, in their order.
pub open spec fn paths_in(dir: Seq<char>, names: Seq<Seq<char>>) -> Seq<Seq<char>> {
    names.map_values(|n: Seq<char>| join_path(dir, n))
}

/// Whether `names` holds `name`.
fn holds_name(names: &Vec<String>, name: &str) -> (r: bool)
    ensures
        r == string_views(names@).contains(name@),
{
    let mut i: usize = 0;
    while i < names.len()
        invariant
            i <= names.len(),
            forall|k: int| 0 <= k < i ==> #[trigger] names@[k]@ != name@,
        decreases names.len() - i,
    {
        if same_name(names[i].as_str(), name) {
            assert(string_views(names@)[i as int] == name@);
            return true;
        }
        i = i + 1;
    }
    assert forall|k: int| 0 <= k < names@.len() implies string_views(names@)[k] != name@ by {
        assert(names@[k]@ != name@);
    }
    false
}

/// The names of the dead snapshots, in increasing order and each once.
pub fn dead_snapshot_names(current_names: &Vec<String>, snapshot_names: &Vec<String>) -> (r: Vec<
    String,
>)
    ensures
        string_views(r@) == sorted_names(
            dead_names(string_views(current_names@), string_views(snapshot_names@)),
        ),
{
    let ghost cur = string_views(current_names@);
    let ghost snaps = string_views(snapshot_names@);
    let mut out: Vec<String> = Vec::new();
    let mut i: usize = 0;
    while i < snapshot_names.len()
        invariant
            i <= snapshot_names.len(),
            cur == string_views(current_names@),
            snaps == string_views(snapshot_names@),
            strictly_sorted(string_views(out@)),
            string_views(out@).to_set() == dead_names(cur, snaps.take(i as int)),
        decreases snapshot_names.len() - i,
    {
        let name = &snapshot_names[i];
        let ghost before = snaps.take(i as int);
        assert(snaps.take(i + 1) =~= before.push(name@));
        assert forall|n: Seq<char>| #[trigger] before.push(name@).contains(n) <==> (before.contains(n)
            || n == name@) by {
            let p = before.push(name@);
            if p.contains(n) {
                let k = choose|k: int| 0 <= k < p.len() && #[trigger] p[k] == n;
                if k < before.len() {
                    assert(before[k] == n);
                }
            }
            if before.contains(n) {
                let k = choose|k: int| 0 <= k < before.len() && #[trigger] before[k] == n;
                assert(p[k] == n);
            }
            if n == name@ {
                assert(p[before.len() as int] == n);
            }
        }
        if !holds_name(current_names, name.as_str()) {
            insert_name(&mut out, name.clone());
        }
        assert(string_views(out@).to_set() =~= dead_names(cur, snaps.take(i + 1)));
        i = i + 1;
    }
    assert(snaps.take(snapshot_names.len() as int) =~= snaps);
    proof {
        lemma_is_sorted_names(string_views(out@), dead_names(cur, snaps));
    }
    out
}

/// Joins each name onto `dir`, in order.
pub fn join_all(dir: &str, names: &Vec<String>) -> (r: Vec<String>)
    ensures
        string_views(r@) == paths_in(dir@, string_views(names@)),
{
    let mut out: Vec<String> = Vec::new();
    let mut i: usize = 0;
    while i < names.len()
        invariant
            i <= names.len(),
            string_views(out@) == paths_in(dir@, string_views(names@).take(i as int)),
        decreases names.len() - i,
    {
        let path = join(dir, names[i].as_str());
        let ghost before = out@;
        out.push(path);
        assert(string_views(out@) =~= string_views(before).push(path@));
        assert(string_views(names@).take(i + 1) =~= string_views(names@).take(i as int).push(
            names@[i as int]@,
        ));
        assert(paths_in(dir@, string_views(names@).take(i + 1)) =~= paths_in(
            dir@,
            string_views(names@).take(i as int),
        ).push(join_path(dir@, names@[i as int]@)));
        i = i + 1;
    }
    assert(string_views(names@).take(names.len() as int) =~= string_views(names@));
    out
}

/// The dead snapshots, reported as paths under the current directory: the
/// baseline names that no freshly generated current image has, in increasing
/// order and each once.
pub fn find_dead_snapshots(
    current_path: &str,
    current_names: &Vec<String>,
    snapshot_names: &Vec<String>,
) -> (r: Vec<String>)
    ensures
        string_views(r@) == paths_in(
            current_path@,
            sorted_names(dead_names(string_views(current_names@), string_views(snapshot_names@))),
        ),
{
    let names = dead_snapshot_names(current_names, snapshot_names);
    join_all(current_path, &names)
}

/// The baseline files to delete for the dead snapshots `dead_names`: each of
/// them in the snapshot directory where removal was asked for, none otherwise.
pub fn snapshot_removals(snapshot_path: &str, dead_names: &Vec<String>, remove_files: bool) -> (r:
    Vec<String>)
    ensures
        remove_files ==> string_views(r@) == paths_in(snapshot_path@, string_views(dead_names@)),
        !remove_files ==> r@.len() == 0,
{
    if remove_files {
        join_all(snapshot_path, dead_names)
    } else {
        Vec::new()
    }
}

/// The paths of the image files among the entries of the directory `dir`, in
/// their order.
pub fn list_image_dir(dir: &str, entries: &Vec<String>) -> (r: Vec<String>)
    ensures
        string_views(r@) == paths_in(dir@, image_names(string_views(entries@))),
{
    let names = crate::listing::list_image_names(entries);
    join_all(dir, &names)
}


/// The entries of a directory that cleaning it leaves: those that are not
/// image files, in their order.
pub open spec fn left_after_clean(entries: Seq<Seq<char>>) -> Seq<Seq<char>> {
    entries.filter(|n: Seq<char>| !has_image_extension(n))
}

proof fn lemma_filter_keeps_all(s: Seq<Seq<char>>, p: spec_fn(Seq<char>) -> bool)
    requires
        forall|i: int| 0 <= i < s.len() ==> p(#[trigger] s[i]),
    ensures
        s.filter(p) == s,
    decreases s.len(),
{
    reveal(Seq::filter);
    if s.len() > 0 {
        lemma_filter_keeps_all(s.drop_last(), p);
        assert(s.drop_last().push(s.last()) =~= s);
    }
}

/// Cleaning a directory twice leaves it as cleaning it once does: after the
/// first clean no image file is left to remove.
pub proof fn lemma_clean_idempotent(entries: Seq<Seq<char>>)
    ensures
        image_names(left_after_clean(entries)) == Seq::<Seq<char>>::empty(),
        left_after_clean(left_after_clean(entries)) == left_after_clean(entries),
{
    let not_image = |n: Seq<char>| !has_image_extension(n);
    let is_image = |n: Seq<char>| has_image_extension(n);
    let rest = entries.filter(not_image);
    assert forall|i: int| 0 <= i < rest.len() implies not_image(#[trigger] rest[i]) by {
        entries.lemma_filter_pred(not_image, i);
    }
    lemma_filter_keeps_all(rest, not_image);
    let imgs = rest.filter(is_image);
    if imgs.len() > 0 {
        rest.lemma_filter_pred(is_image, 0);
        rest.lemma_filter_contains_rev(is_image, imgs[0]);
        let k = choose|k: int| 0 <= k < rest.len() && #[trigger] rest[k] == imgs[0];
        assert(not_image(rest[k]));
    }
    assert(imgs =~= Seq::<Seq<char>>::empty());
}

} // verus!
