//! What a scan of a directory of images found, and the choice of its image files.
use crate::difference::{contents_of, FileContents};
use crate::names::{has_image_extension, is_image_file_name, same_name};
use vstd::prelude::*;

verus! {

/// An image file of a directory: its name and what reading it gave.
pub struct ImageFile {
    pub name: String,
    pub contents: FileContents,
}

/// The outcome of scanning a directory.
pub enum DirScan {
    /// The path is not an existing directory.
    NotDirectory,
    /// The directory exists but could not be listed.
    Unreadable,
    /// The image files that the directory holds.
    Files(Vec<ImageFile>),
}

/// A directory of images, as scanned.
pub struct ImageDir {
    pub path: String,
    pub scan: DirScan,
}

/// The names of a sequence of files.
pub open spec fn file_names(files: Seq<ImageFile>) -> Seq<Seq<char>> {
    files.map_values(|f: ImageFile| f.name@)
}

/// The names of the image files of a directory (none where the scan failed).
pub open spec fn dir_names(dir: &ImageDir) -> Seq<Seq<char>> {
    match dir.scan {
        DirScan::Files(files) => file_names(files@),
        _ => Seq::empty(),
    }
}

/// The views of a sequence of strings.
pub open spec fn string_views(v: Seq<String>) -> Seq<Seq<char>> {
    v.map_values(|s: String| s@)
}

/// The entries of a directory listing that name image files, in their order.
pub open spec fn image_names(entries: Seq<Seq<char>>) -> Seq<Seq<char>> {
    entries.filter(|n: Seq<char>| has_image_extension(n))
}

/// Keeps the entry names that have the image extension, in their order.
pub fn list_image_names(entries: &Vec<String>) -> (r: Vec<String>)
    ensures
        string_views(r@) == image_names(string_views(entries@)),
{
    let mut r: Vec<String> = Vec::new();
    let mut i: usize = 0;
    while i < entries.len()
        invariant
            i <= entries.len(),
            string_views(r@) == image_names(string_views(entries@).take(i as int)),
        decreases entries.len() - i,
    {
        let ghost before = string_views(entries@).take(i as int);
        assert(string_views(entries@).take(i + 1) =~= before.push(entries@[i as int]@));
        proof {
            before.lemma_filter_push(entries@[i as int]@, |n: Seq<char>| has_image_extension(n));
        }
        if is_image_file_name(entries[i].as_str()) {
            r.push(entries[i].clone());
            assert(string_views(r@) =~= image_names(before).push(entries@[i as int]@));
        } else {
            assert(string_views(r@) =~= image_names(before));
        }
        i = i + 1;
    }
    assert(string_views(entries@).take(entries.len() as int) =~= string_views(entries@));
    r
}


/// The contents of the first file called `name`, if any.
pub open spec fn lookup(files: Seq<ImageFile>, name: Seq<char>) -> Option<FileContents>
    decreases files.len(),
{
    if files.len() == 0 {
        None
    } else if files[0].name@ == name {
        Some(files[0].contents)
    } else {
        lookup(files.drop_first(), name)
    }
}

/// The contents of the file called `name` in a scanned directory, if it holds one.
pub open spec fn dir_file(dir: &ImageDir, name: Seq<char>) -> Option<FileContents> {
    match dir.scan {
        DirScan::Files(files) => lookup(files@, name),
        _ => None,
    }
}

/// Finds the file called `name` in a scanned directory.
pub fn find_file<'a>(dir: &'a ImageDir, name: &str) -> (r: Option<&'a FileContents>)
    ensures
        contents_of(r) == dir_file(dir, name@),
{
    match &dir.scan {
        DirScan::Files(files) => {
            let mut i: usize = 0;
            assert(files@.skip(0) =~= files@);
            while i < files.len()
                invariant
                    i <= files.len(),
                    dir_file(dir, name@) == lookup(files@, name@),
                    lookup(files@, name@) == lookup(files@.skip(i as int), name@),
                decreases files.len() - i,
            {
                assert(files@.skip(i as int).drop_first() =~= files@.skip(i + 1));
                assert(files@.skip(i as int)[0] == files@[i as int]);
                if same_name(files[i].name.as_str(), name) {
                    return Some(&files[i].contents);
                }
                i = i + 1;
            }
            None
        },
        _ => None,
    }
}

} // verus!
