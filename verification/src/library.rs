//! The plain folder library of the standalone window: subjects are the
//! folders of `~/sylabus`, their files are listed and new files are copied in.

use vstd::prelude::*;

use crate::paths::{
    file_name, is_plain_name, is_visible, join, law_file_name_of_join, law_join_adds_one_component,
    path_key, spec_file_name, spec_is_visible, spec_join,
};
use crate::scan::{FsEntry, FsKind};

verus! {

/// The library folder inside the user's home directory.
pub const BASE_DIR: &'static str = "sylabus";

/// `<home>/sylabus`.
pub open spec fn spec_library_dir(home: Seq<char>) -> Seq<char> {
    spec_join(home, BASE_DIR@)
}

/// `<home>/sylabus/<subject>`.
pub open spec fn spec_subject_dir(home: Seq<char>, subject: Seq<char>) -> Seq<char> {
    spec_join(spec_library_dir(home), subject)
}

/// The names of the visible folders of a listing, in listing order.
pub open spec fn subject_names(listing: Seq<FsEntry>) -> Seq<Seq<char>>
    decreases listing.len(),
{
    if listing.len() == 0 {
        seq![]
    } else {
        let last = listing.last();
        subject_names(listing.drop_last()) + if last.kind == FsKind::Dir && spec_is_visible(
            last.path@,
        ) {
            seq![spec_file_name(last.path@).unwrap()]
        } else {
            seq![]
        }
    }
}

/// The (name, path) pairs of the visible files of a listing, in listing order.
pub open spec fn subject_files(listing: Seq<FsEntry>) -> Seq<(Seq<char>, Seq<char>)>
    decreases listing.len(),
{
    if listing.len() == 0 {
        seq![]
    } else {
        let last = listing.last();
        subject_files(listing.drop_last()) + if last.kind == FsKind::File && spec_is_visible(
            last.path@,
        ) {
            seq![(spec_file_name(last.path@).unwrap(), last.path@)]
        } else {
            seq![]
        }
    }
}

pub open spec fn string_views(v: Seq<String>) -> Seq<Seq<char>> {
    v.map_values(|s: String| s@)
}

pub open spec fn pair_views(v: Seq<(String, String)>) -> Seq<(Seq<char>, Seq<char>)> {
    v.map_values(|p: (String, String)| (p.0@, p.1@))
}

/// The library folder: `<home>/sylabus`.
pub fn library_dir(home: &str) -> (r: String)
    ensures
        r@ == spec_library_dir(home@),
{
    join(home, BASE_DIR)
}

/// The folder of a subject: `<home>/sylabus/<subject>`.
pub fn subject_dir(home: &str, subject: &str) -> (r: String)
    ensures
        r@ == spec_subject_dir(home@, subject@),
        is_plain_name(subject@) ==> spec_file_name(r@) == Some(subject@),
{
    proof {
        if is_plain_name(subject@) {
            law_subject_dir_is_named_after_the_subject(home@, subject@);
        }
    }
    let lib = library_dir(home);
    join(lib.as_str(), subject)
}

/// Where a file added to a subject is copied: the subject's folder joined
/// with the file's name; the source path must have a file name.
pub fn file_destination(home: &str, subject: &str, source: &str) -> (r: String)
    requires
        spec_file_name(source@) is Some,
    ensures
        r@ == spec_join(spec_subject_dir(home@, subject@), spec_file_name(source@).unwrap()),
{
    let dir = subject_dir(home, subject);
    let name = file_name(source).unwrap();
    join(dir.as_str(), name.as_str())
}

/// The subjects of the library: names of its visible folders, in listing order.
pub fn get_subjects(listing: &Vec<FsEntry>) -> (r: Vec<String>)
    ensures
        string_views(r@) == subject_names(listing@),
        string_views(r@) == listing@.filter(
            |e: FsEntry| e.kind == FsKind::Dir && spec_is_visible(e.path@),
        ).map_values(|e: FsEntry| spec_file_name(e.path@).unwrap()),
{
    proof {
        law_subjects_are_the_visible_folders(listing@);
    }
    let mut out: Vec<String> = Vec::new();
    let n = listing.len();
    let mut i: usize = 0;
    while i < n
        invariant
            n == listing@.len(),
            i <= n,
            string_views(out@) == subject_names(listing@.take(i as int)),
        decreases n - i,
    {
        let node = &listing[i];
        proof {
            assert(listing@.take(i + 1).drop_last() =~= listing@.take(i as int));
            assert(listing@.take(i + 1).last() == *node);
        }
        let is_dir = match node.kind {
            FsKind::Dir => true,
            _ => false,
        };
        if is_dir && is_visible(node.path.as_str()) {
            let name = file_name(node.path.as_str()).unwrap();
            let ghost before = out@;
            out.push(name);
            proof {
                assert(string_views(out@) =~= string_views(before).push(name@));
            }
        }
        i = i + 1;
    }
    proof {
        assert(listing@.take(n as int) =~= listing@);
    }
    out
}

/// The files of a subject folder: (name, path) of its visible files, in
/// listing order.
pub fn get_subject(listing: &Vec<FsEntry>) -> (r: Vec<(String, String)>)
    ensures
        pair_views(r@) == subject_files(listing@),
        pair_views(r@) == listing@.filter(
            |e: FsEntry| e.kind == FsKind::File && spec_is_visible(e.path@),
        ).map_values(|e: FsEntry| (spec_file_name(e.path@).unwrap(), e.path@)),
{
    proof {
        law_subject_files_are_the_visible_files(listing@);
    }
    let mut out: Vec<(String, String)> = Vec::new();
    let n = listing.len();
    let mut i: usize = 0;
    while i < n
        invariant
            n == listing@.len(),
            i <= n,
            pair_views(out@) == subject_files(listing@.take(i as int)),
        decreases n - i,
    {
        let node = &listing[i];
        proof {
            assert(listing@.take(i + 1).drop_last() =~= listing@.take(i as int));
            assert(listing@.take(i + 1).last() == *node);
        }
        let is_file = match node.kind {
            FsKind::File => true,
            _ => false,
        };
        if is_file && is_visible(node.path.as_str()) {
            let name = file_name(node.path.as_str()).unwrap();
            let ghost before = out@;
            let pair = (name, node.path.clone());
            out.push(pair);
            proof {
                assert(pair_views(out@) =~= pair_views(before).push((pair.0@, pair.1@)));
            }
        }
        i = i + 1;
    }
    proof {
        assert(listing@.take(n as int) =~= listing@);
    }
    out
}


/// The subjects are the names of the visible folders of the listing, one
/// per folder, in listing order; nothing else is a subject.
pub proof fn law_subjects_are_the_visible_folders(listing: Seq<FsEntry>)
    ensures
        subject_names(listing) == listing.filter(
            |e: FsEntry| e.kind == FsKind::Dir && spec_is_visible(e.path@),
        ).map_values(|e: FsEntry| spec_file_name(e.path@).unwrap()),
        forall|i: int|
            0 <= i < listing.len() && (#[trigger] listing[i]).kind == FsKind::Dir && spec_is_visible(
                listing[i].path@,
            ) ==> subject_names(listing).contains(spec_file_name(listing[i].path@).unwrap()),
    decreases listing.len(),
{
    let pred = |e: FsEntry| e.kind == FsKind::Dir && spec_is_visible(e.path@);
    let f = |e: FsEntry| spec_file_name(e.path@).unwrap();
    reveal(Seq::filter);
    if listing.len() > 0 {
        let prev = listing.drop_last();
        law_subjects_are_the_visible_folders(prev);
        assert(listing.filter(pred) == if pred(listing.last()) {
            prev.filter(pred).push(listing.last())
        } else {
            prev.filter(pred)
        });
        assert(subject_names(listing) =~= listing.filter(pred).map_values(f));
        assert forall|i: int|
            0 <= i < listing.len() && (#[trigger] listing[i]).kind == FsKind::Dir && spec_is_visible(
                listing[i].path@,
            ) implies subject_names(listing).contains(spec_file_name(listing[i].path@).unwrap()) by {
            let names = subject_names(listing);
            if i < prev.len() {
                assert(prev[i] == listing[i]);
                let j = choose|j: int|
                    0 <= j < subject_names(prev).len() && subject_names(prev)[j] == spec_file_name(
                        listing[i].path@,
                    ).unwrap();
                assert(names[j] == subject_names(prev)[j]);
            } else {
                assert(names[names.len() - 1] == spec_file_name(listing[i].path@).unwrap());
            }
        }
    } else {
        assert(listing.filter(pred) =~= seq![]);
    }
}

/// The files of a subject are the (name, path) pairs of the visible files
/// of the listing, one per file, in listing order; nothing else is listed.
pub proof fn law_subject_files_are_the_visible_files(listing: Seq<FsEntry>)
    ensures
        subject_files(listing) == listing.filter(
            |e: FsEntry| e.kind == FsKind::File && spec_is_visible(e.path@),
        ).map_values(|e: FsEntry| (spec_file_name(e.path@).unwrap(), e.path@)),
        forall|i: int|
            0 <= i < listing.len() && (#[trigger] listing[i]).kind == FsKind::File && spec_is_visible(
                listing[i].path@,
            ) ==> subject_files(listing).contains(
                (spec_file_name(listing[i].path@).unwrap(), listing[i].path@),
            ),
    decreases listing.len(),
{
    let pred = |e: FsEntry| e.kind == FsKind::File && spec_is_visible(e.path@);
    let f = |e: FsEntry| (spec_file_name(e.path@).unwrap(), e.path@);
    reveal(Seq::filter);
    if listing.len() > 0 {
        let prev = listing.drop_last();
        law_subject_files_are_the_visible_files(prev);
        assert(listing.filter(pred) == if pred(listing.last()) {
            prev.filter(pred).push(listing.last())
        } else {
            prev.filter(pred)
        });
        assert(subject_files(listing) =~= listing.filter(pred).map_values(f));
        assert forall|i: int|
            0 <= i < listing.len() && (#[trigger] listing[i]).kind == FsKind::File && spec_is_visible(
                listing[i].path@,
            ) implies subject_files(listing).contains(
            (spec_file_name(listing[i].path@).unwrap(), listing[i].path@),
        ) by {
            let files = subject_files(listing);
            let x = (spec_file_name(listing[i].path@).unwrap(), listing[i].path@);
            if i < prev.len() {
                assert(prev[i] == listing[i]);
                let j = choose|j: int| 0 <= j < subject_files(prev).len() && subject_files(prev)[j] == x;
                assert(files[j] == subject_files(prev)[j]);
            } else {
                assert(files[files.len() - 1] == x);
            }
        }
    } else {
        assert(listing.filter(pred) =~= seq![]);
    }
}

/// A subject's folder is named after the whole subject name, inside the
/// library folder: its last component is the subject, and the components
/// before it are those of `<home>/sylabus`. So two subjects never share a
/// folder, and a file added to a subject lands in that subject's folder
/// under its own name.
pub proof fn law_subject_dir_is_named_after_the_subject(home: Seq<char>, subject: Seq<char>)
    requires
        is_plain_name(subject),
    ensures
        spec_file_name(spec_subject_dir(home, subject)) == Some(subject),
        path_key(spec_subject_dir(home, subject)).parts_rev == seq![subject] + path_key(
            spec_library_dir(home),
        ).parts_rev,
        forall|name: Seq<char>|
            is_plain_name(name) ==> spec_file_name(
                #[trigger] spec_join(spec_subject_dir(home, subject), name),
            ) == Some(name),
{
    law_file_name_of_join(spec_library_dir(home), subject);
    law_join_adds_one_component(spec_library_dir(home), subject);
    assert forall|name: Seq<char>| is_plain_name(name) implies spec_file_name(
        #[trigger] spec_join(spec_subject_dir(home, subject), name),
    ) == Some(name) by {
        law_file_name_of_join(spec_subject_dir(home, subject), name);
    }
}

/// Different subjects have different folders.
pub proof fn law_distinct_subjects_distinct_folders(home: Seq<char>, s1: Seq<char>, s2: Seq<char>)
    requires
        is_plain_name(s1),
        is_plain_name(s2),
        s1 != s2,
    ensures
        spec_subject_dir(home, s1) != spec_subject_dir(home, s2),
{
    law_subject_dir_is_named_after_the_subject(home, s1);
    law_subject_dir_is_named_after_the_subject(home, s2);
}

} // verus!
