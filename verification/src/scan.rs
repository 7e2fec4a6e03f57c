//! A snapshot of the home directory and the walk over it: which folders are
//! subjects and which files belong to them, in the order of the listing.

use vstd::prelude::*;

use crate::paths::spec_is_visible;

verus! {

/// What a directory listing says a path is.
#[derive(Debug, Clone, Copy, PartialEq, Eq)]
pub enum FsKind {
    File,
    Dir,
    /// Neither a file nor a directory, or no longer there.
    Other,
}

/// A path found on disk; a directory carries its listing in `children`
/// (empty when the directory was not read).
#[derive(Debug)]
pub struct FsEntry {
    pub path: String,
    pub kind: FsKind,
    pub children: Vec<FsEntry>,
}

/// One step of the walk: a subject folder is reached, or one of its files.
#[derive(Debug, Clone, PartialEq, Eq)]
pub enum ScanEvent {
    Subject(String),
    File(String),
}

pub enum ScanStep {
    Subject(Seq<char>),
    File(Seq<char>),
}

impl View for ScanEvent {
    type V = ScanStep;

    open spec fn view(&self) -> ScanStep {
        match self {
            ScanEvent::Subject(p) => ScanStep::Subject(p@),
            ScanEvent::File(p) => ScanStep::File(p@),
        }
    }
}

pub open spec fn steps_of(events: Seq<ScanEvent>) -> Seq<ScanStep> {
    events.map_values(|e: ScanEvent| e@)
}

pub open spec fn file_steps(paths: Seq<Seq<char>>) -> Seq<ScanStep> {
    paths.map_values(|p: Seq<char>| ScanStep::File(p))
}

/// The files found under a listing, depth first, in listing order: hidden
/// paths are skipped, directories are entered, other kinds are ignored.
pub open spec fn files_under(nodes: Seq<FsEntry>) -> Seq<Seq<char>>
    decreases nodes,
{
    if nodes.len() == 0 {
        seq![]
    } else {
        let last = nodes.last();
        let rest = nodes.drop_last();
        proof {
            assert(decreases_to!(nodes => rest));
            assert(decreases_to!(nodes => last.children@));
        }
        let tail = if !spec_is_visible(last.path@) {
            seq![]
        } else {
            match last.kind {
                FsKind::File => seq![last.path@],
                FsKind::Dir => files_under(last.children@),
                FsKind::Other => seq![],
            }
        };
        files_under(rest) + tail
    }
}

/// The files that a walk of `dir` finds: none unless it is a visible directory.
pub open spec fn dir_files(dir: FsEntry) -> Seq<Seq<char>> {
    if dir.kind == FsKind::Dir && spec_is_visible(dir.path@) {
        files_under(dir.children@)
    } else {
        seq![]
    }
}

/// The steps of a scan of the home listing: each visible folder is a
/// subject, followed by the files found in it; anything else at the top is
/// ignored.
pub open spec fn home_steps(home: Seq<FsEntry>) -> Seq<ScanStep>
    decreases home.len(),
{
    if home.len() == 0 {
        seq![]
    } else {
        let last = home.last();
        let tail = if last.kind == FsKind::Dir && spec_is_visible(last.path@) {
            seq![ScanStep::Subject(last.path@)] + file_steps(files_under(last.children@))
        } else {
            seq![]
        };
        home_steps(home.drop_last()) + tail
    }
}

/// The files found under two listings, one after the other.
pub proof fn lemma_files_under_append(a: Seq<FsEntry>, b: Seq<FsEntry>)
    ensures
        files_under(a + b) == files_under(a) + files_under(b),
    decreases b.len(),
{
    if b.len() == 0 {
        assert(a + b =~= a);
        assert(files_under(a) + files_under(b) =~= files_under(a));
    } else {
        lemma_files_under_append(a, b.drop_last());
        assert((a + b).drop_last() =~= a + b.drop_last());
        assert((a + b).last() == b.last());
        let last = b.last();
        let tail = if !spec_is_visible(last.path@) {
            seq![]
        } else {
            match last.kind {
                FsKind::File => seq![last.path@],
                FsKind::Dir => files_under(last.children@),
                FsKind::Other => seq![],
            }
        };
        assert(files_under(a + b) == files_under(a + b.drop_last()) + tail);
        assert(files_under(b) == files_under(b.drop_last()) + tail);
        assert(files_under(a) + files_under(b.drop_last()) + tail =~= files_under(a) + (files_under(
            b.drop_last(),
        ) + tail));
    }
}

/// The steps of a scan of two home listings, one after the other.
pub proof fn lemma_home_steps_append(a: Seq<FsEntry>, b: Seq<FsEntry>)
    ensures
        home_steps(a + b) == home_steps(a) + home_steps(b),
    decreases b.len(),
{
    if b.len() == 0 {
        assert(a + b =~= a);
        assert(home_steps(a) + home_steps(b) =~= home_steps(a));
    } else {
        lemma_home_steps_append(a, b.drop_last());
        assert((a + b).drop_last() =~= a + b.drop_last());
        assert((a + b).last() == b.last());
        let last = b.last();
        let tail = if last.kind == FsKind::Dir && spec_is_visible(last.path@) {
            seq![ScanStep::Subject(last.path@)] + file_steps(files_under(last.children@))
        } else {
            seq![]
        };
        assert(home_steps(a + b) == home_steps(a + b.drop_last()) + tail);
        assert(home_steps(b) == home_steps(b.drop_last()) + tail);
        assert(home_steps(a) + home_steps(b.drop_last()) + tail =~= home_steps(a) + (home_steps(
            b.drop_last(),
        ) + tail));
    }
}

pub proof fn lemma_file_steps_push(a: Seq<Seq<char>>, b: Seq<Seq<char>>)
    ensures
        file_steps(a + b) =~= file_steps(a) + file_steps(b),
{
}

/// Every file found under a listing has a visible path.
pub proof fn lemma_files_under_visible(nodes: Seq<FsEntry>)
    ensures
        forall|i: int|
            0 <= i < files_under(nodes).len() ==> spec_is_visible(#[trigger] files_under(nodes)[i]),
    decreases nodes,
{
    if nodes.len() > 0 {
        let last = nodes.last();
        let rest = nodes.drop_last();
        assert(decreases_to!(nodes => rest));
        lemma_files_under_visible(rest);
        if spec_is_visible(last.path@) && last.kind == FsKind::Dir {
            assert(decreases_to!(nodes => last.children@));
            lemma_files_under_visible(last.children@);
        }
        let a = files_under(rest);
        let all = files_under(nodes);
        assert forall|i: int| 0 <= i < all.len() implies spec_is_visible(#[trigger] all[i]) by {
            if i < a.len() {
                assert(all[i] == a[i]);
            } else {
                if spec_is_visible(last.path@) && last.kind == FsKind::Dir {
                    assert(all[i] == files_under(last.children@)[i - a.len()]);
                } else {
                    assert(all[i] == last.path@);
                }
            }
        }
    }
}

/// Every step of a scan of the home listing names a visible path, which
/// therefore has a file name.
pub proof fn lemma_home_steps_visible(home: Seq<FsEntry>)
    ensures
        forall|i: int|
            0 <= i < home_steps(home).len() ==> spec_is_visible(
                #[trigger] step_path(home_steps(home)[i]),
            ),
    decreases home.len(),
{
    if home.len() > 0 {
        lemma_home_steps_visible(home.drop_last());
        let last = home.last();
        if last.kind == FsKind::Dir && spec_is_visible(last.path@) {
            lemma_files_under_visible(last.children@);
            let prev = home_steps(home.drop_last());
            let files = file_steps(files_under(last.children@));
            let cur = home_steps(home);
            assert(cur =~= prev + (seq![ScanStep::Subject(last.path@)] + files));
            assert forall|i: int| 0 <= i < cur.len() implies spec_is_visible(
                #[trigger] step_path(cur[i]),
            ) by {
                if i < prev.len() {
                    assert(cur[i] == prev[i]);
                } else if i == prev.len() {
                    assert(cur[i] == ScanStep::Subject(last.path@));
                } else {
                    assert(cur[i] == files[i - prev.len() - 1]);
                    assert(files[i - prev.len() - 1] == ScanStep::File(
                        files_under(last.children@)[i - prev.len() - 1],
                    ));
                }
            }
        } else {
            assert(home_steps(home) =~= home_steps(home.drop_last()));
        }
    }
}

pub open spec fn step_path(s: ScanStep) -> Seq<char> {
    match s {
        ScanStep::Subject(p) => p,
        ScanStep::File(p) => p,
    }
}

} // verus!
