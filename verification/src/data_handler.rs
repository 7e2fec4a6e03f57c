//! Reconciliation of the catalogue with the home directory: subjects and
//! entries found on disk are matched with the catalogue rows of the same
//! path, new ones get fresh ids (and must be added to the catalogue), and
//! catalogue rows whose path was not found are kept, marked as missing.

use std::collections::HashMap;

use vstd::prelude::*;

use crate::ids::{new_uuid_v7_batch, spec_parse_uuid, uuid_variant_bits, uuid_version};
use crate::model::{
    entry_from_row, new_entry_view, new_subject_view, subject_from_row, DBEntry, DBEntryView,
    DBSubject, DBSubjectView, Entry, EntryView, Subject, SubjectView,
};
use crate::paths::{path_key, same_path, spec_file_name, spec_same_path, PathKey};
use crate::laws::{
    again_finds_nothing_new, catalogue_ids_apart, keeps_catalogue_and_finds_everything,
    law_reconcile_again_finds_nothing_new, law_reconcile_keeps_catalogue_and_finds_everything,
    law_reconciled_keyed_by_id, law_reread_in_any_order_finds_nothing_new,
    law_written_rows_read_back_to_a_fixpoint, lemma_increasing_ids_fresh, new_ids_read_back,
    entry_row_paths_distinct, holds_written_entry_rows, holds_written_subject_rows,
    reread_finds_nothing_new, rows_again_find_nothing_new, step_paths_distinct,
    subject_row_paths_distinct,
};
use crate::paths::{is_visible, spec_is_visible};
use crate::scan::{
    dir_files, file_steps, files_under, home_steps, lemma_file_steps_push, lemma_files_under_append,
    lemma_files_under_visible, lemma_home_steps_append, steps_of, FsEntry, FsKind, ScanEvent,
    ScanStep,
};

verus! {

broadcast use vstd::std_specs::hash::group_hash_axioms;

/// The subjects and entries known to the application, each keyed by its id.
#[derive(Debug)]
pub struct DataHandler {
    pub subjects: HashMap<u128, Subject>,
    pub entries: HashMap<u128, Entry>,
}

/// The outcome of a reconciliation: the data, and the subjects and entries
/// that the catalogue does not know yet, in the order they were found.
#[derive(Debug)]
pub struct Reconciled {
    pub data: DataHandler,
    pub new_subjects: Vec<Subject>,
    pub new_entries: Vec<Entry>,
}

pub struct DataView {
    pub subjects: Map<u128, SubjectView>,
    pub entries: Map<u128, EntryView>,
}

pub struct ReconciledView {
    pub subjects: Map<u128, SubjectView>,
    pub entries: Map<u128, EntryView>,
    pub new_subjects: Seq<SubjectView>,
    pub new_entries: Seq<EntryView>,
}

pub open spec fn subject_map_view(m: Map<u128, Subject>) -> Map<u128, SubjectView> {
    m.map_values(|s: Subject| s@)
}

pub open spec fn entry_map_view(m: Map<u128, Entry>) -> Map<u128, EntryView> {
    m.map_values(|e: Entry| e@)
}

pub open spec fn subject_views(s: Seq<Subject>) -> Seq<SubjectView> {
    s.map_values(|x: Subject| x@)
}

pub open spec fn entry_views(s: Seq<Entry>) -> Seq<EntryView> {
    s.map_values(|x: Entry| x@)
}

impl View for DataHandler {
    type V = DataView;

    open spec fn view(&self) -> DataView {
        DataView {
            subjects: subject_map_view(self.subjects@),
            entries: entry_map_view(self.entries@),
        }
    }
}

impl View for Reconciled {
    type V = ReconciledView;

    open spec fn view(&self) -> ReconciledView {
        ReconciledView {
            subjects: subject_map_view(self.data.subjects@),
            entries: entry_map_view(self.data.entries@),
            new_subjects: subject_views(self.new_subjects@),
            new_entries: entry_views(self.new_entries@),
        }
    }
}

/// Every subject and every entry is stored under its own id.
pub open spec fn keyed_by_id(subjects: Map<u128, SubjectView>, entries: Map<u128, EntryView>) -> bool {
    &&& forall|k: u128| #[trigger] subjects.contains_key(k) ==> subjects[k].id == k
    &&& forall|k: u128| #[trigger] entries.contains_key(k) ==> entries[k].id == k
}

/// No two known subjects have the same path.
pub open spec fn distinct_subject_paths(ks: Seq<SubjectView>) -> bool {
    forall|i: int, j: int|
        0 <= i < ks.len() && 0 <= j < ks.len() && i != j ==> path_key(#[trigger] ks[i].path) != path_key(
            #[trigger] ks[j].path,
        )
}

/// No two known entries have the same path.
pub open spec fn distinct_entry_paths(ke: Seq<EntryView>) -> bool {
    forall|i: int, j: int|
        0 <= i < ke.len() && 0 <= j < ke.len() && i != j ==> path_key(#[trigger] ke[i].path) != path_key(
            #[trigger] ke[j].path,
        )
}

pub open spec fn subject_with_exists(s: SubjectView, exists: bool) -> SubjectView {
    SubjectView { id: s.id, name: s.name, path: s.path, icon: s.icon, exists }
}

pub open spec fn entry_with_exists(e: EntryView, exists: bool) -> EntryView {
    EntryView { id: e.id, name: e.name, path: e.path, parent: e.parent, exists }
}

/// Some known subject has the same path as `p`, component by component.
pub open spec fn knows_subject_path(ks: Seq<SubjectView>, p: Seq<char>) -> bool {
    exists|i: int| 0 <= i < ks.len() && path_key(ks[i].path) == path_key(p)
}

/// The known subject with the same path as `p`.
pub open spec fn known_subject_at(ks: Seq<SubjectView>, p: Seq<char>) -> SubjectView {
    ks[choose|i: int| 0 <= i < ks.len() && path_key(ks[i].path) == path_key(p)]
}

/// Some known entry has the same path as `p`, component by component.
pub open spec fn knows_entry_path(ke: Seq<EntryView>, p: Seq<char>) -> bool {
    exists|i: int| 0 <= i < ke.len() && path_key(ke[i].path) == path_key(p)
}

/// The known entry with the same path as `p`.
pub open spec fn known_entry_at(ke: Seq<EntryView>, p: Seq<char>) -> EntryView {
    ke[choose|i: int| 0 <= i < ke.len() && path_key(ke[i].path) == path_key(p)]
}

/// The state of a scan, after some of its steps.
pub struct ScanState {
    pub subjects: Map<u128, SubjectView>,
    pub entries: Map<u128, EntryView>,
    pub new_subjects: Seq<SubjectView>,
    pub new_entries: Seq<EntryView>,
    /// Paths (compared component by component) whose catalogue row has
    /// been matched.
    pub taken_subjects: Set<PathKey>,
    pub taken_entries: Set<PathKey>,
    /// Id of the subject whose files are being visited.
    pub current: u128,
    /// How many fresh ids have been used.
    pub used: nat,
}

pub open spec fn initial_scan_state() -> ScanState {
    ScanState {
        subjects: Map::empty(),
        entries: Map::empty(),
        new_subjects: seq![],
        new_entries: seq![],
        taken_subjects: Set::empty(),
        taken_entries: Set::empty(),
        current: 0,
        used: 0,
    }
}

/// One step of the scan. A folder or file whose path has an unmatched
/// catalogue row is taken from the catalogue, marked present; otherwise it
/// is new, gets the next fresh id (files go to the current subject), and is
/// recorded as new. A folder becomes the current subject.
pub open spec fn scan_step(
    ks: Seq<SubjectView>,
    ke: Seq<EntryView>,
    fresh: Seq<u128>,
    st: ScanState,
    step: ScanStep,
) -> ScanState {
    match step {
        ScanStep::Subject(p) => {
            if knows_subject_path(ks, p) && !st.taken_subjects.contains(path_key(p)) {
                let s = subject_with_exists(known_subject_at(ks, p), true);
                ScanState {
                    subjects: st.subjects.insert(s.id, s),
                    taken_subjects: st.taken_subjects.insert(path_key(p)),
                    current: s.id,
                    ..st
                }
            } else {
                let s = new_subject_view(fresh[st.used as int], p, None, true);
                ScanState {
                    subjects: st.subjects.insert(s.id, s),
                    new_subjects: st.new_subjects.push(s),
                    current: s.id,
                    used: st.used + 1,
                    ..st
                }
            }
        },
        ScanStep::File(p) => {
            if knows_entry_path(ke, p) && !st.taken_entries.contains(path_key(p)) {
                let e = entry_with_exists(known_entry_at(ke, p), true);
                ScanState {
                    entries: st.entries.insert(e.id, e),
                    taken_entries: st.taken_entries.insert(path_key(p)),
                    ..st
                }
            } else {
                let e = new_entry_view(fresh[st.used as int], p, st.current, true);
                ScanState {
                    entries: st.entries.insert(e.id, e),
                    new_entries: st.new_entries.push(e),
                    used: st.used + 1,
                    ..st
                }
            }
        },
    }
}

pub open spec fn scan_fold(
    ks: Seq<SubjectView>,
    ke: Seq<EntryView>,
    steps: Seq<ScanStep>,
    fresh: Seq<u128>,
) -> ScanState
    decreases steps.len(),
{
    if steps.len() == 0 {
        initial_scan_state()
    } else {
        scan_step(ks, ke, fresh, scan_fold(ks, ke, steps.drop_last(), fresh), steps.last())
    }
}

/// The state reached from `st` after the steps `steps`.
pub open spec fn scan_from(
    ks: Seq<SubjectView>,
    ke: Seq<EntryView>,
    fresh: Seq<u128>,
    st: ScanState,
    steps: Seq<ScanStep>,
) -> ScanState
    decreases steps.len(),
{
    if steps.len() == 0 {
        st
    } else {
        scan_step(ks, ke, fresh, scan_from(ks, ke, fresh, st, steps.drop_last()), steps.last())
    }
}

/// A scan in two parts: the second part starts where the first ends.
pub proof fn lemma_scan_split(
    ks: Seq<SubjectView>,
    ke: Seq<EntryView>,
    fresh: Seq<u128>,
    a: Seq<ScanStep>,
    b: Seq<ScanStep>,
)
    ensures
        scan_fold(ks, ke, a + b, fresh) == scan_from(ks, ke, fresh, scan_fold(ks, ke, a, fresh), b),
    decreases b.len(),
{
    if b.len() == 0 {
        assert(a + b =~= a);
    } else {
        lemma_scan_split(ks, ke, fresh, a, b.drop_last());
        assert((a + b).drop_last() =~= a + b.drop_last());
        assert((a + b).last() == b.last());
    }
}

/// Going on from where some steps ended is going through all of them.
pub proof fn lemma_scan_from_split(
    ks: Seq<SubjectView>,
    ke: Seq<EntryView>,
    fresh: Seq<u128>,
    st: ScanState,
    a: Seq<ScanStep>,
    b: Seq<ScanStep>,
)
    ensures
        scan_from(ks, ke, fresh, st, a + b) == scan_from(ks, ke, fresh, scan_from(ks, ke, fresh, st, a), b),
    decreases b.len(),
{
    if b.len() == 0 {
        assert(a + b =~= a);
    } else {
        lemma_scan_from_split(ks, ke, fresh, st, a, b.drop_last());
        assert((a + b).drop_last() =~= a + b.drop_last());
        assert((a + b).last() == b.last());
    }
}

/// The fresh ids used only grow along a scan.
pub proof fn lemma_scan_from_used_grows(
    ks: Seq<SubjectView>,
    ke: Seq<EntryView>,
    fresh: Seq<u128>,
    st: ScanState,
    steps: Seq<ScanStep>,
)
    ensures
        st.used <= scan_from(ks, ke, fresh, st, steps).used,
    decreases steps.len(),
{
    if steps.len() > 0 {
        lemma_scan_from_used_grows(ks, ke, fresh, st, steps.drop_last());
    }
}

/// The paths (by their components) of the catalogue entries marked taken.
pub open spec fn taken_keys(ke: Seq<EntryView>, taken: Seq<bool>) -> Set<PathKey> {
    Set::new(
        |k: PathKey|
            exists|j: int| 0 <= j < ke.len() && j < taken.len() && taken[j] && path_key(#[trigger] ke[j].path) == k,
    )
}

/// The state a walk of the folder of the subject `current` starts from:
/// the entries found so far, the new ones queued so far, the catalogue
/// entries already taken, and the fresh ids already used.
pub open spec fn walk_start(
    ke: Seq<EntryView>,
    taken: Seq<bool>,
    output: Map<u128, EntryView>,
    pending: Seq<EntryView>,
    current: u128,
    used: nat,
) -> ScanState {
    ScanState {
        subjects: Map::empty(),
        entries: output,
        new_subjects: seq![],
        new_entries: pending,
        taken_subjects: Set::empty(),
        taken_entries: taken_keys(ke, taken),
        current,
        used,
    }
}

/// The state after a walk of the folder `dir` from `st`: each file it
/// finds is a step of the scan.
pub open spec fn dir_walk(ke: Seq<EntryView>, fresh: Seq<u128>, st: ScanState, dir: FsEntry) -> ScanState {
    scan_from(seq![], ke, fresh, st, file_steps(dir_files(dir)))
}

/// File steps touch only the entries, the taken entries and the fresh ids
/// used; they go the same way from two states that agree on those and on
/// the current subject, whatever the catalogue subjects.
pub proof fn lemma_file_steps_agree(
    ks: Seq<SubjectView>,
    ks2: Seq<SubjectView>,
    ke: Seq<EntryView>,
    fresh: Seq<u128>,
    st: ScanState,
    st2: ScanState,
    steps: Seq<ScanStep>,
)
    requires
        forall|i: int| 0 <= i < steps.len() ==> (#[trigger] steps[i]) is File,
        st.entries == st2.entries,
        st.new_entries == st2.new_entries,
        st.taken_entries == st2.taken_entries,
        st.used == st2.used,
        st.current == st2.current,
    ensures
        ({
            let a = scan_from(ks, ke, fresh, st, steps);
            let b = scan_from(ks2, ke, fresh, st2, steps);
            &&& a.entries == b.entries
            &&& a.new_entries == b.new_entries
            &&& a.taken_entries == b.taken_entries
            &&& a.used == b.used
            &&& a.current == st.current
            &&& b.current == st2.current
            &&& a.subjects == st.subjects
            &&& a.new_subjects == st.new_subjects
            &&& a.taken_subjects == st.taken_subjects
            &&& b.subjects == st2.subjects
            &&& b.new_subjects == st2.new_subjects
            &&& b.taken_subjects == st2.taken_subjects
        }),
    decreases steps.len(),
{
    if steps.len() > 0 {
        let prev = steps.drop_last();
        assert forall|i: int| 0 <= i < prev.len() implies (#[trigger] prev[i]) is File by {
            assert(prev[i] == steps[i]);
        }
        lemma_file_steps_agree(ks, ks2, ke, fresh, st, st2, prev);
        assert(steps[steps.len() - 1] is File);
    }
}

/// Adds, in catalogue order, every catalogue subject whose path was not
/// matched, marked missing.
pub open spec fn add_missing_subjects(
    ks: Seq<SubjectView>,
    taken: Set<PathKey>,
    m: Map<u128, SubjectView>,
) -> Map<u128, SubjectView>
    decreases ks.len(),
{
    if ks.len() == 0 {
        m
    } else {
        let m2 = add_missing_subjects(ks.drop_last(), taken, m);
        let s = ks.last();
        if taken.contains(path_key(s.path)) {
            m2
        } else {
            m2.insert(s.id, subject_with_exists(s, false))
        }
    }
}

/// Adds, in catalogue order, every catalogue entry whose path was not
/// matched, marked missing.
pub open spec fn add_missing_entries(
    ke: Seq<EntryView>,
    taken: Set<PathKey>,
    m: Map<u128, EntryView>,
) -> Map<u128, EntryView>
    decreases ke.len(),
{
    if ke.len() == 0 {
        m
    } else {
        let m2 = add_missing_entries(ke.drop_last(), taken, m);
        let e = ke.last();
        if taken.contains(path_key(e.path)) {
            m2
        } else {
            m2.insert(e.id, entry_with_exists(e, false))
        }
    }
}

/// The result of reconciling the known subjects and entries with the steps
/// of a scan, using the given fresh ids in order.
pub open spec fn reconcile_spec(
    ks: Seq<SubjectView>,
    ke: Seq<EntryView>,
    steps: Seq<ScanStep>,
    fresh: Seq<u128>,
) -> ReconciledView {
    let st = scan_fold(ks, ke, steps, fresh);
    ReconciledView {
        subjects: add_missing_subjects(ks, st.taken_subjects, st.subjects),
        entries: add_missing_entries(ke, st.taken_entries, st.entries),
        new_subjects: st.new_subjects,
        new_entries: st.new_entries,
    }
}

/// How many fresh ids a reconciliation uses.
pub open spec fn fresh_needed(ks: Seq<SubjectView>, ke: Seq<EntryView>, steps: Seq<ScanStep>) -> nat {
    scan_fold(ks, ke, steps, seq![]).used
}

/// `res` reconciles the catalogue `ks`, `ke` with the scan `steps` using
/// the fresh ids `fresh`: exactly as many as it needs, each a version-7
/// UUID with the RFC 4122 variant, strictly increasing. Where the catalogue
/// ids are distinct and none of them is one of the fresh ids, and no path
/// is reached twice, it keeps the catalogue and finds everything, and a
/// second run over the same scan finds nothing new.
pub open spec fn reconciled_with(
    ks: Seq<SubjectView>,
    ke: Seq<EntryView>,
    steps: Seq<ScanStep>,
    fresh: Seq<u128>,
    res: ReconciledView,
) -> bool {
    &&& fresh.len() == fresh_needed(ks, ke, steps)
    &&& forall|k: int| 0 <= k < fresh.len() ==> uuid_version(#[trigger] fresh[k]) == 7
    &&& forall|k: int| 0 <= k < fresh.len() ==> uuid_variant_bits(#[trigger] fresh[k]) == 2
    &&& forall|i: int, j: int| 0 <= i < j < fresh.len() ==> #[trigger] fresh[i] < #[trigger] fresh[j]
    &&& res == reconcile_spec(ks, ke, steps, fresh)
    &&& (catalogue_ids_apart(ks, ke, fresh) && step_paths_distinct(steps)) ==> (
    keeps_catalogue_and_finds_everything(ks, ke, steps, res) && again_finds_nothing_new(
        ks,
        ke,
        steps,
        res,
    ))
}

/// What `init` gives for the catalogue rows `rows_s`, `rows_e` and the scan
/// `steps`: the reconciliation of the live rows with the scan, made with
/// the fresh ids `fresh` (see `reconciled_with`); and where the catalogue
/// ids are distinct and apart from the fresh ones, no path is reached
/// twice and the new ids read back from their text (as they do from the
/// rows `DBSubject::from_subject` and `DBEntry::from_entry` write), writing
/// the new items to the catalogue and running again finds nothing new;
/// when no two rows share a path, whatever order the catalogue is read
/// back in.
pub open spec fn init_outcome(
    rows_s: Seq<DBSubjectView>,
    rows_e: Seq<DBEntryView>,
    steps: Seq<ScanStep>,
    fresh: Seq<u128>,
    res: ReconciledView,
) -> bool {
    let ks = known_subjects_of(live_subject_rows(rows_s, rows_s.len() as int));
    let ke = known_entries_of(live_entry_rows(rows_e, rows_e.len() as int));
    &&& reconciled_with(ks, ke, steps, fresh, res)
    &&& (catalogue_ids_apart(ks, ke, fresh) && step_paths_distinct(steps) && new_ids_read_back(res))
        ==> rows_again_find_nothing_new(rows_s, rows_e, steps, res)
    &&& (catalogue_ids_apart(ks, ke, fresh) && step_paths_distinct(steps) && new_ids_read_back(res)
        && subject_row_paths_distinct(rows_s) && entry_row_paths_distinct(rows_e)) ==> forall|
        rows_s2: Seq<DBSubjectView>,
        rows_e2: Seq<DBEntryView>,
    |
        holds_written_subject_rows(rows_s2, rows_s, res) && holds_written_entry_rows(rows_e2, rows_e, res)
            && subject_row_paths_distinct(rows_s2) && entry_row_paths_distinct(rows_e2)
            ==> #[trigger] reread_finds_nothing_new(rows_s2, rows_e2, steps, res)
}

/// Which catalogue rows are matched, and how many fresh ids are used, does
/// not depend on the fresh ids themselves.
pub proof fn lemma_scan_shape_independent_of_ids(
    ks: Seq<SubjectView>,
    ke: Seq<EntryView>,
    steps: Seq<ScanStep>,
    f1: Seq<u128>,
    f2: Seq<u128>,
)
    ensures
        scan_fold(ks, ke, steps, f1).used == scan_fold(ks, ke, steps, f2).used,
        scan_fold(ks, ke, steps, f1).taken_subjects == scan_fold(ks, ke, steps, f2).taken_subjects,
        scan_fold(ks, ke, steps, f1).taken_entries == scan_fold(ks, ke, steps, f2).taken_entries,
    decreases steps.len(),
{
    if steps.len() > 0 {
        lemma_scan_shape_independent_of_ids(ks, ke, steps.drop_last(), f1, f2);
    }
}



fn push_file(out: &mut Vec<ScanEvent>, path: String)
    ensures
        steps_of(final(out)@) =~= steps_of(old(out)@).push(ScanStep::File(path@)),
{
    out.push(ScanEvent::File(path));
}

impl DataHandler {
    /// Lists the directory `dir`, appending a `File` step for every visible
    /// file under it, depth first in listing order; nothing is appended
    /// unless `dir` is a visible directory.
    pub fn list_files(dir: &FsEntry, out: &mut Vec<ScanEvent>)
        ensures
            steps_of(final(out)@) =~= steps_of(old(out)@) + file_steps(dir_files(*dir)),
        decreases dir,
    {
        match dir.kind {
            FsKind::Dir => {},
            _ => {
                assert(file_steps(dir_files(*dir)) =~= seq![]);
                return ;
            },
        }
        if !is_visible(dir.path.as_str()) {
            assert(file_steps(dir_files(*dir)) =~= seq![]);
            return ;
        }
        let ghost start = steps_of(out@);
        let n = dir.children.len();
        let mut i: usize = 0;
        while i < n
            invariant
                n == dir.children@.len(),
                i <= n,
                dir.kind == FsKind::Dir,
                steps_of(out@) =~= start + file_steps(files_under(dir.children@.take(i as int))),
            decreases n - i,
        {
            let child = &dir.children[i];
            let ghost before = steps_of(out@);
            proof {
                assert(dir.children@.take(i + 1).drop_last() =~= dir.children@.take(i as int));
                assert(dir.children@.take(i + 1).last() == *child);
            }
            if is_visible(child.path.as_str()) {
                match child.kind {
                    FsKind::File => {
                        push_file(out, child.path.clone());
                        proof {
                            lemma_file_steps_push(
                                files_under(dir.children@.take(i as int)),
                                seq![child.path@],
                            );
                        }
                    },
                    FsKind::Dir => {
                        assert(decreases_to!(*dir => dir.children));
                        assert(decreases_to!(dir.children => dir.children@));
                        DataHandler::list_files(child, out);
                        proof {
                            lemma_file_steps_push(
                                files_under(dir.children@.take(i as int)),
                                files_under(child.children@),
                            );
                        }
                    },
                    FsKind::Other => {},
                }
            }
            i = i + 1;
        }
        assert(dir.children@.take(n as int) =~= dir.children@);
    }

    /// Scans the home listing: each visible folder becomes a `Subject` step,
    /// followed by the `File` steps of a walk of that folder.
    pub fn scan_home(home: &Vec<FsEntry>) -> (r: Vec<ScanEvent>)
        ensures
            steps_of(r@) =~= home_steps(home@),
    {
        let mut out: Vec<ScanEvent> = Vec::new();
        let n = home.len();
        let mut i: usize = 0;
        while i < n
            invariant
                n == home@.len(),
                i <= n,
                steps_of(out@) =~= home_steps(home@.take(i as int)),
            decreases n - i,
        {
            let node = &home[i];
            proof {
                assert(home@.take(i + 1).drop_last() =~= home@.take(i as int));
                assert(home@.take(i + 1).last() == *node);
            }
            let is_dir = match node.kind {
                FsKind::Dir => true,
                _ => false,
            };
            if is_dir && is_visible(node.path.as_str()) {
                out.push(ScanEvent::Subject(node.path.clone()));
                DataHandler::list_files(node, &mut out);
            }
            i = i + 1;
        }
        assert(home@.take(n as int) =~= home@);
        out
    }
}

fn find_subject_index(ks: &Vec<Subject>, p: &String) -> (r: Option<usize>)
    ensures
        match r {
            Some(j) => j < ks@.len() && spec_same_path(ks@[j as int].path@, p@),
            None => forall|j: int| 0 <= j < ks@.len() ==> !spec_same_path(ks@[j].path@, p@),
        },
{
    let n = ks.len();
    let mut j: usize = 0;
    while j < n
        invariant
            n == ks@.len(),
            j <= n,
            forall|k: int| 0 <= k < j ==> !spec_same_path(ks@[k].path@, p@),
        decreases n - j,
    {
        if same_path(ks[j].path.as_str(), p.as_str()) {
            return Some(j);
        }
        j = j + 1;
    }
    None
}

fn find_entry_index(ke: &Vec<Entry>, p: &String) -> (r: Option<usize>)
    ensures
        match r {
            Some(j) => j < ke@.len() && spec_same_path(ke@[j as int].path@, p@),
            None => forall|j: int| 0 <= j < ke@.len() ==> !spec_same_path(ke@[j].path@, p@),
        },
{
    let n = ke.len();
    let mut j: usize = 0;
    while j < n
        invariant
            n == ke@.len(),
            j <= n,
            forall|k: int| 0 <= k < j ==> !spec_same_path(ke@[k].path@, p@),
        decreases n - j,
    {
        if same_path(ke[j].path.as_str(), p.as_str()) {
            return Some(j);
        }
        j = j + 1;
    }
    None
}

fn subject_flagged(s: &Subject, exists: bool) -> (r: Subject)
    ensures
        r@ == subject_with_exists(s@, exists),
{
    let mut c = s.duplicate();
    c.exists = exists;
    c
}

fn entry_flagged(e: &Entry, exists: bool) -> (r: Entry)
    ensures
        r@ == entry_with_exists(e@, exists),
{
    let mut c = e.duplicate();
    c.exists = exists;
    c
}

fn false_flags(n: usize) -> (r: Vec<bool>)
    ensures
        r@.len() == n,
        forall|j: int| 0 <= j < n ==> !r@[j],
{
    let mut v: Vec<bool> = Vec::new();
    let mut j: usize = 0;
    while j < n
        invariant
            j <= n,
            v@.len() == j,
            forall|k: int| 0 <= k < j ==> !v@[k],
        decreases n - j,
    {
        v.push(false);
        j = j + 1;
    }
    v
}

proof fn lemma_known_subject_unique(ks: Seq<SubjectView>, j: int)
    requires
        distinct_subject_paths(ks),
        0 <= j < ks.len(),
    ensures
        knows_subject_path(ks, ks[j].path),
        known_subject_at(ks, ks[j].path) == ks[j],
{
    assert(0 <= j < ks.len() && path_key(ks[j].path) == path_key(ks[j].path));
}

proof fn lemma_known_entry_unique(ke: Seq<EntryView>, j: int)
    requires
        distinct_entry_paths(ke),
        0 <= j < ke.len(),
    ensures
        knows_entry_path(ke, ke[j].path),
        known_entry_at(ke, ke[j].path) == ke[j],
{
    assert(0 <= j < ke.len() && path_key(ke[j].path) == path_key(ke[j].path));
}

/// One file step of a walk: the catalogue entry with the file's path, if
/// there is one not yet taken, is taken and marked present; otherwise a new
/// entry of the current subject, with the next fresh id, is made and
/// queued. Either way it goes into the output map.
fn take_or_make_entry(
    known_entries: &Vec<Entry>,
    taken: &mut Vec<bool>,
    output: &mut HashMap<u128, Entry>,
    pending: &mut Vec<Entry>,
    path: &String,
    current: u128,
    fresh: &Vec<u128>,
    used: &mut usize,
    Ghost(st): Ghost<ScanState>,
)
    requires
        distinct_entry_paths(entry_views(known_entries@)),
        old(taken)@.len() == known_entries@.len(),
        entry_map_view(old(output)@) == st.entries,
        entry_views(old(pending)@) == st.new_entries,
        taken_keys(entry_views(known_entries@), old(taken)@) == st.taken_entries,
        *old(used) == st.used,
        current == st.current,
        spec_file_name(path@) is Some,
        scan_step(seq![], entry_views(known_entries@), fresh@, st, ScanStep::File(path@)).used
            <= fresh@.len(),
    ensures
        ({
            let st2 = scan_step(seq![], entry_views(known_entries@), fresh@, st, ScanStep::File(path@));
            &&& final(taken)@.len() == old(taken)@.len()
            &&& entry_map_view(final(output)@) == st2.entries
            &&& entry_views(final(pending)@) == st2.new_entries
            &&& taken_keys(entry_views(known_entries@), final(taken)@) == st2.taken_entries
            &&& *final(used) == st2.used
        }),
{
    let ghost ke = entry_views(known_entries@);
    let ghost p = path@;
    let found = find_entry_index(known_entries, path);
    let mut matched = false;
    if let Some(j) = found {
        if !taken[j] {
            matched = true;
        }
    }
    proof {
        if let Some(j) = found {
            assert(knows_entry_path(ke, p)) by {
                assert(path_key(ke[j as int].path) == path_key(p));
            }
            assert(st.taken_entries.contains(path_key(p)) == taken@[j as int]) by {
                if st.taken_entries.contains(path_key(p)) {
                    let j2 = choose|j2: int|
                        0 <= j2 < ke.len() && j2 < taken@.len() && taken@[j2] && path_key(
                            #[trigger] ke[j2].path,
                        ) == path_key(p);
                    if j2 != j {
                        assert(path_key(ke[j2].path) != path_key(ke[j as int].path));
                    }
                }
                if taken@[j as int] {
                    assert(path_key(ke[j as int].path) == path_key(p));
                }
            }
        } else {
            if knows_entry_path(ke, p) {
                let k = choose|k: int| 0 <= k < ke.len() && path_key(ke[k].path) == path_key(p);
                assert(!spec_same_path(known_entries@[k].path@, p));
            }
        }
    }
    if matched {
        let j = found.unwrap();
        proof {
            lemma_known_entry_unique(ke, j as int);
            let i0 = choose|i: int| 0 <= i < ke.len() && path_key(ke[i].path) == path_key(p);
            if i0 != j {
                assert(path_key(ke[i0].path) != path_key(ke[j as int].path));
            }
        }
        let e = entry_flagged(&known_entries[j], true);
        let ghost old_taken = taken@;
        taken.set(j, true);
        let ghost old_output = output@;
        output.insert(e.id, e);
        proof {
            assert(entry_map_view(output@) =~= entry_map_view(old_output).insert(e.id, e@));
            assert(taken_keys(ke, taken@) =~= taken_keys(ke, old_taken).insert(path_key(p))) by {
                assert forall|k: PathKey| taken_keys(ke, taken@).contains(k) implies taken_keys(
                    ke,
                    old_taken,
                ).insert(path_key(p)).contains(k) by {
                    let j2 = choose|j2: int|
                        0 <= j2 < ke.len() && j2 < taken@.len() && taken@[j2] && path_key(
                            #[trigger] ke[j2].path,
                        ) == k;
                    if j2 != j {
                        assert(old_taken[j2] && path_key(ke[j2].path) == k);
                    }
                }
                assert forall|k: PathKey| taken_keys(ke, old_taken).insert(path_key(p)).contains(
                    k,
                ) implies taken_keys(ke, taken@).contains(k) by {
                    if k == path_key(p) {
                        assert(taken@[j as int] && path_key(ke[j as int].path) == k);
                    } else {
                        let j2 = choose|j2: int|
                            0 <= j2 < ke.len() && j2 < old_taken.len() && old_taken[j2] && path_key(
                                #[trigger] ke[j2].path,
                            ) == k;
                        assert(taken@[j2] && path_key(ke[j2].path) == k);
                    }
                }
            }
        }
    } else {
        assert(!(knows_entry_path(ke, p) && !st.taken_entries.contains(path_key(p))));
        let flen = fresh.len();
        assert(*used < flen);
        let e = Entry::with_id(fresh[*used], path.clone(), current, true);
        *used = *used + 1;
        let ghost old_pending = pending@;
        pending.push(e.duplicate());
        let ghost old_output = output@;
        output.insert(e.id, e);
        proof {
            assert(entry_map_view(output@) =~= entry_map_view(old_output).insert(e.id, e@));
            assert(entry_views(pending@) =~= entry_views(old_pending).push(e@));
        }
    }
}

impl DataHandler {
    /// Walks the folder `dir` of `subject`, depth first in listing order,
    /// as one part of a scan: every visible file under it (none unless
    /// `dir` is itself a visible folder) is a step of the scan. A file whose
    /// catalogue entry is still untaken takes it, marked present; any other
    /// file becomes a new entry of `subject`, named after the file, with
    /// the next of the `fresh` ids, and is queued in `pending`. Every entry
    /// reached goes into `output` under its id. `taken` marks the catalogue
    /// entries already taken, `used` counts the fresh ids already used.
    pub fn read_dir(
        known_entries: &Vec<Entry>,
        taken: &mut Vec<bool>,
        output: &mut HashMap<u128, Entry>,
        pending: &mut Vec<Entry>,
        dir: &FsEntry,
        subject: &Subject,
        fresh: &Vec<u128>,
        used: &mut usize,
    )
        requires
            distinct_entry_paths(entry_views(known_entries@)),
            old(taken)@.len() == known_entries@.len(),
            fresh@.len() >= dir_walk(
                entry_views(known_entries@),
                fresh@,
                walk_start(
                    entry_views(known_entries@),
                    old(taken)@,
                    entry_map_view(old(output)@),
                    entry_views(old(pending)@),
                    subject.id,
                    *old(used) as nat,
                ),
                *dir,
            ).used,
        ensures
            final(taken)@.len() == old(taken)@.len(),
            ({
                let w = dir_walk(
                    entry_views(known_entries@),
                    fresh@,
                    walk_start(
                        entry_views(known_entries@),
                        old(taken)@,
                        entry_map_view(old(output)@),
                        entry_views(old(pending)@),
                        subject.id,
                        *old(used) as nat,
                    ),
                    *dir,
                );
                &&& entry_map_view(final(output)@) == w.entries
                &&& entry_views(final(pending)@) == w.new_entries
                &&& taken_keys(entry_views(known_entries@), final(taken)@) == w.taken_entries
                &&& *final(used) == w.used
            }),
        decreases dir,
    {
        let ghost ke = entry_views(known_entries@);
        let ghost none: Seq<SubjectView> = seq![];
        let ghost st0 = walk_start(
            ke,
            taken@,
            entry_map_view(output@),
            entry_views(pending@),
            subject.id,
            *used as nat,
        );
        let ghost all = file_steps(dir_files(*dir));
        let ghost w = scan_from(none, ke, fresh@, st0, all);
        match dir.kind {
            FsKind::Dir => {},
            _ => {
                assert(all =~= seq![]);
                return ;
            },
        }
        if !is_visible(dir.path.as_str()) {
            assert(all =~= seq![]);
            return ;
        }
        let n = dir.children.len();
        let mut i: usize = 0;
        proof {
            assert(dir.children@.take(0) =~= seq![]);
            assert(files_under(dir.children@.take(0)) =~= seq![]);
            assert(file_steps(files_under(dir.children@.take(0))) =~= seq![]);
            assert(all == file_steps(files_under(dir.children@)));
            assert(scan_from(none, ke, fresh@, st0, seq![]) == st0);
            lemma_scan_from_used_grows(none, ke, fresh@, st0, all);
        }
        while i < n
            invariant
                n == dir.children@.len(),
                i <= n,
                dir.kind == FsKind::Dir,
                spec_is_visible(dir.path@),
                ke == entry_views(known_entries@),
                none == Seq::<SubjectView>::empty(),
                distinct_entry_paths(ke),
                taken@.len() == ke.len(),
                all == file_steps(files_under(dir.children@)),
                w == scan_from(none, ke, fresh@, st0, all),
                fresh@.len() >= w.used,
                st0.subjects == Map::<u128, SubjectView>::empty(),
                st0.new_subjects == Seq::<SubjectView>::empty(),
                st0.taken_subjects == Set::<PathKey>::empty(),
                st0.current == subject.id,
                ({
                    let st = scan_from(
                        none,
                        ke,
                        fresh@,
                        st0,
                        file_steps(files_under(dir.children@.take(i as int))),
                    );
                    &&& st == walk_start(
                        ke,
                        taken@,
                        entry_map_view(output@),
                        entry_views(pending@),
                        subject.id,
                        *used as nat,
                    )
                    &&& st.used <= w.used
                }),
            decreases n - i,
        {
            let child = &dir.children[i];
            let ghost before = file_steps(files_under(dir.children@.take(i as int)));
            let ghost st = scan_from(none, ke, fresh@, st0, before);
            let ghost rest = dir.children@.skip(i + 1);
            proof {
                assert(dir.children@.take(i + 1).drop_last() =~= dir.children@.take(i as int));
                assert(dir.children@.take(i + 1).last() == *child);
                assert(dir.children@ =~= dir.children@.take(i + 1) + rest);
                lemma_files_under_append(dir.children@.take(i + 1), rest);
                lemma_file_steps_push(files_under(dir.children@.take(i + 1)), files_under(rest));
                lemma_scan_from_split(
                    none,
                    ke,
                    fresh@,
                    st0,
                    file_steps(files_under(dir.children@.take(i + 1))),
                    file_steps(files_under(rest)),
                );
                lemma_scan_from_used_grows(
                    none,
                    ke,
                    fresh@,
                    scan_from(none, ke, fresh@, st0, file_steps(files_under(dir.children@.take(i + 1)))),
                    file_steps(files_under(rest)),
                );
            }
            if is_visible(child.path.as_str()) {
                match child.kind {
                    FsKind::File => {
                        proof {
                            lemma_file_steps_push(
                                files_under(dir.children@.take(i as int)),
                                seq![child.path@],
                            );
                            assert(file_steps(seq![child.path@]) =~= seq![ScanStep::File(child.path@)]);
                            let after = before + seq![ScanStep::File(child.path@)];
                            assert(after.drop_last() =~= before);
                        }
                        take_or_make_entry(
                            known_entries,
                            taken,
                            output,
                            pending,
                            &child.path,
                            subject.id,
                            fresh,
                            used,
                            Ghost(st),
                        );
                    },
                    FsKind::Dir => {
                        assert(decreases_to!(*dir => dir.children));
                        assert(decreases_to!(dir.children => dir.children@));
                        proof {
                            lemma_file_steps_push(
                                files_under(dir.children@.take(i as int)),
                                files_under(child.children@),
                            );
                            lemma_scan_from_split(
                                none,
                                ke,
                                fresh@,
                                st0,
                                before,
                                file_steps(files_under(child.children@)),
                            );
                        }
                        DataHandler::read_dir(
                            known_entries,
                            taken,
                            output,
                            pending,
                            child,
                            subject,
                            fresh,
                            used,
                        );
                    },
                    FsKind::Other => {
                        assert(files_under(dir.children@.take(i + 1)) =~= files_under(
                            dir.children@.take(i as int),
                        ));
                    },
                }
            } else {
                assert(files_under(dir.children@.take(i + 1)) =~= files_under(
                    dir.children@.take(i as int),
                ));
            }
            proof {
                let st2 = scan_from(
                    none,
                    ke,
                    fresh@,
                    st0,
                    file_steps(files_under(dir.children@.take(i + 1))),
                );
                let f2 = file_steps(files_under(dir.children@.take(i + 1)));
                assert forall|k: int| 0 <= k < f2.len() implies (#[trigger] f2[k]) is File by {}
                lemma_file_steps_agree(none, none, ke, fresh@, st0, st0, f2);
                assert(st2.subjects == st0.subjects && st2.new_subjects == st0.new_subjects);
                assert(st2.taken_subjects == st0.taken_subjects && st2.current == st0.current);
                assert(st0.subjects == Map::<u128, SubjectView>::empty());
                assert(st0.current == subject.id);
                assert(st2.entries == entry_map_view(output@));
                assert(st2.new_entries == entry_views(pending@));
                assert(st2.taken_entries == taken_keys(ke, taken@));
                assert(st2.used == *used as nat);
                assert(st2 == walk_start(
                    ke,
                    taken@,
                    entry_map_view(output@),
                    entry_views(pending@),
                    subject.id,
                    *used as nat,
                ));
            }
            i = i + 1;
        }
        assert(dir.children@.take(n as int) =~= dir.children@);
    }
}

impl DataHandler {
    /// Reconciles the known subjects and entries (at most one of each per
    /// path) with a walk of the home listing, as the scan `home_steps`
    /// describes it: each visible folder is matched with its catalogue
    /// subject or becomes a new one, and its files are walked with
    /// `read_dir`; then the catalogue subjects and entries not reached are
    /// added, marked missing. New subjects and entries get the ids of
    /// `fresh` in order; `fresh` must hold as many ids as are needed.
    /// A folder is walked under the paths of the listing, also where its
    /// catalogue row spells the same path otherwise (`/h//maths` for
    /// `/h/maths`): new entries then carry the listing's spelling.
    pub fn reconcile(
        known_subjects: &Vec<Subject>,
        known_entries: &Vec<Entry>,
        home: &Vec<FsEntry>,
        fresh: &Vec<u128>,
    ) -> (r: Reconciled)
        requires
            distinct_subject_paths(subject_views(known_subjects@)),
            distinct_entry_paths(entry_views(known_entries@)),
            fresh@.len() >= fresh_needed(
                subject_views(known_subjects@),
                entry_views(known_entries@),
                home_steps(home@),
            ),
        ensures
            r@ == reconcile_spec(
                subject_views(known_subjects@),
                entry_views(known_entries@),
                home_steps(home@),
                fresh@,
            ),
            keyed_by_id(r@.subjects, r@.entries),
    {
        let ghost ks = subject_views(known_subjects@);
        let ghost ke = entry_views(known_entries@);
        let ghost steps = home_steps(home@);
        let ghost none: Seq<SubjectView> = seq![];
        let mut subjects: HashMap<u128, Subject> = HashMap::new();
        let mut entries: HashMap<u128, Entry> = HashMap::new();
        let mut new_subjects: Vec<Subject> = Vec::new();
        let mut new_entries: Vec<Entry> = Vec::new();
        let mut taken_s = false_flags(known_subjects.len());
        let mut taken_e = false_flags(known_entries.len());
        let mut current: u128 = 0;
        let mut used: usize = 0;
        let n = home.len();
        let mut i: usize = 0;
        proof {
            assert(home@.take(0) =~= seq![]);
            assert(home_steps(home@.take(0)) =~= seq![]);
            assert(subject_map_view(subjects@) =~= Map::empty());
            assert(entry_map_view(entries@) =~= Map::empty());
            assert(subject_views(new_subjects@) =~= seq![]);
            assert(entry_views(new_entries@) =~= seq![]);
            assert(taken_keys(ke, taken_e@) =~= Set::empty());
            lemma_scan_shape_independent_of_ids(ks, ke, steps, fresh@, seq![]);
        }
        while i < n
            invariant
                n == home@.len(),
                i <= n,
                ks == subject_views(known_subjects@),
                ke == entry_views(known_entries@),
                steps == home_steps(home@),
                none == Seq::<SubjectView>::empty(),
                distinct_subject_paths(ks),
                distinct_entry_paths(ke),
                fresh@.len() >= scan_fold(ks, ke, steps, fresh@).used,
                taken_s@.len() == ks.len(),
                taken_e@.len() == ke.len(),
                ({
                    let st = scan_fold(ks, ke, home_steps(home@.take(i as int)), fresh@);
                    &&& subject_map_view(subjects@) == st.subjects
                    &&& entry_map_view(entries@) == st.entries
                    &&& subject_views(new_subjects@) == st.new_subjects
                    &&& entry_views(new_entries@) == st.new_entries
                    &&& forall|j: int|
                        0 <= j < ks.len() ==> taken_s@[j] == st.taken_subjects.contains(
                            path_key(#[trigger] ks[j].path),
                        )
                    &&& taken_keys(ke, taken_e@) == st.taken_entries
                    &&& current == st.current
                    &&& used == st.used
                    &&& st.used <= scan_fold(ks, ke, steps, fresh@).used
                }),
            decreases n - i,
        {
            let node = &home[i];
            let ghost before = home_steps(home@.take(i as int));
            let ghost st = scan_fold(ks, ke, before, fresh@);
            let ghost rest = home@.skip(i + 1);
            proof {
                assert(home@.take(i + 1).drop_last() =~= home@.take(i as int));
                assert(home@.take(i + 1).last() == *node);
                assert(home@ =~= home@.take(i + 1) + rest);
                lemma_home_steps_append(home@.take(i + 1), rest);
                lemma_scan_split(ks, ke, fresh@, home_steps(home@.take(i + 1)), home_steps(rest));
                lemma_scan_from_used_grows(
                    ks,
                    ke,
                    fresh@,
                    scan_fold(ks, ke, home_steps(home@.take(i + 1)), fresh@),
                    home_steps(rest),
                );
            }
            let is_subject = match node.kind {
                FsKind::Dir => is_visible(node.path.as_str()),
                _ => false,
            };
            if is_subject {
                let p = &node.path;
                let ghost files = file_steps(files_under(node.children@));
                let ghost st_s = scan_step(ks, ke, fresh@, st, ScanStep::Subject(p@));
                proof {
                    assert(home_steps(home@.take(i + 1)) =~= before + (seq![ScanStep::Subject(p@)]
                        + files));
                    lemma_scan_split(ks, ke, fresh@, before, seq![ScanStep::Subject(p@)] + files);
                    lemma_scan_from_split(ks, ke, fresh@, st, seq![ScanStep::Subject(p@)], files);
                    assert(seq![ScanStep::Subject(p@)].drop_last() =~= seq![]);
                    assert(scan_from(ks, ke, fresh@, st, seq![]) == st);
                    assert(seq![ScanStep::Subject(p@)].last() == ScanStep::Subject(p@));
                    assert(scan_from(ks, ke, fresh@, st, seq![ScanStep::Subject(p@)]) == st_s);
                    lemma_scan_from_used_grows(ks, ke, fresh@, st_s, files);
                    lemma_files_under_visible(node.children@);
                    assert(spec_file_name(p@) is Some);
                }
                let found = find_subject_index(known_subjects, p);
                let mut matched = false;
                if let Some(j) = found {
                    if !taken_s[j] {
                        matched = true;
                    }
                }
                let subject;
                if matched {
                    let j = found.unwrap();
                    proof {
                        lemma_known_subject_unique(ks, j as int);
                    }
                    let s = subject_flagged(&known_subjects[j], true);
                    taken_s.set(j, true);
                    current = s.id;
                    subject = s.duplicate();
                    let ghost old_subjects = subjects@;
                    subjects.insert(s.id, s);
                    proof {
                        assert(subject_map_view(subjects@) =~= subject_map_view(old_subjects).insert(
                            s.id,
                            s@,
                        ));
                        assert forall|k: int| 0 <= k < ks.len() implies taken_s@[k]
                            == st_s.taken_subjects.contains(path_key(#[trigger] ks[k].path)) by {
                            if k != j {
                                assert(path_key(ks[k].path) != path_key(ks[j as int].path));
                            }
                        }
                    }
                } else {
                    proof {
                        if knows_subject_path(ks, p@) {
                            let k = choose|k: int|
                                0 <= k < ks.len() && path_key(ks[k].path) == path_key(p@);
                            assert(found is Some);
                            if found.unwrap() != k {
                                assert(path_key(ks[k].path) != path_key(
                                    ks[found.unwrap() as int].path,
                                ));
                            }
                        }
                    }
                    assert(!(knows_subject_path(ks, p@) && !st.taken_subjects.contains(
                        path_key(p@),
                    )));
                    let flen = fresh.len();
                    assert(used < flen);
                    let s = Subject::with_id(fresh[used], p.clone(), None, true);
                    used = used + 1;
                    current = s.id;
                    subject = s.duplicate();
                    new_subjects.push(s.duplicate());
                    let ghost old_subjects = subjects@;
                    subjects.insert(s.id, s);
                    proof {
                        assert(subject_map_view(subjects@) =~= subject_map_view(old_subjects).insert(
                            s.id,
                            s@,
                        ));
                        assert(subject_views(new_subjects@) =~= st.new_subjects.push(s@));
                    }
                }
                let ghost ws = walk_start(
                    ke,
                    taken_e@,
                    entry_map_view(entries@),
                    entry_views(new_entries@),
                    subject.id,
                    used as nat,
                );
                proof {
                    assert(subject.id == st_s.current);
                    assert(files == file_steps(dir_files(*node)));
                    assert forall|k: int| 0 <= k < files.len() implies (#[trigger] files[k]) is File by {}
                    lemma_file_steps_agree(ks, none, ke, fresh@, st_s, ws, files);
                }
                DataHandler::read_dir(
                    known_entries,
                    &mut taken_e,
                    &mut entries,
                    &mut new_entries,
                    node,
                    &subject,
                    fresh,
                    &mut used,
                );
            } else {
                proof {
                    assert(home_steps(home@.take(i + 1)) =~= before);
                }
            }
            i = i + 1;
        }
        proof {
            assert(home@.take(n as int) =~= home@);
            let st = scan_fold(ks, ke, steps, fresh@);
            assert forall|k: int| 0 <= k < ke.len() implies taken_e@[k] == st.taken_entries.contains(
                path_key(#[trigger] ke[k].path),
            ) by {
                if st.taken_entries.contains(path_key(ke[k].path)) {
                    let j2 = choose|j2: int|
                        0 <= j2 < ke.len() && j2 < taken_e@.len() && taken_e@[j2] && path_key(
                            #[trigger] ke[j2].path,
                        ) == path_key(ke[k].path);
                    if j2 != k {
                        assert(path_key(ke[j2].path) != path_key(ke[k].path));
                    }
                }
                if taken_e@[k] {
                    assert(taken_keys(ke, taken_e@).contains(path_key(ke[k].path)));
                }
            }
        }
        let ghost st = scan_fold(ks, ke, steps, fresh@);
        let ghost scanned_subjects = subject_map_view(subjects@);
        let ghost scanned_entries = entry_map_view(entries@);
        let m = known_subjects.len();
        let mut j: usize = 0;
        proof {
            assert(ks.take(0) =~= seq![]);
        }
        while j < m
            invariant
                m == ks.len(),
                j <= m,
                ks == subject_views(known_subjects@),
                taken_s@.len() == ks.len(),
                forall|k: int|
                    0 <= k < ks.len() ==> taken_s@[k] == st.taken_subjects.contains(
                        path_key(#[trigger] ks[k].path),
                    ),
                subject_map_view(subjects@) == add_missing_subjects(
                    ks.take(j as int),
                    st.taken_subjects,
                    scanned_subjects,
                ),
            decreases m - j,
        {
            proof {
                assert(ks.take(j + 1).drop_last() =~= ks.take(j as int));
                assert(ks.take(j + 1).last() == ks[j as int]);
            }
            if !taken_s[j] {
                let s = subject_flagged(&known_subjects[j], false);
                let ghost old_subjects = subjects@;
                subjects.insert(s.id, s);
                proof {
                    assert(subject_map_view(subjects@) =~= subject_map_view(old_subjects).insert(
                        s.id,
                        s@,
                    ));
                }
            }
            j = j + 1;
        }
        proof {
            assert(ks.take(m as int) =~= ks);
        }
        let me = known_entries.len();
        let mut j: usize = 0;
        proof {
            assert(ke.take(0) =~= seq![]);
        }
        while j < me
            invariant
                me == ke.len(),
                j <= me,
                ke == entry_views(known_entries@),
                taken_e@.len() == ke.len(),
                forall|k: int|
                    0 <= k < ke.len() ==> taken_e@[k] == st.taken_entries.contains(
                        path_key(#[trigger] ke[k].path),
                    ),
                entry_map_view(entries@) == add_missing_entries(
                    ke.take(j as int),
                    st.taken_entries,
                    scanned_entries,
                ),
            decreases me - j,
        {
            proof {
                assert(ke.take(j + 1).drop_last() =~= ke.take(j as int));
                assert(ke.take(j + 1).last() == ke[j as int]);
            }
            if !taken_e[j] {
                let e = entry_flagged(&known_entries[j], false);
                let ghost old_entries = entries@;
                entries.insert(e.id, e);
                proof {
                    assert(entry_map_view(entries@) =~= entry_map_view(old_entries).insert(
                        e.id,
                        e@,
                    ));
                }
            }
            j = j + 1;
        }
        proof {
            assert(ke.take(me as int) =~= ke);
        }
        proof {
            law_reconciled_keyed_by_id(ks, ke, steps, fresh@);
        }
        Reconciled { data: DataHandler { subjects, entries }, new_subjects, new_entries }
    }
}


/// A subject row is live when no later row has the same path, component by
/// component (a later row for a path replaces an earlier one).
pub open spec fn subject_row_live(rows: Seq<DBSubjectView>, i: int) -> bool {
    forall|j: int| i < j < rows.len() ==> !spec_same_path(#[trigger] rows[j].path, rows[i].path)
}

pub open spec fn entry_row_live(rows: Seq<DBEntryView>, i: int) -> bool {
    forall|j: int| i < j < rows.len() ==> !spec_same_path(#[trigger] rows[j].path, rows[i].path)
}

/// The live rows among the first `n`, in catalogue order.
pub open spec fn live_subject_rows(rows: Seq<DBSubjectView>, n: int) -> Seq<DBSubjectView>
    decreases n,
{
    if n <= 0 {
        seq![]
    } else {
        live_subject_rows(rows, n - 1) + if subject_row_live(rows, n - 1) {
            seq![rows[n - 1]]
        } else {
            seq![]
        }
    }
}

pub open spec fn live_entry_rows(rows: Seq<DBEntryView>, n: int) -> Seq<DBEntryView>
    decreases n,
{
    if n <= 0 {
        seq![]
    } else {
        live_entry_rows(rows, n - 1) + if entry_row_live(rows, n - 1) {
            seq![rows[n - 1]]
        } else {
            seq![]
        }
    }
}

pub open spec fn subject_row_views(rows: Seq<DBSubject>) -> Seq<DBSubjectView> {
    rows.map_values(|r: DBSubject| r@)
}

pub open spec fn entry_row_views(rows: Seq<DBEntry>) -> Seq<DBEntryView> {
    rows.map_values(|r: DBEntry| r@)
}

/// The live subject rows of the catalogue.
pub open spec fn live_subjects_of(rows: Seq<DBSubject>) -> Seq<DBSubjectView> {
    live_subject_rows(subject_row_views(rows), rows.len() as int)
}

/// The live entry rows of the catalogue.
pub open spec fn live_entries_of(rows: Seq<DBEntry>) -> Seq<DBEntryView> {
    live_entry_rows(entry_row_views(rows), rows.len() as int)
}

/// Every live subject row has an id that parses.
pub open spec fn subject_rows_parse(live: Seq<DBSubjectView>) -> bool {
    forall|i: int| 0 <= i < live.len() ==> (#[trigger] spec_parse_uuid(live[i].id)) is Some
}

/// Every live entry row has an id and a parent id that parse.
pub open spec fn entry_rows_parse(live: Seq<DBEntryView>) -> bool {
    forall|i: int|
        0 <= i < live.len() ==> (#[trigger] spec_parse_uuid(live[i].id)) is Some
            && spec_parse_uuid(live[i].parent) is Some
}

/// The subjects that the live rows describe (to be confirmed by the scan).
pub open spec fn known_subjects_of(live: Seq<DBSubjectView>) -> Seq<SubjectView> {
    live.map_values(|r: DBSubjectView| subject_from_row(r, true))
}

pub open spec fn known_entries_of(live: Seq<DBEntryView>) -> Seq<EntryView> {
    live.map_values(|r: DBEntryView| entry_from_row(r, true))
}

pub(crate) proof fn lemma_live_subject_rows_distinct(rows: Seq<DBSubjectView>, n: int)
    requires
        0 <= n <= rows.len(),
    ensures
        forall|i: int, j: int|
            0 <= i < live_subject_rows(rows, n).len() && 0 <= j < live_subject_rows(
                rows,
                n,
            ).len() && i != j ==> path_key(live_subject_rows(rows, n)[i].path) != path_key(
                live_subject_rows(rows, n)[j].path,
            ),
        forall|i: int, j: int|
            0 <= i < live_subject_rows(rows, n).len() && n <= j < rows.len()
                ==> path_key(#[trigger] live_subject_rows(rows, n)[i].path) != path_key(
                #[trigger] rows[j].path,
            ),
    decreases n,
{
    if n > 0 {
        lemma_live_subject_rows_distinct(rows, n - 1);
        let prev = live_subject_rows(rows, n - 1);
        let cur = live_subject_rows(rows, n);
        if subject_row_live(rows, n - 1) {
            assert(cur =~= prev.push(rows[n - 1]));
            assert forall|i: int, j: int|
                0 <= i < cur.len() && n <= j < rows.len() implies path_key(#[trigger] cur[i].path)
                != path_key(#[trigger] rows[j].path) by {
                if i < prev.len() {
                    assert(cur[i] == prev[i]);
                } else {
                    assert(cur[i] == rows[n - 1]);
                }
            }
            assert forall|i: int, j: int|
                0 <= i < cur.len() && 0 <= j < cur.len() && i != j implies path_key(cur[i].path)
                != path_key(cur[j].path) by {
                if i < prev.len() && j < prev.len() {
                } else if i < prev.len() {
                    assert(cur[j] == rows[n - 1]);
                    assert(path_key(prev[i].path) != path_key(rows[n - 1].path));
                } else {
                    assert(cur[i] == rows[n - 1]);
                    assert(path_key(prev[j].path) != path_key(rows[n - 1].path));
                }
            }
        } else {
            assert(cur =~= prev);
        }
    }
}

pub(crate) proof fn lemma_live_entry_rows_distinct(rows: Seq<DBEntryView>, n: int)
    requires
        0 <= n <= rows.len(),
    ensures
        forall|i: int, j: int|
            0 <= i < live_entry_rows(rows, n).len() && 0 <= j < live_entry_rows(rows, n).len()
                && i != j ==> path_key(live_entry_rows(rows, n)[i].path) != path_key(
                live_entry_rows(rows, n)[j].path,
            ),
        forall|i: int, j: int|
            0 <= i < live_entry_rows(rows, n).len() && n <= j < rows.len()
                ==> path_key(#[trigger] live_entry_rows(rows, n)[i].path) != path_key(
                #[trigger] rows[j].path,
            ),
    decreases n,
{
    if n > 0 {
        lemma_live_entry_rows_distinct(rows, n - 1);
        let prev = live_entry_rows(rows, n - 1);
        let cur = live_entry_rows(rows, n);
        if entry_row_live(rows, n - 1) {
            assert(cur =~= prev.push(rows[n - 1]));
            assert forall|i: int, j: int|
                0 <= i < cur.len() && n <= j < rows.len() implies path_key(#[trigger] cur[i].path)
                != path_key(#[trigger] rows[j].path) by {
                if i < prev.len() {
                    assert(cur[i] == prev[i]);
                } else {
                    assert(cur[i] == rows[n - 1]);
                }
            }
            assert forall|i: int, j: int|
                0 <= i < cur.len() && 0 <= j < cur.len() && i != j implies path_key(cur[i].path)
                != path_key(cur[j].path) by {
                if i < prev.len() && j < prev.len() {
                } else if i < prev.len() {
                    assert(cur[j] == rows[n - 1]);
                    assert(path_key(prev[i].path) != path_key(rows[n - 1].path));
                } else {
                    assert(cur[i] == rows[n - 1]);
                    assert(path_key(prev[j].path) != path_key(rows[n - 1].path));
                }
            }
        } else {
            assert(cur =~= prev);
        }
    }
}

/// The known subjects of the live rows have distinct paths.
pub proof fn lemma_known_subjects_distinct(rows: Seq<DBSubject>)
    ensures
        distinct_subject_paths(known_subjects_of(live_subjects_of(rows))),
{
    lemma_live_subject_rows_distinct(subject_row_views(rows), rows.len() as int);
}

/// The known entries of the live rows have distinct paths.
pub proof fn lemma_known_entries_distinct(rows: Seq<DBEntry>)
    ensures
        distinct_entry_paths(known_entries_of(live_entries_of(rows))),
{
    lemma_live_entry_rows_distinct(entry_row_views(rows), rows.len() as int);
}

fn subject_row_is_live(rows: &Vec<DBSubject>, i: usize) -> (r: bool)
    requires
        i < rows@.len(),
    ensures
        r == subject_row_live(subject_row_views(rows@), i as int),
{
    let n = rows.len();
    let mut j = i + 1;
    while j < n
        invariant
            n == rows@.len(),
            i < j <= n,
            forall|k: int| i < k < j ==> !spec_same_path(rows@[k].path@, rows@[i as int].path@),
        decreases n - j,
    {
        if same_path(rows[j].path.as_str(), rows[i].path.as_str()) {
            proof {
                assert(subject_row_views(rows@)[j as int] == rows@[j as int]@);
                assert(subject_row_views(rows@)[i as int] == rows@[i as int]@);
                assert(spec_same_path(subject_row_views(rows@)[j as int].path, subject_row_views(rows@)[i as int].path));
            }
            return false;
        }
        j = j + 1;
    }
    true
}

fn entry_row_is_live(rows: &Vec<DBEntry>, i: usize) -> (r: bool)
    requires
        i < rows@.len(),
    ensures
        r == entry_row_live(entry_row_views(rows@), i as int),
{
    let n = rows.len();
    let mut j = i + 1;
    while j < n
        invariant
            n == rows@.len(),
            i < j <= n,
            forall|k: int| i < k < j ==> !spec_same_path(rows@[k].path@, rows@[i as int].path@),
        decreases n - j,
    {
        if same_path(rows[j].path.as_str(), rows[i].path.as_str()) {
            proof {
                assert(entry_row_views(rows@)[j as int] == rows@[j as int]@);
                assert(entry_row_views(rows@)[i as int] == rows@[i as int]@);
                assert(spec_same_path(entry_row_views(rows@)[j as int].path, entry_row_views(rows@)[i as int].path));
            }
            return false;
        }
        j = j + 1;
    }
    true
}

impl DataHandler {
    /// The subjects described by the live catalogue rows (a later row for a
    /// path replaces an earlier one), or `None` when one of their ids does
    /// not parse.
    pub fn known_subjects(rows: &Vec<DBSubject>) -> (r: Option<Vec<Subject>>)
        ensures
            match r {
                Some(v) => subject_rows_parse(live_subjects_of(rows@)) && subject_views(v@)
                    == known_subjects_of(live_subjects_of(rows@)),
                None => !subject_rows_parse(live_subjects_of(rows@)),
            },
    {
        let ghost rv = subject_row_views(rows@);
        let n = rows.len();
        let mut out: Vec<Subject> = Vec::new();
        let mut i: usize = 0;
        while i < n
            invariant
                n == rows@.len(),
                i <= n,
                rv == subject_row_views(rows@),
                subject_rows_parse(live_subject_rows(rv, i as int)),
                subject_views(out@) == known_subjects_of(live_subject_rows(rv, i as int)),
            decreases n - i,
        {
            let ghost prev = live_subject_rows(rv, i as int);
            if subject_row_is_live(rows, i) {
                let ghost cur = live_subject_rows(rv, i + 1);
                assert(cur =~= prev.push(rv[i as int]));
                assert(rv[i as int] == rows@[i as int]@);
                match Subject::try_from_db(&rows[i], true) {
                    Some(s) => {
                        let ghost old_out = out@;
                        out.push(s);
                        assert(out@ == old_out.push(s));
                        assert(subject_views(old_out).len() == old_out.len());
                        assert(old_out.len() == prev.len());
                        assert(cur.len() == prev.len() + 1);
                        assert(subject_views(out@)[out@.len() - 1] == subject_from_row(rv[i as int], true));
                        assert(known_subjects_of(cur)[out@.len() - 1] == subject_from_row(rv[i as int], true));
                        assert(subject_views(out@).len() == known_subjects_of(cur).len());
                        assert forall|k: int| 0 <= k < old_out.len() implies subject_views(out@)[k] == known_subjects_of(cur)[k] by {
                            assert(subject_views(out@)[k] == subject_views(old_out)[k]);
                            assert(cur[k] == prev[k]);
                        }
                        assert(subject_views(out@) =~= known_subjects_of(cur));
                    },
                    None => {
                        assert(cur[cur.len() - 1] == rv[i as int]);
                        let n2 = rows.len();
                        proof {
                            lemma_live_prefix_subjects(rv, i + 1, n2 as int);
                            let full = live_subject_rows(rv, n2 as int);
                            assert(full[cur.len() - 1] == rv[i as int]);
                            assert(spec_parse_uuid(full[cur.len() - 1].id) is None);
                        }
                        return None;
                    },
                }
            } else {
                assert(live_subject_rows(rv, i + 1) =~= prev);
            }
            i = i + 1;
        }
        Some(out)
    }

    /// The entries described by the live catalogue rows (a later row for a
    /// path replaces an earlier one), or `None` when one of their ids does
    /// not parse.
    pub fn known_entries(rows: &Vec<DBEntry>) -> (r: Option<Vec<Entry>>)
        ensures
            match r {
                Some(v) => entry_rows_parse(live_entries_of(rows@)) && entry_views(v@)
                    == known_entries_of(live_entries_of(rows@)),
                None => !entry_rows_parse(live_entries_of(rows@)),
            },
    {
        let ghost rv = entry_row_views(rows@);
        let n = rows.len();
        let mut out: Vec<Entry> = Vec::new();
        let mut i: usize = 0;
        while i < n
            invariant
                n == rows@.len(),
                i <= n,
                rv == entry_row_views(rows@),
                entry_rows_parse(live_entry_rows(rv, i as int)),
                entry_views(out@) == known_entries_of(live_entry_rows(rv, i as int)),
            decreases n - i,
        {
            let ghost prev = live_entry_rows(rv, i as int);
            if entry_row_is_live(rows, i) {
                let ghost cur = live_entry_rows(rv, i + 1);
                assert(cur =~= prev.push(rv[i as int]));
                assert(rv[i as int] == rows@[i as int]@);
                match Entry::try_from_db(&rows[i], true) {
                    Some(e) => {
                        let ghost old_out = out@;
                        out.push(e);
                        assert(out@ == old_out.push(e));
                        assert(entry_views(old_out).len() == old_out.len());
                        assert(old_out.len() == prev.len());
                        assert(cur.len() == prev.len() + 1);
                        assert(entry_views(out@)[out@.len() - 1] == entry_from_row(rv[i as int], true));
                        assert(known_entries_of(cur)[out@.len() - 1] == entry_from_row(rv[i as int], true));
                        assert forall|k: int| 0 <= k < old_out.len() implies entry_views(out@)[k] == known_entries_of(cur)[k] by {
                            assert(entry_views(out@)[k] == entry_views(old_out)[k]);
                            assert(cur[k] == prev[k]);
                        }
                        assert(entry_views(out@) =~= known_entries_of(cur));
                    },
                    None => {
                        assert(cur[cur.len() - 1] == rv[i as int]);
                        let n2 = rows.len();
                        proof {
                            lemma_live_prefix_entries(rv, i + 1, n2 as int);
                            let full = live_entry_rows(rv, n2 as int);
                            assert(full[cur.len() - 1] == rv[i as int]);
                            assert(spec_parse_uuid(full[cur.len() - 1].id) is None
                                || spec_parse_uuid(full[cur.len() - 1].parent) is None);
                        }
                        return None;
                    },
                }
            } else {
                assert(live_entry_rows(rv, i + 1) =~= prev);
            }
            i = i + 1;
        }
        Some(out)
    }
}

proof fn lemma_live_prefix_subjects(rv: Seq<DBSubjectView>, a: int, b: int)
    requires
        0 <= a <= b <= rv.len(),
    ensures
        live_subject_rows(rv, b).len() >= live_subject_rows(rv, a).len(),
        forall|i: int|
            0 <= i < live_subject_rows(rv, a).len() ==> #[trigger] live_subject_rows(rv, b)[i]
                == live_subject_rows(rv, a)[i],
    decreases b - a,
{
    if a < b {
        lemma_live_prefix_subjects(rv, a, b - 1);
    }
}

proof fn lemma_live_prefix_entries(rv: Seq<DBEntryView>, a: int, b: int)
    requires
        0 <= a <= b <= rv.len(),
    ensures
        live_entry_rows(rv, b).len() >= live_entry_rows(rv, a).len(),
        forall|i: int|
            0 <= i < live_entry_rows(rv, a).len() ==> #[trigger] live_entry_rows(rv, b)[i]
                == live_entry_rows(rv, a)[i],
    decreases b - a,
{
    if a < b {
        lemma_live_prefix_entries(rv, a, b - 1);
    }
}


impl DataHandler {
    /// How many fresh ids a reconciliation of these known subjects and
    /// entries with these scan steps uses.
    pub fn count_new_items(
        known_subjects: &Vec<Subject>,
        known_entries: &Vec<Entry>,
        events: &Vec<ScanEvent>,
    ) -> (r: usize)
        requires
            distinct_subject_paths(subject_views(known_subjects@)),
            distinct_entry_paths(entry_views(known_entries@)),
        ensures
            r == fresh_needed(
                subject_views(known_subjects@),
                entry_views(known_entries@),
                steps_of(events@),
            ),
    {
        let ghost ks = subject_views(known_subjects@);
        let ghost ke = entry_views(known_entries@);
        let ghost steps = steps_of(events@);
        let ghost none: Seq<u128> = seq![];
        let mut taken_s = false_flags(known_subjects.len());
        let mut taken_e = false_flags(known_entries.len());
        let mut used: usize = 0;
        let n = events.len();
        let mut i: usize = 0;
        proof {
            assert(steps.take(0) =~= seq![]);
        }
        while i < n
            invariant
                n == events@.len(),
                i <= n,
                ks == subject_views(known_subjects@),
                ke == entry_views(known_entries@),
                steps == steps_of(events@),
                distinct_subject_paths(ks),
                distinct_entry_paths(ke),
                taken_s@.len() == ks.len(),
                taken_e@.len() == ke.len(),
                used <= i,
                ({
                    let st = scan_fold(ks, ke, steps.take(i as int), none);
                    &&& forall|j: int|
                        0 <= j < ks.len() ==> taken_s@[j] == st.taken_subjects.contains(
                            path_key(#[trigger] ks[j].path),
                        )
                    &&& forall|j: int|
                        0 <= j < ke.len() ==> taken_e@[j] == st.taken_entries.contains(
                            path_key(#[trigger] ke[j].path),
                        )
                    &&& used == st.used
                }),
            decreases n - i,
        {
            proof {
                assert(steps.take(i + 1).drop_last() =~= steps.take(i as int));
                assert(steps.take(i + 1).last() == steps[i as int]);
                assert(steps[i as int] == events@[i as int]@);
            }
            let ghost st2 = scan_fold(ks, ke, steps.take(i + 1), none);
            match &events[i] {
                ScanEvent::Subject(p) => {
                    let found = find_subject_index(known_subjects, p);
                    let mut matched = false;
                    if let Some(j) = found {
                        if !taken_s[j] {
                            matched = true;
                        }
                    }
                    if matched {
                        let j = found.unwrap();
                        proof {
                            lemma_known_subject_unique(ks, j as int);
                        }
                        taken_s.set(j, true);
                        proof {
                            assert forall|k: int| 0 <= k < ks.len() implies taken_s@[k]
                                == st2.taken_subjects.contains(path_key(#[trigger] ks[k].path)) by {
                                if k != j {
                                    assert(path_key(ks[k].path) != path_key(ks[j as int].path));
                                }
                            }
                        }
                    } else {
                        proof {
                            if knows_subject_path(ks, p@) {
                                let k = choose|k: int| 0 <= k < ks.len() && path_key(ks[k].path) == path_key(p@);
                                if found.unwrap() != k {
                                    assert(path_key(ks[k].path) != path_key(ks[found.unwrap() as int].path));
                                }
                            }
                        }
                        used = used + 1;
                    }
                },
                ScanEvent::File(p) => {
                    let found = find_entry_index(known_entries, p);
                    let mut matched = false;
                    if let Some(j) = found {
                        if !taken_e[j] {
                            matched = true;
                        }
                    }
                    if matched {
                        let j = found.unwrap();
                        proof {
                            lemma_known_entry_unique(ke, j as int);
                        }
                        taken_e.set(j, true);
                        proof {
                            assert forall|k: int| 0 <= k < ke.len() implies taken_e@[k]
                                == st2.taken_entries.contains(path_key(#[trigger] ke[k].path)) by {
                                if k != j {
                                    assert(path_key(ke[k].path) != path_key(ke[j as int].path));
                                }
                            }
                        }
                    } else {
                        proof {
                            if knows_entry_path(ke, p@) {
                                let k = choose|k: int| 0 <= k < ke.len() && path_key(ke[k].path) == path_key(p@);
                                if found.unwrap() != k {
                                    assert(path_key(ke[k].path) != path_key(ke[found.unwrap() as int].path));
                                }
                            }
                        }
                        used = used + 1;
                    }
                },
            }
            i = i + 1;
        }
        proof {
            assert(steps.take(n as int) =~= steps);
        }
        used
    }

    /// Reconciles known subjects and entries (at most one per path) with the
    /// scan of `home`, drawing the fresh ids it needs in one batch.
    fn reconcile_with_new_ids(
        known_subjects: &Vec<Subject>,
        known_entries: &Vec<Entry>,
        home: &Vec<FsEntry>,
        Ghost(rows_s): Ghost<Seq<DBSubjectView>>,
        Ghost(rows_e): Ghost<Seq<DBEntryView>>,
    ) -> (r: Reconciled)
        requires
            subject_views(known_subjects@) == known_subjects_of(
                live_subject_rows(rows_s, rows_s.len() as int),
            ),
            entry_views(known_entries@) == known_entries_of(
                live_entry_rows(rows_e, rows_e.len() as int),
            ),
            distinct_subject_paths(subject_views(known_subjects@)),
            distinct_entry_paths(entry_views(known_entries@)),
        ensures
            keyed_by_id(r@.subjects, r@.entries),
            exists|fresh: Seq<u128>|
                #[trigger] init_outcome(rows_s, rows_e, home_steps(home@), fresh, r@),
    {
        let ghost ks = subject_views(known_subjects@);
        let ghost ke = entry_views(known_entries@);
        let events = DataHandler::scan_home(home);
        let needed = DataHandler::count_new_items(known_subjects, known_entries, &events);
        let fresh = new_uuid_v7_batch(needed);
        let res = DataHandler::reconcile(known_subjects, known_entries, home, &fresh);
        proof {
            let steps = home_steps(home@);
            if catalogue_ids_apart(ks, ke, fresh@) && step_paths_distinct(steps) {
                lemma_increasing_ids_fresh(ks, ke, fresh@);
                law_reconcile_keeps_catalogue_and_finds_everything(ks, ke, steps, fresh@);
                law_reconcile_again_finds_nothing_new(ks, ke, steps, fresh@);
                if new_ids_read_back(res@) {
                    law_written_rows_read_back_to_a_fixpoint(rows_s, rows_e, steps, fresh@);
                    if subject_row_paths_distinct(rows_s) && entry_row_paths_distinct(rows_e) {
                        assert forall|rows_s2: Seq<DBSubjectView>, rows_e2: Seq<DBEntryView>|
                            holds_written_subject_rows(rows_s2, rows_s, res@)
                                && holds_written_entry_rows(rows_e2, rows_e, res@)
                                && subject_row_paths_distinct(rows_s2) && entry_row_paths_distinct(
                                rows_e2,
                            ) implies #[trigger] reread_finds_nothing_new(
                            rows_s2,
                            rows_e2,
                            steps,
                            res@,
                        ) by {
                            law_reread_in_any_order_finds_nothing_new(
                                rows_s,
                                rows_e,
                                steps,
                                fresh@,
                                rows_s2,
                                rows_e2,
                            );
                        }
                    }
                }
            }
            assert(reconciled_with(ks, ke, steps, fresh@, res@));
            assert(init_outcome(rows_s, rows_e, steps, fresh@, res@));
        }
        res
    }

    /// Builds the application's data from the catalogue rows and a snapshot
    /// of the home directory. The live rows (a later row for the same path
    /// replaces an earlier one) are matched with what the scan finds, paths
    /// compared component by component; what the catalogue does not know gets a fresh version-7 id and
    /// is returned as new, in the order found; catalogue rows not found are
    /// kept, marked missing. The id (and parent id) of every live row must
    /// parse as a UUID.
    pub fn init(db_subjects: &Vec<DBSubject>, db_entries: &Vec<DBEntry>, home: &Vec<FsEntry>) -> (r:
        Reconciled)
        requires
            subject_rows_parse(live_subjects_of(db_subjects@)),
            entry_rows_parse(live_entries_of(db_entries@)),
        ensures
            keyed_by_id(r@.subjects, r@.entries),
            exists|fresh: Seq<u128>|
                #[trigger] init_outcome(
                    subject_row_views(db_subjects@),
                    entry_row_views(db_entries@),
                    home_steps(home@),
                    fresh,
                    r@,
                ),
    {
        let known_subjects = DataHandler::known_subjects(db_subjects).unwrap();
        let known_entries = DataHandler::known_entries(db_entries).unwrap();
        proof {
            lemma_known_subjects_distinct(db_subjects@);
            lemma_known_entries_distinct(db_entries@);
        }
        DataHandler::reconcile_with_new_ids(
            &known_subjects,
            &known_entries,
            home,
            Ghost(subject_row_views(db_subjects@)),
            Ghost(entry_row_views(db_entries@)),
        )
    }

    /// `init`, after testing that the ids of the live rows parse: `None`
    /// exactly when one of them (or a parent id) does not.
    pub fn try_init(
        db_subjects: &Vec<DBSubject>,
        db_entries: &Vec<DBEntry>,
        home: &Vec<FsEntry>,
    ) -> (r: Option<Reconciled>)
        ensures
            r is Some <==> subject_rows_parse(live_subjects_of(db_subjects@)) && entry_rows_parse(
                live_entries_of(db_entries@),
            ),
            r matches Some(res) ==> {
                &&& keyed_by_id(res@.subjects, res@.entries)
                &&& exists|fresh: Seq<u128>|
                    #[trigger] init_outcome(
                        subject_row_views(db_subjects@),
                        entry_row_views(db_entries@),
                        home_steps(home@),
                        fresh,
                        res@,
                    )
            },
    {
        let known_subjects = match DataHandler::known_subjects(db_subjects) {
            Some(v) => v,
            None => return None,
        };
        let known_entries = match DataHandler::known_entries(db_entries) {
            Some(v) => v,
            None => return None,
        };
        proof {
            lemma_known_subjects_distinct(db_subjects@);
            lemma_known_entries_distinct(db_entries@);
        }
        Some(DataHandler::reconcile_with_new_ids(
            &known_subjects,
            &known_entries,
            home,
            Ghost(subject_row_views(db_subjects@)),
            Ghost(entry_row_views(db_entries@)),
        ))
    }
}


/// `out` lists the values of `m`, one per key, in the order of `keys`.
pub open spec fn lists_values<V>(out: Seq<V>, m: Map<u128, V>, keys: Seq<u128>) -> bool {
    &&& keys.len() == out.len()
    &&& keys.no_duplicates()
    &&& keys.to_set() == m.dom()
    &&& forall|i: int| 0 <= i < keys.len() ==> out[i] == m[#[trigger] keys[i]]
}

/// `v` lists every subject of `d` once.
pub open spec fn lists_all_subjects(d: DataHandler, v: Seq<Subject>) -> bool {
    exists|keys: Seq<u128>| #[trigger] lists_values(subject_views(v), d@.subjects, keys)
}

/// `v` lists every entry of `d` once.
pub open spec fn lists_all_entries(d: DataHandler, v: Seq<Entry>) -> bool {
    exists|keys: Seq<u128>| #[trigger] lists_values(entry_views(v), d@.entries, keys)
}

impl DataHandler {
    /// Every entry, once each, in the map's own order.
    pub fn get_all_entries(&self) -> (r: Vec<Entry>)
        ensures
            lists_all_entries(*self, r@),
    {
        let mut out: Vec<Entry> = Vec::new();
        let ghost mut keys: Seq<u128> = seq![];
        let ghost m = self.entries@;
        let it = self.entries.iter();
        let ghost all = vstd::std_specs::iter::IteratorSpec::remaining(&it);
        assert(it == vstd::std_specs::hash::spec_hash_map_iter(&self.entries));
        for pair in iter: it
            invariant
                iter.seq() == all,
                out@.len() == iter.index(),
                keys.len() == iter.index(),
                forall|i: int| 0 <= i < iter.index() ==> #[trigger] keys[i] == *all[i].0,
                forall|i: int| 0 <= i < iter.index() ==> #[trigger] out@[i]@ == (*all[i].1)@,
        {
            let (k, e) = pair;
            let ghost idx = iter.index();
            assert(pair == all[idx]);
            proof {
                keys = keys.push(*k);
            }
            out.push(e.duplicate());
            assert(keys[idx] == *all[idx].0);
            assert(out@[idx]@ == (*all[idx].1)@);
        }
        proof {
            assert(all.len() == m.dom().len());
            assert forall|i: int| 0 <= i < all.len() implies m.contains_key(*all[i].0) && m[*all[i].0]
                == *all[i].1 by {}
            assert forall|i: int, j: int|
                0 <= i < keys.len() && 0 <= j < keys.len() && i != j implies keys[i] != keys[j] by {
                if keys[i] == keys[j] {
                    assert(all[i] == all[j]);
                }
            }
            assert forall|k: u128| m.dom().contains(k) implies keys.to_set().contains(k) by {
                assert(all.contains((&k, &m[k])));
                let i = choose|i: int| 0 <= i < all.len() && all[i] == (&k, &m[k]);
                assert(keys[i] == k);
            }
            assert(keys.to_set() =~= m.dom());
            assert(keys.len() == all.len());
            assert forall|i: int| 0 <= i < keys.len() implies entry_views(out@)[i]
                == self@.entries[#[trigger] keys[i]] by {
                assert(m.contains_key(*all[i].0) && m[*all[i].0] == *all[i].1);
                assert(out@[i]@ == (*all[i].1)@);
            }
            assert(self@.entries.dom() =~= m.dom());
            assert(lists_values(entry_views(out@), self@.entries, keys));
        }
        out
    }
}

impl DataHandler {
    /// Every subject, once each, in the map's own order.
    pub fn get_all_subjects(&self) -> (r: Vec<Subject>)
        ensures
            lists_all_subjects(*self, r@),
    {
        let mut out: Vec<Subject> = Vec::new();
        let ghost mut keys: Seq<u128> = seq![];
        let ghost m = self.subjects@;
        let it = self.subjects.iter();
        let ghost all = vstd::std_specs::iter::IteratorSpec::remaining(&it);
        assert(it == vstd::std_specs::hash::spec_hash_map_iter(&self.subjects));
        for pair in iter: it
            invariant
                iter.seq() == all,
                out@.len() == iter.index(),
                keys.len() == iter.index(),
                forall|i: int| 0 <= i < iter.index() ==> #[trigger] keys[i] == *all[i].0,
                forall|i: int| 0 <= i < iter.index() ==> #[trigger] out@[i]@ == (*all[i].1)@,
        {
            let (k, e) = pair;
            let ghost idx = iter.index();
            assert(pair == all[idx]);
            proof {
                keys = keys.push(*k);
            }
            out.push(e.duplicate());
            assert(keys[idx] == *all[idx].0);
            assert(out@[idx]@ == (*all[idx].1)@);
        }
        proof {
            assert(all.len() == m.dom().len());
            assert forall|i: int| 0 <= i < all.len() implies m.contains_key(*all[i].0) && m[*all[i].0]
                == *all[i].1 by {}
            assert forall|i: int, j: int|
                0 <= i < keys.len() && 0 <= j < keys.len() && i != j implies keys[i] != keys[j] by {
                if keys[i] == keys[j] {
                    assert(all[i] == all[j]);
                }
            }
            assert forall|k: u128| m.dom().contains(k) implies keys.to_set().contains(k) by {
                assert(all.contains((&k, &m[k])));
                let i = choose|i: int| 0 <= i < all.len() && all[i] == (&k, &m[k]);
                assert(keys[i] == k);
            }
            assert(keys.to_set() =~= m.dom());
            assert(keys.len() == all.len());
            assert forall|i: int| 0 <= i < keys.len() implies subject_views(out@)[i]
                == self@.subjects[#[trigger] keys[i]] by {
                assert(m.contains_key(*all[i].0) && m[*all[i].0] == *all[i].1);
                assert(out@[i]@ == (*all[i].1)@);
            }
            assert(self@.subjects.dom() =~= m.dom());
            assert(lists_values(subject_views(out@), self@.subjects, keys));
        }
        out
    }
}

} // verus!
