//! Properties of the library as a whole, proved over its specifications.

use vstd::prelude::*;

use crate::data_handler::{
    add_missing_entries, add_missing_subjects, distinct_entry_paths, distinct_subject_paths,
    entry_with_exists, fresh_needed, keyed_by_id, known_entry_at, known_subject_at,
    knows_entry_path, knows_subject_path, lemma_scan_shape_independent_of_ids, reconcile_spec,
    scan_fold, scan_step, subject_with_exists, ReconciledView, ScanState, entry_row_live,
    known_entries_of, known_subjects_of, live_entry_rows, live_subject_rows, subject_row_live,
};
use crate::ids::{spec_parse_uuid, uuid_hyphenated};
use crate::model::{
    entry_row, new_entry_view, new_subject_view, subject_row, DBEntryView, DBSubjectView, EntryView,
    SubjectView,
};
use crate::paths::{path_key, spec_is_visible, spec_same_path, PathKey};
use crate::scan::{file_steps, files_under, home_steps, step_path, FsEntry, FsKind, ScanStep};

verus! {

proof fn lemma_scan_fold_keyed(
    ks: Seq<SubjectView>,
    ke: Seq<EntryView>,
    steps: Seq<ScanStep>,
    fresh: Seq<u128>,
)
    ensures
        keyed_by_id(scan_fold(ks, ke, steps, fresh).subjects, scan_fold(ks, ke, steps, fresh).entries),
    decreases steps.len(),
{
    if steps.len() > 0 {
        lemma_scan_fold_keyed(ks, ke, steps.drop_last(), fresh);
    }
}

proof fn lemma_add_missing_subjects_keyed(
    ks: Seq<SubjectView>,
    taken: Set<PathKey>,
    m: Map<u128, SubjectView>,
)
    requires
        forall|k: u128| #[trigger] m.contains_key(k) ==> m[k].id == k,
    ensures
        forall|k: u128|
            #[trigger] add_missing_subjects(ks, taken, m).contains_key(k) ==> add_missing_subjects(
                ks,
                taken,
                m,
            )[k].id == k,
    decreases ks.len(),
{
    if ks.len() > 0 {
        lemma_add_missing_subjects_keyed(ks.drop_last(), taken, m);
        let m2 = add_missing_subjects(ks.drop_last(), taken, m);
        let x = ks.last();
        assert(subject_with_exists(x, false).id == x.id);
        if !taken.contains(path_key(x.path)) {
            assert(add_missing_subjects(ks, taken, m) == m2.insert(x.id, subject_with_exists(x, false)));
        }
    }
}

proof fn lemma_add_missing_entries_keyed(
    ke: Seq<EntryView>,
    taken: Set<PathKey>,
    m: Map<u128, EntryView>,
)
    requires
        forall|k: u128| #[trigger] m.contains_key(k) ==> m[k].id == k,
    ensures
        forall|k: u128|
            #[trigger] add_missing_entries(ke, taken, m).contains_key(k) ==> add_missing_entries(
                ke,
                taken,
                m,
            )[k].id == k,
    decreases ke.len(),
{
    if ke.len() > 0 {
        lemma_add_missing_entries_keyed(ke.drop_last(), taken, m);
        let m2 = add_missing_entries(ke.drop_last(), taken, m);
        let x = ke.last();
        assert(entry_with_exists(x, false).id == x.id);
        if !taken.contains(path_key(x.path)) {
            assert(add_missing_entries(ke, taken, m) == m2.insert(x.id, entry_with_exists(x, false)));
        }
    }
}

/// Every subject and every entry of a reconciliation is stored under its
/// own id, whatever the catalogue, the scan and the fresh ids.
pub proof fn law_reconciled_keyed_by_id(
    ks: Seq<SubjectView>,
    ke: Seq<EntryView>,
    steps: Seq<ScanStep>,
    fresh: Seq<u128>,
)
    ensures
        keyed_by_id(
            reconcile_spec(ks, ke, steps, fresh).subjects,
            reconcile_spec(ks, ke, steps, fresh).entries,
        ),
{
    let st = scan_fold(ks, ke, steps, fresh);
    lemma_scan_fold_keyed(ks, ke, steps, fresh);
    lemma_add_missing_subjects_keyed(ks, st.taken_subjects, st.subjects);
    lemma_add_missing_entries_keyed(ke, st.taken_entries, st.entries);
}


/// The step reaches a subject folder at the path `p` (component by
/// component).
pub open spec fn subject_step_at(s: ScanStep, p: Seq<char>) -> bool {
    s is Subject && spec_same_path(step_path(s), p)
}

/// The step reaches a file at the path `p` (component by component).
pub open spec fn file_step_at(s: ScanStep, p: Seq<char>) -> bool {
    s is File && spec_same_path(step_path(s), p)
}

/// The scan reached a subject folder at `p`.
pub open spec fn scanned_subject(steps: Seq<ScanStep>, p: Seq<char>) -> bool {
    exists|i: int| 0 <= i < steps.len() && subject_step_at(#[trigger] steps[i], p)
}

/// The scan reached a file at `p`.
pub open spec fn scanned_file(steps: Seq<ScanStep>, p: Seq<char>) -> bool {
    exists|i: int| 0 <= i < steps.len() && file_step_at(#[trigger] steps[i], p)
}

/// No path is reached twice (as a directory listing guarantees).
pub open spec fn step_paths_distinct(steps: Seq<ScanStep>) -> bool {
    forall|i: int, j: int|
        0 <= i < steps.len() && 0 <= j < steps.len() && i != j ==> !spec_same_path(
            step_path(#[trigger] steps[i]),
            step_path(#[trigger] steps[j]),
        )
}

/// The catalogue ids are distinct, the fresh ids are distinct, and no fresh
/// id is a catalogue id.
pub open spec fn ids_fresh(ks: Seq<SubjectView>, ke: Seq<EntryView>, fresh: Seq<u128>) -> bool {
    &&& forall|i: int, j: int|
        0 <= i < ks.len() && 0 <= j < ks.len() && i != j ==> #[trigger] ks[i].id != #[trigger] ks[j].id
    &&& forall|i: int, j: int|
        0 <= i < ke.len() && 0 <= j < ke.len() && i != j ==> #[trigger] ke[i].id != #[trigger] ke[j].id
    &&& forall|i: int, j: int|
        0 <= i < fresh.len() && 0 <= j < fresh.len() && i != j ==> #[trigger] fresh[i]
            != #[trigger] fresh[j]
    &&& forall|i: int, m: int|
        0 <= i < ks.len() && 0 <= m < fresh.len() ==> #[trigger] ks[i].id != #[trigger] fresh[m]
    &&& forall|i: int, m: int|
        0 <= i < ke.len() && 0 <= m < fresh.len() ==> #[trigger] ke[i].id != #[trigger] fresh[m]
}

/// The catalogue ids are distinct, and none of the fresh ids is a
/// catalogue id.
pub open spec fn catalogue_ids_apart(ks: Seq<SubjectView>, ke: Seq<EntryView>, fresh: Seq<u128>) -> bool {
    &&& forall|i: int, j: int|
        0 <= i < ks.len() && 0 <= j < ks.len() && i != j ==> #[trigger] ks[i].id != #[trigger] ks[j].id
    &&& forall|i: int, j: int|
        0 <= i < ke.len() && 0 <= j < ke.len() && i != j ==> #[trigger] ke[i].id != #[trigger] ke[j].id
    &&& forall|i: int, m: int|
        0 <= i < ks.len() && 0 <= m < fresh.len() ==> #[trigger] ks[i].id != #[trigger] fresh[m]
    &&& forall|i: int, m: int|
        0 <= i < ke.len() && 0 <= m < fresh.len() ==> #[trigger] ke[i].id != #[trigger] fresh[m]
}

/// Strictly increasing ids are distinct, so with ids apart from the
/// catalogue's they are fresh.
pub proof fn lemma_increasing_ids_fresh(ks: Seq<SubjectView>, ke: Seq<EntryView>, fresh: Seq<u128>)
    requires
        catalogue_ids_apart(ks, ke, fresh),
        forall|i: int, j: int| 0 <= i < j < fresh.len() ==> #[trigger] fresh[i] < #[trigger] fresh[j],
    ensures
        ids_fresh(ks, ke, fresh),
{
    assert forall|i: int, j: int|
        0 <= i < fresh.len() && 0 <= j < fresh.len() && i != j implies #[trigger] fresh[i]
        != #[trigger] fresh[j] by {
        if i < j {
            assert(fresh[i] < fresh[j]);
        } else {
            assert(fresh[j] < fresh[i]);
        }
    }
}

pub open spec fn is_fresh_before(fresh: Seq<u128>, used: nat, k: u128) -> bool {
    exists|m: int| 0 <= m < used && #[trigger] fresh[m] == k
}

pub open spec fn is_known_subject_id(ks: Seq<SubjectView>, k: u128) -> bool {
    exists|i: int| 0 <= i < ks.len() && #[trigger] ks[i].id == k
}

pub open spec fn is_known_entry_id(ke: Seq<EntryView>, k: u128) -> bool {
    exists|i: int| 0 <= i < ke.len() && #[trigger] ke[i].id == k
}

pub open spec fn subjects_inv(
    ks: Seq<SubjectView>,
    steps: Seq<ScanStep>,
    fresh: Seq<u128>,
    st: ScanState,
) -> bool {
    &&& forall|p: Seq<char>|
        #[trigger] st.taken_subjects.contains(path_key(p)) <==> scanned_subject(steps, p)
            && knows_subject_path(ks, p)
    &&& forall|i: int|
        0 <= i < ks.len() ==> (scanned_subject(steps, #[trigger] ks[i].path) ==> (
        st.subjects.contains_key(ks[i].id) && st.subjects[ks[i].id] == subject_with_exists(
            ks[i],
            true,
        ))) && (!scanned_subject(steps, ks[i].path) ==> !st.subjects.contains_key(ks[i].id))
    &&& forall|j: int|
        0 <= j < st.new_subjects.len() ==> {
            let s = #[trigger] st.new_subjects[j];
            &&& st.subjects.contains_key(s.id)
            &&& st.subjects[s.id] == s
            &&& scanned_subject(steps, s.path)
            &&& !knows_subject_path(ks, s.path)
            &&& is_fresh_before(fresh, st.used, s.id)
            &&& s.exists
            &&& s.icon is None
        }
    &&& forall|k: u128|
        #[trigger] st.subjects.contains_key(k) ==> is_known_subject_id(ks, k) || exists|j: int|
            0 <= j < st.new_subjects.len() && #[trigger] st.new_subjects[j].id == k
    &&& forall|k: u128|
        #[trigger] st.subjects.contains_key(k) ==> is_known_subject_id(ks, k) || is_fresh_before(
            fresh,
            st.used,
            k,
        )
    &&& forall|j1: int, j2: int|
        0 <= j1 < st.new_subjects.len() && 0 <= j2 < st.new_subjects.len() && j1 != j2 ==> (
        #[trigger] st.new_subjects[j1]).id != (#[trigger] st.new_subjects[j2]).id && path_key(st.new_subjects[j1].path)
            != path_key(st.new_subjects[j2].path)
    &&& forall|p: Seq<char>|
        scanned_subject(steps, p) && !knows_subject_path(ks, p) ==> exists|j: int|
            0 <= j < st.new_subjects.len() && path_key((#[trigger] st.new_subjects[j]).path) == path_key(p)
}


proof fn lemma_scanned_split(steps: Seq<ScanStep>, q: Seq<char>)
    requires
        steps.len() > 0,
    ensures
        scanned_subject(steps, q) <==> scanned_subject(steps.drop_last(), q) || subject_step_at(steps.last(), q),
        scanned_file(steps, q) <==> scanned_file(steps.drop_last(), q) || file_step_at(steps.last(), q),
{
    let prev = steps.drop_last();
    if scanned_subject(steps, q) {
        let i = choose|i: int| 0 <= i < steps.len() && subject_step_at(#[trigger] steps[i], q);
        if i < prev.len() {
            assert(prev[i] == steps[i]);
        }
    }
    if scanned_subject(prev, q) {
        let i = choose|i: int| 0 <= i < prev.len() && subject_step_at(#[trigger] prev[i], q);
        assert(steps[i] == prev[i]);
    }
    if subject_step_at(steps.last(), q) {
        assert(subject_step_at(steps[steps.len() - 1], q));
    }
    if scanned_file(steps, q) {
        let i = choose|i: int| 0 <= i < steps.len() && file_step_at(#[trigger] steps[i], q);
        if i < prev.len() {
            assert(prev[i] == steps[i]);
        }
    }
    if scanned_file(prev, q) {
        let i = choose|i: int| 0 <= i < prev.len() && file_step_at(#[trigger] prev[i], q);
        assert(steps[i] == prev[i]);
    }
    if file_step_at(steps.last(), q) {
        assert(file_step_at(steps[steps.len() - 1], q));
    }
}

/// The last step's path was not reached before it.
proof fn lemma_last_path_new(steps: Seq<ScanStep>)
    requires
        steps.len() > 0,
        step_paths_distinct(steps),
    ensures
        !scanned_subject(steps.drop_last(), step_path(steps.last())),
        !scanned_file(steps.drop_last(), step_path(steps.last())),
        step_paths_distinct(steps.drop_last()),
{
    let prev = steps.drop_last();
    let p = step_path(steps.last());
    if scanned_subject(prev, p) {
        let i = choose|i: int| 0 <= i < prev.len() && subject_step_at(#[trigger] prev[i], p);
        assert(steps[i] == prev[i]);
        assert(!spec_same_path(step_path(steps[i]), step_path(steps[steps.len() - 1])));
    }
    if scanned_file(prev, p) {
        let i = choose|i: int| 0 <= i < prev.len() && file_step_at(#[trigger] prev[i], p);
        assert(steps[i] == prev[i]);
        assert(!spec_same_path(step_path(steps[i]), step_path(steps[steps.len() - 1])));
    }
    assert forall|i: int, j: int|
        0 <= i < prev.len() && 0 <= j < prev.len() && i != j implies !spec_same_path(
            step_path(#[trigger] prev[i]),
            step_path(#[trigger] prev[j]),
        ) by {
        assert(prev[i] == steps[i] && prev[j] == steps[j]);
    }
}

proof fn lemma_known_subject_at_unique(ks: Seq<SubjectView>, p: Seq<char>)
    requires
        distinct_subject_paths(ks),
        knows_subject_path(ks, p),
    ensures
        forall|i: int| 0 <= i < ks.len() && path_key(ks[i].path) == path_key(p) ==> known_subject_at(ks, p) == ks[i],
        exists|i: int| 0 <= i < ks.len() && path_key(ks[i].path) == path_key(p) && known_subject_at(ks, p) == ks[i],
{
    let i0 = choose|i: int| 0 <= i < ks.len() && path_key(ks[i].path) == path_key(p);
    assert forall|i: int| 0 <= i < ks.len() && path_key(ks[i].path) == path_key(p) implies known_subject_at(ks, p)
        == ks[i] by {
        if i != i0 {
            assert(path_key(ks[i].path) != path_key(ks[i0].path));
        }
    }
}

proof fn lemma_known_entry_at_unique(ke: Seq<EntryView>, p: Seq<char>)
    requires
        distinct_entry_paths(ke),
        knows_entry_path(ke, p),
    ensures
        forall|i: int| 0 <= i < ke.len() && path_key(ke[i].path) == path_key(p) ==> known_entry_at(ke, p) == ke[i],
        exists|i: int| 0 <= i < ke.len() && path_key(ke[i].path) == path_key(p) && known_entry_at(ke, p) == ke[i],
{
    let i0 = choose|i: int| 0 <= i < ke.len() && path_key(ke[i].path) == path_key(p);
    assert forall|i: int| 0 <= i < ke.len() && path_key(ke[i].path) == path_key(p) implies known_entry_at(ke, p)
        == ke[i] by {
        if i != i0 {
            assert(path_key(ke[i].path) != path_key(ke[i0].path));
        }
    }
}

proof fn lemma_subjects_inv(
    ks: Seq<SubjectView>,
    ke: Seq<EntryView>,
    steps: Seq<ScanStep>,
    fresh: Seq<u128>,
)
    requires
        distinct_subject_paths(ks),
        step_paths_distinct(steps),
        ids_fresh(ks, ke, fresh),
        scan_fold(ks, ke, steps, fresh).used <= fresh.len(),
    ensures
        subjects_inv(ks, steps, fresh, scan_fold(ks, ke, steps, fresh)),
    decreases steps.len(),
{
    let st = scan_fold(ks, ke, steps, fresh);
    if steps.len() == 0 {
        assert forall|p: Seq<char>| !scanned_subject(steps, p) by {}
        return ;
    }
    let prev = steps.drop_last();
    let last = steps.last();
    let st0 = scan_fold(ks, ke, prev, fresh);
    assert(st == scan_step(ks, ke, fresh, st0, last));
    assert(st0.used <= st.used);
    lemma_last_path_new(steps);
    lemma_subjects_inv(ks, ke, prev, fresh);
    assert forall|q: Seq<char>|
        scanned_subject(steps, q) <==> scanned_subject(prev, q) || subject_step_at(last, q) by {
        lemma_scanned_split(steps, q);
    }
    assert forall|k: u128| is_fresh_before(fresh, st0.used, k) implies is_fresh_before(
        fresh,
        st.used,
        k,
    ) by {
        let m = choose|m: int| 0 <= m < st0.used && #[trigger] fresh[m] == k;
        assert(fresh[m] == k);
    }
    match last {
        ScanStep::File(p) => {
            assert(st.subjects == st0.subjects);
            assert(st.taken_subjects == st0.taken_subjects);
            assert(st.new_subjects == st0.new_subjects);
        },
        ScanStep::Subject(p) => {
            assert(!scanned_subject(prev, p));
            assert(!st0.taken_subjects.contains(path_key(p)));
            if knows_subject_path(ks, p) {
                lemma_known_subject_at_unique(ks, p);
                let i0 = choose|i: int|
                    0 <= i < ks.len() && path_key(ks[i].path) == path_key(p) && known_subject_at(ks, p) == ks[i];
                let s = subject_with_exists(ks[i0], true);
                assert(st.subjects == st0.subjects.insert(s.id, s));
                assert(st.taken_subjects == st0.taken_subjects.insert(path_key(p)));
                assert(st.new_subjects == st0.new_subjects);
                assert(!st0.subjects.contains_key(ks[i0].id));
                assert forall|i: int| 0 <= i < ks.len() && i != i0 implies #[trigger] ks[i].id
                    != ks[i0].id && path_key(ks[i].path) != path_key(p) by {
                    assert(path_key(ks[i].path) != path_key(ks[i0].path));
                }
                assert forall|j: int| 0 <= j < st0.new_subjects.len() implies (
                #[trigger] st0.new_subjects[j]).id != ks[i0].id by {
                    let sj = st0.new_subjects[j];
                    let m = choose|m: int| 0 <= m < st0.used && #[trigger] fresh[m] == sj.id;
                    assert(ks[i0].id != fresh[m]);
                }
                assert forall|p2: Seq<char>|
                    scanned_subject(steps, p2) && !knows_subject_path(ks, p2) implies exists|j: int|
                        0 <= j < st.new_subjects.len() && path_key((#[trigger] st.new_subjects[j]).path)
                            == path_key(p2) by {
                    assert(path_key(p2) != path_key(p));
                    assert(scanned_subject(prev, p2));
                }
                assert forall|k: u128| #[trigger] st.subjects.contains_key(k) implies is_known_subject_id(ks, k)
                    || exists|j: int|
                    0 <= j < st.new_subjects.len() && #[trigger] st.new_subjects[j].id == k by {
                    if k == ks[i0].id {
                        assert(ks[i0].id == k);
                    }
                }
                assert forall|k: u128| #[trigger] st.subjects.contains_key(k) implies is_known_subject_id(ks, k)
                    || is_fresh_before(fresh, st.used, k) by {
                    if k == ks[i0].id {
                        assert(ks[i0].id == k);
                    }
                }
            } else {
                let id = fresh[st0.used as int];
                let s = new_subject_view(id, p, None, true);
                assert(st.used == st0.used + 1);
                assert(st.subjects == st0.subjects.insert(id, s));
                assert(st.new_subjects == st0.new_subjects.push(s));
                assert(st.taken_subjects == st0.taken_subjects);
                assert(!st0.subjects.contains_key(id)) by {
                    if st0.subjects.contains_key(id) {
                        if is_known_subject_id(ks, id) {
                            let i = choose|i: int| 0 <= i < ks.len() && #[trigger] ks[i].id == id;
                            assert(ks[i].id != fresh[st0.used as int]);
                        } else {
                            let m = choose|m: int| 0 <= m < st0.used && #[trigger] fresh[m] == id;
                            assert(fresh[m] != fresh[st0.used as int]);
                        }
                    }
                }
                assert forall|i: int| 0 <= i < ks.len() implies #[trigger] ks[i].id != id
                    && path_key(ks[i].path) != path_key(p) by {
                    assert(ks[i].id != fresh[st0.used as int]);
                }
                assert forall|j: int| 0 <= j < st0.new_subjects.len() implies (
                #[trigger] st0.new_subjects[j]).id != id by {
                    let sj = st0.new_subjects[j];
                    let m = choose|m: int| 0 <= m < st0.used && #[trigger] fresh[m] == sj.id;
                    assert(fresh[m] != fresh[st0.used as int]);
                }
                assert(steps[steps.len() - 1] == ScanStep::Subject(p));
                assert(scanned_subject(steps, p));
                assert(is_fresh_before(fresh, st.used, id)) by {
                    assert(fresh[st0.used as int] == id);
                }
                assert forall|j: int| 0 <= j < st.new_subjects.len() implies {
                    let sj = #[trigger] st.new_subjects[j];
                    &&& st.subjects.contains_key(sj.id)
                    &&& st.subjects[sj.id] == sj
                    &&& scanned_subject(steps, sj.path)
                    &&& !knows_subject_path(ks, sj.path)
                    &&& is_fresh_before(fresh, st.used, sj.id)
                } by {
                    if j < st0.new_subjects.len() {
                        assert(st.new_subjects[j] == st0.new_subjects[j]);
                    } else {
                        assert(st.new_subjects[j] == s);
                    }
                }
                assert forall|p2: Seq<char>|
                    scanned_subject(steps, p2) && !knows_subject_path(ks, p2) implies exists|j: int|
                        0 <= j < st.new_subjects.len() && path_key((#[trigger] st.new_subjects[j]).path)
                            == path_key(p2) by {
                    if path_key(p2) == path_key(p) {
                        assert(st.new_subjects[st0.new_subjects.len() as int] == s);
                    } else {
                        assert(scanned_subject(prev, p2));
                        let j = choose|j: int|
                            0 <= j < st0.new_subjects.len() && path_key((#[trigger] st0.new_subjects[j]).path)
                                == path_key(p2);
                        assert(st.new_subjects[j] == st0.new_subjects[j]);
                    }
                }
                assert forall|k: u128| #[trigger] st.subjects.contains_key(k) implies is_known_subject_id(ks, k)
                    || exists|j: int|
                    0 <= j < st.new_subjects.len() && #[trigger] st.new_subjects[j].id == k by {
                    if k == id {
                        assert(st.new_subjects[st0.new_subjects.len() as int].id == k);
                    } else if !is_known_subject_id(ks, k) {
                        let j = choose|j: int|
                            0 <= j < st0.new_subjects.len() && #[trigger] st0.new_subjects[j].id == k;
                        assert(st.new_subjects[j] == st0.new_subjects[j]);
                    }
                }
            }
        },
    }
}

pub open spec fn entries_inv(
    ke: Seq<EntryView>,
    steps: Seq<ScanStep>,
    fresh: Seq<u128>,
    st: ScanState,
) -> bool {
    &&& forall|p: Seq<char>|
        #[trigger] st.taken_entries.contains(path_key(p)) <==> scanned_file(steps, p)
            && knows_entry_path(ke, p)
    &&& forall|i: int|
        0 <= i < ke.len() ==> (scanned_file(steps, #[trigger] ke[i].path) ==> (
        st.entries.contains_key(ke[i].id) && st.entries[ke[i].id] == entry_with_exists(
            ke[i],
            true,
        ))) && (!scanned_file(steps, ke[i].path) ==> !st.entries.contains_key(ke[i].id))
    &&& forall|j: int|
        0 <= j < st.new_entries.len() ==> {
            let s = #[trigger] st.new_entries[j];
            &&& st.entries.contains_key(s.id)
            &&& st.entries[s.id] == s
            &&& scanned_file(steps, s.path)
            &&& !knows_entry_path(ke, s.path)
            &&& is_fresh_before(fresh, st.used, s.id)
            &&& s.exists
        }
    &&& forall|k: u128|
        #[trigger] st.entries.contains_key(k) ==> is_known_entry_id(ke, k) || exists|j: int|
            0 <= j < st.new_entries.len() && #[trigger] st.new_entries[j].id == k
    &&& forall|k: u128|
        #[trigger] st.entries.contains_key(k) ==> is_known_entry_id(ke, k) || is_fresh_before(
            fresh,
            st.used,
            k,
        )
    &&& forall|j1: int, j2: int|
        0 <= j1 < st.new_entries.len() && 0 <= j2 < st.new_entries.len() && j1 != j2 ==> (
        #[trigger] st.new_entries[j1]).id != (#[trigger] st.new_entries[j2]).id && path_key(st.new_entries[j1].path)
            != path_key(st.new_entries[j2].path)
    &&& forall|p: Seq<char>|
        scanned_file(steps, p) && !knows_entry_path(ke, p) ==> exists|j: int|
            0 <= j < st.new_entries.len() && path_key((#[trigger] st.new_entries[j]).path) == path_key(p)
}


proof fn lemma_entries_inv(
    ks: Seq<SubjectView>,
    ke: Seq<EntryView>,
    steps: Seq<ScanStep>,
    fresh: Seq<u128>,
)
    requires
        distinct_entry_paths(ke),
        step_paths_distinct(steps),
        ids_fresh(ks, ke, fresh),
        scan_fold(ks, ke, steps, fresh).used <= fresh.len(),
    ensures
        entries_inv(ke, steps, fresh, scan_fold(ks, ke, steps, fresh)),
    decreases steps.len(),
{
    let st = scan_fold(ks, ke, steps, fresh);
    if steps.len() == 0 {
        assert forall|p: Seq<char>| !scanned_file(steps, p) by {}
        return ;
    }
    let prev = steps.drop_last();
    let last = steps.last();
    let st0 = scan_fold(ks, ke, prev, fresh);
    assert(st == scan_step(ks, ke, fresh, st0, last));
    assert(st0.used <= st.used);
    lemma_last_path_new(steps);
    lemma_entries_inv(ks, ke, prev, fresh);
    assert forall|q: Seq<char>|
        scanned_file(steps, q) <==> scanned_file(prev, q) || file_step_at(last, q) by {
        lemma_scanned_split(steps, q);
    }
    assert forall|k: u128| is_fresh_before(fresh, st0.used, k) implies is_fresh_before(
        fresh,
        st.used,
        k,
    ) by {
        let m = choose|m: int| 0 <= m < st0.used && #[trigger] fresh[m] == k;
        assert(fresh[m] == k);
    }
    match last {
        ScanStep::Subject(p) => {
            assert(st.entries == st0.entries);
            assert(st.taken_entries == st0.taken_entries);
            assert(st.new_entries == st0.new_entries);
        },
        ScanStep::File(p) => {
            assert(!scanned_file(prev, p));
            assert(!st0.taken_entries.contains(path_key(p)));
            if knows_entry_path(ke, p) {
                lemma_known_entry_at_unique(ke, p);
                let i0 = choose|i: int|
                    0 <= i < ke.len() && path_key(ke[i].path) == path_key(p) && known_entry_at(ke, p) == ke[i];
                let s = entry_with_exists(ke[i0], true);
                assert(st.entries == st0.entries.insert(s.id, s));
                assert(st.taken_entries == st0.taken_entries.insert(path_key(p)));
                assert(st.new_entries == st0.new_entries);
                assert(!st0.entries.contains_key(ke[i0].id));
                assert forall|i: int| 0 <= i < ke.len() && i != i0 implies #[trigger] ke[i].id
                    != ke[i0].id && path_key(ke[i].path) != path_key(p) by {
                    assert(path_key(ke[i].path) != path_key(ke[i0].path));
                }
                assert forall|j: int| 0 <= j < st0.new_entries.len() implies (
                #[trigger] st0.new_entries[j]).id != ke[i0].id by {
                    let sj = st0.new_entries[j];
                    let m = choose|m: int| 0 <= m < st0.used && #[trigger] fresh[m] == sj.id;
                    assert(ke[i0].id != fresh[m]);
                }
                assert forall|p2: Seq<char>|
                    scanned_file(steps, p2) && !knows_entry_path(ke, p2) implies exists|j: int|
                        0 <= j < st.new_entries.len() && path_key((#[trigger] st.new_entries[j]).path)
                            == path_key(p2) by {
                    assert(path_key(p2) != path_key(p));
                    assert(scanned_file(prev, p2));
                }
                assert forall|k: u128| #[trigger] st.entries.contains_key(k) implies is_known_entry_id(ke, k)
                    || exists|j: int|
                    0 <= j < st.new_entries.len() && #[trigger] st.new_entries[j].id == k by {
                    if k == ke[i0].id {
                        assert(ke[i0].id == k);
                    }
                }
                assert forall|k: u128| #[trigger] st.entries.contains_key(k) implies is_known_entry_id(ke, k)
                    || is_fresh_before(fresh, st.used, k) by {
                    if k == ke[i0].id {
                        assert(ke[i0].id == k);
                    }
                }
            } else {
                let id = fresh[st0.used as int];
                let s = new_entry_view(id, p, st0.current, true);
                assert(st.used == st0.used + 1);
                assert(st.entries == st0.entries.insert(id, s));
                assert(st.new_entries == st0.new_entries.push(s));
                assert(st.taken_entries == st0.taken_entries);
                assert(!st0.entries.contains_key(id)) by {
                    if st0.entries.contains_key(id) {
                        if is_known_entry_id(ke, id) {
                            let i = choose|i: int| 0 <= i < ke.len() && #[trigger] ke[i].id == id;
                            assert(ke[i].id != fresh[st0.used as int]);
                        } else {
                            let m = choose|m: int| 0 <= m < st0.used && #[trigger] fresh[m] == id;
                            assert(fresh[m] != fresh[st0.used as int]);
                        }
                    }
                }
                assert forall|i: int| 0 <= i < ke.len() implies #[trigger] ke[i].id != id
                    && path_key(ke[i].path) != path_key(p) by {
                    assert(ke[i].id != fresh[st0.used as int]);
                }
                assert forall|j: int| 0 <= j < st0.new_entries.len() implies (
                #[trigger] st0.new_entries[j]).id != id by {
                    let sj = st0.new_entries[j];
                    let m = choose|m: int| 0 <= m < st0.used && #[trigger] fresh[m] == sj.id;
                    assert(fresh[m] != fresh[st0.used as int]);
                }
                assert(steps[steps.len() - 1] == ScanStep::File(p));
                assert(scanned_file(steps, p));
                assert(is_fresh_before(fresh, st.used, id)) by {
                    assert(fresh[st0.used as int] == id);
                }
                assert forall|j: int| 0 <= j < st.new_entries.len() implies {
                    let sj = #[trigger] st.new_entries[j];
                    &&& st.entries.contains_key(sj.id)
                    &&& st.entries[sj.id] == sj
                    &&& scanned_file(steps, sj.path)
                    &&& !knows_entry_path(ke, sj.path)
                    &&& is_fresh_before(fresh, st.used, sj.id)
                } by {
                    if j < st0.new_entries.len() {
                        assert(st.new_entries[j] == st0.new_entries[j]);
                    } else {
                        assert(st.new_entries[j] == s);
                    }
                }
                assert forall|p2: Seq<char>|
                    scanned_file(steps, p2) && !knows_entry_path(ke, p2) implies exists|j: int|
                        0 <= j < st.new_entries.len() && path_key((#[trigger] st.new_entries[j]).path)
                            == path_key(p2) by {
                    if path_key(p2) == path_key(p) {
                        assert(st.new_entries[st0.new_entries.len() as int] == s);
                    } else {
                        assert(scanned_file(prev, p2));
                        let j = choose|j: int|
                            0 <= j < st0.new_entries.len() && path_key((#[trigger] st0.new_entries[j]).path)
                                == path_key(p2);
                        assert(st.new_entries[j] == st0.new_entries[j]);
                    }
                }
                assert forall|k: u128| #[trigger] st.entries.contains_key(k) implies is_known_entry_id(ke, k)
                    || exists|j: int|
                    0 <= j < st.new_entries.len() && #[trigger] st.new_entries[j].id == k by {
                    if k == id {
                        assert(st.new_entries[st0.new_entries.len() as int].id == k);
                    } else if !is_known_entry_id(ke, k) {
                        let j = choose|j: int|
                            0 <= j < st0.new_entries.len() && #[trigger] st0.new_entries[j].id == k;
                        assert(st.new_entries[j] == st0.new_entries[j]);
                    }
                }
            }
        },
    }
}


proof fn lemma_add_missing_subjects_final(
    ks: Seq<SubjectView>,
    taken: Set<PathKey>,
    m: Map<u128, SubjectView>,
)
    requires
        forall|i: int, j: int|
            0 <= i < ks.len() && 0 <= j < ks.len() && i != j ==> #[trigger] ks[i].id
                != #[trigger] ks[j].id,
        forall|i: int|
            0 <= i < ks.len() && taken.contains(path_key(#[trigger] ks[i].path)) ==> m.contains_key(ks[i].id)
                && m[ks[i].id] == subject_with_exists(ks[i], true),
        forall|i: int|
            0 <= i < ks.len() && !taken.contains(path_key(#[trigger] ks[i].path)) ==> !m.contains_key(
                ks[i].id,
            ),
    ensures
        forall|i: int|
            0 <= i < ks.len() ==> add_missing_subjects(ks, taken, m).contains_key(
                #[trigger] ks[i].id,
            ) && add_missing_subjects(ks, taken, m)[ks[i].id] == subject_with_exists(
                ks[i],
                taken.contains(path_key(ks[i].path)),
            ),
        forall|k: u128|
            !is_known_subject_id(ks, k) ==> (#[trigger] add_missing_subjects(
                ks,
                taken,
                m,
            ).contains_key(k) == m.contains_key(k)) && (m.contains_key(k) ==> add_missing_subjects(
                ks,
                taken,
                m,
            )[k] == m[k]),
        forall|k: u128|
            #[trigger] add_missing_subjects(ks, taken, m).contains_key(k) ==> m.contains_key(k)
                || is_known_subject_id(ks, k),
    decreases ks.len(),
{
    if ks.len() > 0 {
        let prev = ks.drop_last();
        let x = ks.last();
        let n = ks.len() - 1;
        assert forall|i: int, j: int|
            0 <= i < prev.len() && 0 <= j < prev.len() && i != j implies #[trigger] prev[i].id
            != #[trigger] prev[j].id by {
            assert(prev[i] == ks[i] && prev[j] == ks[j]);
        }
        assert forall|i: int| 0 <= i < prev.len() && taken.contains(path_key(#[trigger] prev[i].path)) implies m.contains_key(
            prev[i].id,
        ) && m[prev[i].id] == subject_with_exists(prev[i], true) by {
            assert(prev[i] == ks[i]);
        }
        assert forall|i: int| 0 <= i < prev.len() && !taken.contains(path_key(#[trigger] prev[i].path)) implies !m.contains_key(
            prev[i].id,
        ) by {
            assert(prev[i] == ks[i]);
        }
        lemma_add_missing_subjects_final(prev, taken, m);
        let r2 = add_missing_subjects(prev, taken, m);
        let r = add_missing_subjects(ks, taken, m);
        assert(x == ks[n]);
        assert(!is_known_subject_id(prev, x.id)) by {
            if is_known_subject_id(prev, x.id) {
                let i = choose|i: int| 0 <= i < prev.len() && #[trigger] prev[i].id == x.id;
                assert(prev[i] == ks[i]);
                assert(ks[i].id != ks[n].id);
            }
        }
        assert forall|k: u128| is_known_subject_id(prev, k) implies is_known_subject_id(ks, k) by {
            let i = choose|i: int| 0 <= i < prev.len() && #[trigger] prev[i].id == k;
            assert(ks[i] == prev[i]);
        }
        assert forall|k: u128| !is_known_subject_id(ks, k) implies !is_known_subject_id(prev, k)
            && k != x.id by {
            if k == x.id {
                assert(ks[n].id == k);
            }
        }
        assert forall|i: int| 0 <= i < ks.len() implies r.contains_key(#[trigger] ks[i].id)
            && r[ks[i].id] == subject_with_exists(ks[i], taken.contains(path_key(ks[i].path))) by {
            if i < n {
                assert(ks[i] == prev[i]);
                assert(ks[i].id != ks[n].id);
            }
        }
        assert forall|k: u128| #[trigger] r.contains_key(k) implies m.contains_key(k)
            || is_known_subject_id(ks, k) by {
            if k == x.id {
                assert(ks[n].id == k);
            }
        }
    }
}


proof fn lemma_add_missing_entries_final(
    ke: Seq<EntryView>,
    taken: Set<PathKey>,
    m: Map<u128, EntryView>,
)
    requires
        forall|i: int, j: int|
            0 <= i < ke.len() && 0 <= j < ke.len() && i != j ==> #[trigger] ke[i].id
                != #[trigger] ke[j].id,
        forall|i: int|
            0 <= i < ke.len() && taken.contains(path_key(#[trigger] ke[i].path)) ==> m.contains_key(ke[i].id)
                && m[ke[i].id] == entry_with_exists(ke[i], true),
        forall|i: int|
            0 <= i < ke.len() && !taken.contains(path_key(#[trigger] ke[i].path)) ==> !m.contains_key(
                ke[i].id,
            ),
    ensures
        forall|i: int|
            0 <= i < ke.len() ==> add_missing_entries(ke, taken, m).contains_key(
                #[trigger] ke[i].id,
            ) && add_missing_entries(ke, taken, m)[ke[i].id] == entry_with_exists(
                ke[i],
                taken.contains(path_key(ke[i].path)),
            ),
        forall|k: u128|
            !is_known_entry_id(ke, k) ==> (#[trigger] add_missing_entries(
                ke,
                taken,
                m,
            ).contains_key(k) == m.contains_key(k)) && (m.contains_key(k) ==> add_missing_entries(
                ke,
                taken,
                m,
            )[k] == m[k]),
        forall|k: u128|
            #[trigger] add_missing_entries(ke, taken, m).contains_key(k) ==> m.contains_key(k)
                || is_known_entry_id(ke, k),
    decreases ke.len(),
{
    if ke.len() > 0 {
        let prev = ke.drop_last();
        let x = ke.last();
        let n = ke.len() - 1;
        assert forall|i: int, j: int|
            0 <= i < prev.len() && 0 <= j < prev.len() && i != j implies #[trigger] prev[i].id
            != #[trigger] prev[j].id by {
            assert(prev[i] == ke[i] && prev[j] == ke[j]);
        }
        assert forall|i: int| 0 <= i < prev.len() && taken.contains(path_key(#[trigger] prev[i].path)) implies m.contains_key(
            prev[i].id,
        ) && m[prev[i].id] == entry_with_exists(prev[i], true) by {
            assert(prev[i] == ke[i]);
        }
        assert forall|i: int| 0 <= i < prev.len() && !taken.contains(path_key(#[trigger] prev[i].path)) implies !m.contains_key(
            prev[i].id,
        ) by {
            assert(prev[i] == ke[i]);
        }
        lemma_add_missing_entries_final(prev, taken, m);
        let r2 = add_missing_entries(prev, taken, m);
        let r = add_missing_entries(ke, taken, m);
        assert(x == ke[n]);
        assert(!is_known_entry_id(prev, x.id)) by {
            if is_known_entry_id(prev, x.id) {
                let i = choose|i: int| 0 <= i < prev.len() && #[trigger] prev[i].id == x.id;
                assert(prev[i] == ke[i]);
                assert(ke[i].id != ke[n].id);
            }
        }
        assert forall|k: u128| is_known_entry_id(prev, k) implies is_known_entry_id(ke, k) by {
            let i = choose|i: int| 0 <= i < prev.len() && #[trigger] prev[i].id == k;
            assert(ke[i] == prev[i]);
        }
        assert forall|k: u128| !is_known_entry_id(ke, k) implies !is_known_entry_id(prev, k)
            && k != x.id by {
            if k == x.id {
                assert(ke[n].id == k);
            }
        }
        assert forall|i: int| 0 <= i < ke.len() implies r.contains_key(#[trigger] ke[i].id)
            && r[ke[i].id] == entry_with_exists(ke[i], taken.contains(path_key(ke[i].path))) by {
            if i < n {
                assert(ke[i] == prev[i]);
                assert(ke[i].id != ke[n].id);
            }
        }
        assert forall|k: u128| #[trigger] r.contains_key(k) implies m.contains_key(k)
            || is_known_entry_id(ke, k) by {
            if k == x.id {
                assert(ke[n].id == k);
            }
        }
    }
}


/// A set made of the items of two duplicate-free sequences with no item in
/// common has as many elements as the two together.
proof fn lemma_union_len(a: Seq<u128>, b: Seq<u128>, d: Set<u128>)
    requires
        a.no_duplicates(),
        b.no_duplicates(),
        forall|i: int, j: int| 0 <= i < a.len() && 0 <= j < b.len() ==> #[trigger] a[i] != #[trigger] b[j],
        forall|k: u128| #[trigger] d.contains(k) <==> a.contains(k) || b.contains(k),
    ensures
        d.len() == a.len() + b.len(),
{
    a.unique_seq_to_set();
    b.unique_seq_to_set();
    vstd::seq_lib::seq_to_set_is_finite(a);
    vstd::seq_lib::seq_to_set_is_finite(b);
    assert(d =~= a.to_set() + b.to_set());
    assert forall|k: u128| !(a.to_set().contains(k) && b.to_set().contains(k)) by {
        if a.contains(k) && b.contains(k) {
            let i = choose|i: int| 0 <= i < a.len() && a[i] == k;
            let j = choose|j: int| 0 <= j < b.len() && b[j] == k;
            assert(a[i] != b[j]);
        }
    }
    assert(a.to_set().disjoint(b.to_set()));
    vstd::set_lib::lemma_set_disjoint_lens(a.to_set(), b.to_set());
}

/// Counting the subjects of a reconciliation that keeps the catalogue and
/// finds everything.
proof fn lemma_subject_count(ks: Seq<SubjectView>, r: ReconciledView)
    requires
        forall|i: int, j: int|
            0 <= i < ks.len() && 0 <= j < ks.len() && i != j ==> #[trigger] ks[i].id != #[trigger] ks[j].id,
        forall|j1: int, j2: int|
            0 <= j1 < r.new_subjects.len() && 0 <= j2 < r.new_subjects.len() && j1 != j2 ==> (
            #[trigger] r.new_subjects[j1]).id != (#[trigger] r.new_subjects[j2]).id,
        forall|j: int| 0 <= j < r.new_subjects.len() ==> !is_known_subject_id(ks, (#[trigger] r.new_subjects[j]).id),
        forall|i: int| 0 <= i < ks.len() ==> r.subjects.contains_key(#[trigger] ks[i].id),
        forall|j: int| 0 <= j < r.new_subjects.len() ==> r.subjects.contains_key((#[trigger] r.new_subjects[j]).id),
        forall|k: u128|
            #[trigger] r.subjects.contains_key(k) ==> is_known_subject_id(ks, k) || exists|j: int|
                0 <= j < r.new_subjects.len() && #[trigger] r.new_subjects[j].id == k,
    ensures
        r.subjects.len() == ks.len() + r.new_subjects.len(),
{
    let a = ks.map_values(|s: SubjectView| s.id);
    let b = r.new_subjects.map_values(|s: SubjectView| s.id);
    assert forall|i: int, j: int| 0 <= i < a.len() && 0 <= j < a.len() && i != j implies a[i] != a[j] by {
        assert(ks[i].id != ks[j].id);
    }
    assert forall|i: int, j: int| 0 <= i < b.len() && 0 <= j < b.len() && i != j implies b[i] != b[j] by {
        assert(r.new_subjects[i].id != r.new_subjects[j].id);
    }
    assert forall|i: int, j: int| 0 <= i < a.len() && 0 <= j < b.len() implies #[trigger] a[i] != #[trigger] b[j] by {
        assert(!is_known_subject_id(ks, r.new_subjects[j].id));
        assert(ks[i].id == a[i]);
    }
    assert forall|k: u128| #[trigger] r.subjects.dom().contains(k) <==> a.contains(k) || b.contains(k) by {
        if r.subjects.contains_key(k) {
            if is_known_subject_id(ks, k) {
                let i = choose|i: int| 0 <= i < ks.len() && #[trigger] ks[i].id == k;
                assert(a[i] == k);
            } else {
                let j = choose|j: int| 0 <= j < r.new_subjects.len() && #[trigger] r.new_subjects[j].id == k;
                assert(b[j] == k);
            }
        }
        if a.contains(k) {
            let i = choose|i: int| 0 <= i < a.len() && a[i] == k;
            assert(ks[i].id == k);
        }
        if b.contains(k) {
            let j = choose|j: int| 0 <= j < b.len() && b[j] == k;
            assert(r.new_subjects[j].id == k);
        }
    }
    lemma_union_len(a, b, r.subjects.dom());
}

/// Counting the entries of a reconciliation that keeps the catalogue and
/// finds everything.
proof fn lemma_entry_count(ke: Seq<EntryView>, r: ReconciledView)
    requires
        forall|i: int, j: int|
            0 <= i < ke.len() && 0 <= j < ke.len() && i != j ==> #[trigger] ke[i].id != #[trigger] ke[j].id,
        forall|j1: int, j2: int|
            0 <= j1 < r.new_entries.len() && 0 <= j2 < r.new_entries.len() && j1 != j2 ==> (
            #[trigger] r.new_entries[j1]).id != (#[trigger] r.new_entries[j2]).id,
        forall|j: int| 0 <= j < r.new_entries.len() ==> !is_known_entry_id(ke, (#[trigger] r.new_entries[j]).id),
        forall|i: int| 0 <= i < ke.len() ==> r.entries.contains_key(#[trigger] ke[i].id),
        forall|j: int| 0 <= j < r.new_entries.len() ==> r.entries.contains_key((#[trigger] r.new_entries[j]).id),
        forall|k: u128|
            #[trigger] r.entries.contains_key(k) ==> is_known_entry_id(ke, k) || exists|j: int|
                0 <= j < r.new_entries.len() && #[trigger] r.new_entries[j].id == k,
    ensures
        r.entries.len() == ke.len() + r.new_entries.len(),
{
    let a = ke.map_values(|e: EntryView| e.id);
    let b = r.new_entries.map_values(|e: EntryView| e.id);
    assert forall|i: int, j: int| 0 <= i < a.len() && 0 <= j < a.len() && i != j implies a[i] != a[j] by {
        assert(ke[i].id != ke[j].id);
    }
    assert forall|i: int, j: int| 0 <= i < b.len() && 0 <= j < b.len() && i != j implies b[i] != b[j] by {
        assert(r.new_entries[i].id != r.new_entries[j].id);
    }
    assert forall|i: int, j: int| 0 <= i < a.len() && 0 <= j < b.len() implies #[trigger] a[i] != #[trigger] b[j] by {
        assert(!is_known_entry_id(ke, r.new_entries[j].id));
        assert(ke[i].id == a[i]);
    }
    assert forall|k: u128| #[trigger] r.entries.dom().contains(k) <==> a.contains(k) || b.contains(k) by {
        if r.entries.contains_key(k) {
            if is_known_entry_id(ke, k) {
                let i = choose|i: int| 0 <= i < ke.len() && #[trigger] ke[i].id == k;
                assert(a[i] == k);
            } else {
                let j = choose|j: int| 0 <= j < r.new_entries.len() && #[trigger] r.new_entries[j].id == k;
                assert(b[j] == k);
            }
        }
        if a.contains(k) {
            let i = choose|i: int| 0 <= i < a.len() && a[i] == k;
            assert(ke[i].id == k);
        }
        if b.contains(k) {
            let j = choose|j: int| 0 <= j < b.len() && b[j] == k;
            assert(r.new_entries[j].id == k);
        }
    }
    lemma_union_len(a, b, r.entries.dom());
}

/// What a reconciliation `r` of the catalogue `ks`, `ke` with the scan
/// `steps` owes: every catalogue subject and entry is kept under its id,
/// marked present exactly when the scan reached its path; every subject
/// folder and file the scan reached without a catalogue row is new (and
/// kept); nothing else is in the result, so it holds as many subjects
/// (entries) as the catalogue and the new ones together.
pub open spec fn keeps_catalogue_and_finds_everything(
    ks: Seq<SubjectView>,
    ke: Seq<EntryView>,
    steps: Seq<ScanStep>,
    r: ReconciledView,
) -> bool {
    &&& forall|i: int|
        0 <= i < ks.len() ==> r.subjects.contains_key(#[trigger] ks[i].id)
            && r.subjects[ks[i].id] == subject_with_exists(
            ks[i],
            scanned_subject(steps, ks[i].path),
        )
    &&& forall|i: int|
        0 <= i < ke.len() ==> r.entries.contains_key(#[trigger] ke[i].id)
            && r.entries[ke[i].id] == entry_with_exists(ke[i], scanned_file(steps, ke[i].path))
    &&& forall|j: int|
        0 <= j < r.new_subjects.len() ==> r.subjects.contains_key(
            (#[trigger] r.new_subjects[j]).id,
        ) && r.subjects[r.new_subjects[j].id] == r.new_subjects[j] && scanned_subject(
            steps,
            r.new_subjects[j].path,
        ) && !knows_subject_path(ks, r.new_subjects[j].path)
    &&& forall|j: int|
        0 <= j < r.new_entries.len() ==> r.entries.contains_key(
            (#[trigger] r.new_entries[j]).id,
        ) && r.entries[r.new_entries[j].id] == r.new_entries[j] && scanned_file(
            steps,
            r.new_entries[j].path,
        ) && !knows_entry_path(ke, r.new_entries[j].path)
    &&& forall|p: Seq<char>|
        scanned_subject(steps, p) && !knows_subject_path(ks, p) ==> exists|j: int|
            0 <= j < r.new_subjects.len() && path_key((#[trigger] r.new_subjects[j]).path) == path_key(p)
    &&& forall|p: Seq<char>|
        scanned_file(steps, p) && !knows_entry_path(ke, p) ==> exists|j: int|
            0 <= j < r.new_entries.len() && path_key((#[trigger] r.new_entries[j]).path) == path_key(p)
    &&& forall|k: u128|
        #[trigger] r.subjects.contains_key(k) ==> is_known_subject_id(ks, k) || exists|j: int|
            0 <= j < r.new_subjects.len() && #[trigger] r.new_subjects[j].id == k
    &&& forall|k: u128|
        #[trigger] r.entries.contains_key(k) ==> is_known_entry_id(ke, k) || exists|j: int|
            0 <= j < r.new_entries.len() && #[trigger] r.new_entries[j].id == k
    &&& r.subjects.len() == ks.len() + r.new_subjects.len()
    &&& r.entries.len() == ke.len() + r.new_entries.len()
}

/// Reconciling the catalogue with a scan loses nothing and invents nothing.
/// When the catalogue's paths and ids are distinct, no path is reached
/// twice and the fresh ids are distinct and unused:
/// every catalogue subject and entry is kept under its id, marked present
/// exactly when the scan reached its path; every subject folder and file the
/// scan reached without a catalogue row is new (and kept); and nothing else
/// is in the result.
pub proof fn law_reconcile_keeps_catalogue_and_finds_everything(
    ks: Seq<SubjectView>,
    ke: Seq<EntryView>,
    steps: Seq<ScanStep>,
    fresh: Seq<u128>,
)
    requires
        distinct_subject_paths(ks),
        distinct_entry_paths(ke),
        step_paths_distinct(steps),
        ids_fresh(ks, ke, fresh),
        fresh.len() >= fresh_needed(ks, ke, steps),
    ensures
        keeps_catalogue_and_finds_everything(ks, ke, steps, reconcile_spec(ks, ke, steps, fresh)),
{
    let st = scan_fold(ks, ke, steps, fresh);
    lemma_scan_shape_independent_of_ids(ks, ke, steps, fresh, seq![]);
    lemma_subjects_inv(ks, ke, steps, fresh);
    lemma_entries_inv(ks, ke, steps, fresh);
    let r = reconcile_spec(ks, ke, steps, fresh);
    assert forall|i: int| 0 <= i < ks.len() implies st.taken_subjects.contains(path_key(#[trigger] ks[i].path))
        == scanned_subject(steps, ks[i].path) by {
        assert(knows_subject_path(ks, ks[i].path));
    }
    assert forall|i: int| 0 <= i < ke.len() implies st.taken_entries.contains(path_key(#[trigger] ke[i].path))
        == scanned_file(steps, ke[i].path) by {
        assert(knows_entry_path(ke, ke[i].path));
    }
    lemma_add_missing_subjects_final(ks, st.taken_subjects, st.subjects);
    lemma_add_missing_entries_final(ke, st.taken_entries, st.entries);
    assert forall|j: int| 0 <= j < r.new_subjects.len() implies !is_known_subject_id(
        ks,
        (#[trigger] r.new_subjects[j]).id,
    ) by {
        let s = st.new_subjects[j];
        let m = choose|m: int| 0 <= m < st.used && #[trigger] fresh[m] == s.id;
        if is_known_subject_id(ks, s.id) {
            let i = choose|i: int| 0 <= i < ks.len() && #[trigger] ks[i].id == s.id;
            assert(ks[i].id != fresh[m]);
        }
    }
    assert forall|j: int| 0 <= j < r.new_entries.len() implies !is_known_entry_id(
        ke,
        (#[trigger] r.new_entries[j]).id,
    ) by {
        let e = st.new_entries[j];
        let m = choose|m: int| 0 <= m < st.used && #[trigger] fresh[m] == e.id;
        if is_known_entry_id(ke, e.id) {
            let i = choose|i: int| 0 <= i < ke.len() && #[trigger] ke[i].id == e.id;
            assert(ke[i].id != fresh[m]);
        }
    }
    assert forall|p: Seq<char>| scanned_file(steps, p) && !knows_entry_path(ke, p) implies exists|j: int|
        0 <= j < r.new_entries.len() && path_key((#[trigger] r.new_entries[j]).path) == path_key(p) by {
        let j = choose|j: int| 0 <= j < st.new_entries.len() && path_key((#[trigger] st.new_entries[j]).path) == path_key(p);
        assert(r.new_entries[j] == st.new_entries[j]);
    }
    lemma_subject_count(ks, r);
    lemma_entry_count(ke, r);
}

/// Index of the last subject step before position `t`, or -1.
pub open spec fn last_subject_index(steps: Seq<ScanStep>, t: int) -> int
    decreases t,
{
    if t <= 0 {
        -1
    } else if steps[t - 1] is Subject {
        t - 1
    } else {
        last_subject_index(steps, t - 1)
    }
}

/// Every file step comes after some subject step (the folder it was found in).
pub open spec fn files_owned(steps: Seq<ScanStep>) -> bool {
    forall|t: int| 0 <= t < steps.len() && (#[trigger] steps[t]) is File ==> last_subject_index(steps, t) >= 0
}

proof fn lemma_last_subject_index_bounds(steps: Seq<ScanStep>, t: int)
    requires
        0 <= t <= steps.len(),
    ensures
        -1 <= last_subject_index(steps, t) < t,
        last_subject_index(steps, t) >= 0 ==> steps[last_subject_index(steps, t)] is Subject,
    decreases t,
{
    if t > 0 && !(steps[t - 1] is Subject) {
        lemma_last_subject_index_bounds(steps, t - 1);
    }
}

proof fn lemma_last_subject_index_prefix(steps: Seq<ScanStep>, t: int)
    requires
        steps.len() > 0,
        0 <= t < steps.len(),
    ensures
        last_subject_index(steps.drop_last(), t) == last_subject_index(steps, t),
    decreases t,
{
    if t > 0 {
        assert(steps.drop_last()[t - 1] == steps[t - 1]);
        lemma_last_subject_index_prefix(steps, t - 1);
    }
}

/// Under the hypotheses of the completeness law, a step only adds subjects:
/// what was there stays as it was.
proof fn lemma_subjects_grow(
    ks: Seq<SubjectView>,
    ke: Seq<EntryView>,
    steps: Seq<ScanStep>,
    fresh: Seq<u128>,
)
    requires
        steps.len() > 0,
        distinct_subject_paths(ks),
        step_paths_distinct(steps),
        ids_fresh(ks, ke, fresh),
        scan_fold(ks, ke, steps, fresh).used <= fresh.len(),
    ensures
        forall|k: u128|
            #[trigger] scan_fold(ks, ke, steps.drop_last(), fresh).subjects.contains_key(k) ==> scan_fold(
                ks,
                ke,
                steps,
                fresh,
            ).subjects.contains_key(k) && scan_fold(ks, ke, steps, fresh).subjects[k] == scan_fold(
                ks,
                ke,
                steps.drop_last(),
                fresh,
            ).subjects[k],
{
    let prev = steps.drop_last();
    let st0 = scan_fold(ks, ke, prev, fresh);
    let st = scan_fold(ks, ke, steps, fresh);
    assert(st == scan_step(ks, ke, fresh, st0, steps.last()));
    assert(st0.used <= st.used);
    lemma_last_path_new(steps);
    lemma_subjects_inv(ks, ke, prev, fresh);
    match steps.last() {
        ScanStep::File(p) => {},
        ScanStep::Subject(p) => {
            assert(!st0.taken_subjects.contains(path_key(p)));
            if knows_subject_path(ks, p) {
                lemma_known_subject_at_unique(ks, p);
                let i0 = choose|i: int|
                    0 <= i < ks.len() && path_key(ks[i].path) == path_key(p) && known_subject_at(ks, p) == ks[i];
                assert(!st0.subjects.contains_key(ks[i0].id));
            } else {
                let id = fresh[st0.used as int];
                assert(!st0.subjects.contains_key(id)) by {
                    if st0.subjects.contains_key(id) {
                        if is_known_subject_id(ks, id) {
                            let i = choose|i: int| 0 <= i < ks.len() && #[trigger] ks[i].id == id;
                            assert(ks[i].id != fresh[st0.used as int]);
                        } else {
                            let m = choose|m: int| 0 <= m < st0.used && #[trigger] fresh[m] == id;
                            assert(fresh[m] != fresh[st0.used as int]);
                        }
                    }
                }
            }
        },
    }
}

pub open spec fn owners_inv(steps: Seq<ScanStep>, st: ScanState) -> bool {
    &&& last_subject_index(steps, steps.len() as int) >= 0 ==> st.subjects.contains_key(st.current)
        && spec_same_path(st.subjects[st.current].path, step_path(
        steps[last_subject_index(steps, steps.len() as int)],
    ))
    &&& forall|j: int|
        0 <= j < st.new_entries.len() ==> exists|t: int|
            0 <= t < steps.len() && #[trigger] steps[t] == ScanStep::File(
                (#[trigger] st.new_entries[j]).path,
            ) && last_subject_index(steps, t) >= 0 && st.subjects.contains_key(
                st.new_entries[j].parent,
            ) && spec_same_path(st.subjects[st.new_entries[j].parent].path, step_path(
                steps[last_subject_index(steps, t)],
            ))
}

proof fn lemma_owners_inv(
    ks: Seq<SubjectView>,
    ke: Seq<EntryView>,
    steps: Seq<ScanStep>,
    fresh: Seq<u128>,
)
    requires
        distinct_subject_paths(ks),
        step_paths_distinct(steps),
        ids_fresh(ks, ke, fresh),
        files_owned(steps),
        scan_fold(ks, ke, steps, fresh).used <= fresh.len(),
    ensures
        owners_inv(steps, scan_fold(ks, ke, steps, fresh)),
    decreases steps.len(),
{
    if steps.len() == 0 {
        return ;
    }
    let prev = steps.drop_last();
    let n = steps.len() - 1;
    let st0 = scan_fold(ks, ke, prev, fresh);
    let st = scan_fold(ks, ke, steps, fresh);
    assert(st == scan_step(ks, ke, fresh, st0, steps.last()));
    assert(st0.used <= st.used);
    lemma_last_path_new(steps);
    assert forall|t: int| 0 <= t < prev.len() && (#[trigger] prev[t]) is File implies last_subject_index(
        prev,
        t,
    ) >= 0 by {
        assert(prev[t] == steps[t]);
        lemma_last_subject_index_prefix(steps, t);
    }
    lemma_owners_inv(ks, ke, prev, fresh);
    lemma_subjects_grow(ks, ke, steps, fresh);
    assert forall|t: int| 0 <= t < prev.len() implies last_subject_index(prev, t)
        == last_subject_index(steps, t) && #[trigger] prev[t] == steps[t] by {
        lemma_last_subject_index_prefix(steps, t);
    }
    lemma_last_subject_index_bounds(prev, prev.len() as int);
    match steps.last() {
        ScanStep::Subject(p) => {
            assert(steps[n] is Subject);
            assert(last_subject_index(steps, steps.len() as int) == n);
            assert(st.new_entries == st0.new_entries);
            assert(st.subjects.contains_key(st.current) && spec_same_path(st.subjects[st.current].path, p));
            assert forall|j: int| 0 <= j < st.new_entries.len() implies exists|t: int|
                0 <= t < steps.len() && #[trigger] steps[t] == ScanStep::File(
                    (#[trigger] st.new_entries[j]).path,
                ) && last_subject_index(steps, t) >= 0 && st.subjects.contains_key(
                    st.new_entries[j].parent,
                ) && spec_same_path(st.subjects[st.new_entries[j].parent].path, step_path(
                    steps[last_subject_index(steps, t)],
                )) by {
                let e = st0.new_entries[j];
                let t = choose|t: int|
                    0 <= t < prev.len() && #[trigger] prev[t] == ScanStep::File(e.path)
                        && last_subject_index(prev, t) >= 0 && st0.subjects.contains_key(e.parent)
                        && spec_same_path(st0.subjects[e.parent].path, step_path(prev[last_subject_index(prev, t)]));
                lemma_last_subject_index_bounds(prev, t);
                assert(prev[last_subject_index(prev, t)] == steps[last_subject_index(prev, t)]);
            }
        },
        ScanStep::File(p) => {
            assert(steps[n] is File);
            assert(last_subject_index(steps, steps.len() as int) == last_subject_index(
                steps,
                n as int,
            ));
            assert(last_subject_index(steps, n as int) >= 0);
            assert(last_subject_index(prev, prev.len() as int) == last_subject_index(
                steps,
                n as int,
            ));
            let u = last_subject_index(steps, n as int);
            assert(prev[u] == steps[u]);
            assert(st.subjects == st0.subjects);
            assert(st.current == st0.current);
            assert forall|j: int| 0 <= j < st.new_entries.len() implies exists|t: int|
                0 <= t < steps.len() && #[trigger] steps[t] == ScanStep::File(
                    (#[trigger] st.new_entries[j]).path,
                ) && last_subject_index(steps, t) >= 0 && st.subjects.contains_key(
                    st.new_entries[j].parent,
                ) && spec_same_path(st.subjects[st.new_entries[j].parent].path, step_path(
                    steps[last_subject_index(steps, t)],
                )) by {
                if j < st0.new_entries.len() {
                    let e = st0.new_entries[j];
                    assert(st.new_entries[j] == e);
                    let t = choose|t: int|
                        0 <= t < prev.len() && #[trigger] prev[t] == ScanStep::File(e.path)
                            && last_subject_index(prev, t) >= 0 && st0.subjects.contains_key(
                            e.parent,
                        ) && spec_same_path(st0.subjects[e.parent].path, step_path(
                            prev[last_subject_index(prev, t)],
                        ));
                    lemma_last_subject_index_bounds(prev, t);
                    assert(prev[last_subject_index(prev, t)] == steps[last_subject_index(prev, t)]);
                } else {
                    let e = st.new_entries[j];
                    assert(e.parent == st0.current);
                    assert(e.path == p);
                    assert(steps[n] == ScanStep::File(e.path));
                }
            }
        },
    }
}

/// Every entry that the scan adds belongs to the subject folder it was
/// found in: its parent is the id of a subject of the result whose path is
/// the same path as the last folder reached before the file (under the hypotheses
/// of the completeness law, and when every file is reached inside a folder).
pub proof fn law_new_entries_belong_to_their_folder(
    ks: Seq<SubjectView>,
    ke: Seq<EntryView>,
    steps: Seq<ScanStep>,
    fresh: Seq<u128>,
)
    requires
        distinct_subject_paths(ks),
        distinct_entry_paths(ke),
        step_paths_distinct(steps),
        ids_fresh(ks, ke, fresh),
        files_owned(steps),
        fresh.len() >= fresh_needed(ks, ke, steps),
    ensures
        forall|j: int|
            0 <= j < reconcile_spec(ks, ke, steps, fresh).new_entries.len() ==> exists|t: int|
                0 <= t < steps.len() && #[trigger] steps[t] == ScanStep::File(
                    (#[trigger] reconcile_spec(ks, ke, steps, fresh).new_entries[j]).path,
                ) && last_subject_index(steps, t) >= 0 && reconcile_spec(
                    ks,
                    ke,
                    steps,
                    fresh,
                ).subjects.contains_key(reconcile_spec(ks, ke, steps, fresh).new_entries[j].parent)
                    && spec_same_path(reconcile_spec(ks, ke, steps, fresh).subjects[reconcile_spec(
                    ks,
                    ke,
                    steps,
                    fresh,
                ).new_entries[j].parent].path, step_path(steps[last_subject_index(steps, t)])),
{
    let st = scan_fold(ks, ke, steps, fresh);
    let r = reconcile_spec(ks, ke, steps, fresh);
    lemma_scan_shape_independent_of_ids(ks, ke, steps, fresh, seq![]);
    lemma_subjects_inv(ks, ke, steps, fresh);
    lemma_owners_inv(ks, ke, steps, fresh);
    assert forall|i: int| 0 <= i < ks.len() implies st.taken_subjects.contains(path_key(#[trigger] ks[i].path))
        == scanned_subject(steps, ks[i].path) by {
        assert(knows_subject_path(ks, ks[i].path));
    }
    lemma_add_missing_subjects_final(ks, st.taken_subjects, st.subjects);
    assert forall|k: u128| #[trigger] st.subjects.contains_key(k) implies r.subjects.contains_key(k)
        && r.subjects[k] == st.subjects[k] by {
        if is_known_subject_id(ks, k) {
            let i = choose|i: int| 0 <= i < ks.len() && #[trigger] ks[i].id == k;
            assert(scanned_subject(steps, ks[i].path));
        }
    }
    assert forall|j: int| 0 <= j < r.new_entries.len() implies exists|t: int|
        0 <= t < steps.len() && #[trigger] steps[t] == ScanStep::File(
            (#[trigger] r.new_entries[j]).path,
        ) && last_subject_index(steps, t) >= 0 && r.subjects.contains_key(r.new_entries[j].parent)
            && spec_same_path(r.subjects[r.new_entries[j].parent].path, step_path(
            steps[last_subject_index(steps, t)],
        )) by {
        let e = st.new_entries[j];
        let t = choose|t: int|
            0 <= t < steps.len() && #[trigger] steps[t] == ScanStep::File(e.path)
                && last_subject_index(steps, t) >= 0 && st.subjects.contains_key(e.parent)
                && spec_same_path(st.subjects[e.parent].path, step_path(steps[last_subject_index(steps, t)]));
        assert(steps[t] == ScanStep::File(r.new_entries[j].path));
    }
}


proof fn lemma_last_subject_index_at_least(steps: Seq<ScanStep>, t: int, u: int)
    requires
        0 <= u < t <= steps.len(),
        steps[u] is Subject,
    ensures
        last_subject_index(steps, t) >= u,
    decreases t,
{
    if t - 1 > u && !(steps[t - 1] is Subject) {
        lemma_last_subject_index_at_least(steps, t - 1, u);
    }
}

proof fn lemma_last_subject_index_concat(a: Seq<ScanStep>, b: Seq<ScanStep>, t: int)
    requires
        0 <= t <= a.len(),
    ensures
        last_subject_index(a + b, t) == last_subject_index(a, t),
    decreases t,
{
    if t > 0 {
        assert((a + b)[t - 1] == a[t - 1]);
        lemma_last_subject_index_concat(a, b, t - 1);
    }
}

/// In a scan of the home listing, every file is reached inside a folder.
pub proof fn lemma_home_steps_files_owned(home: Seq<FsEntry>)
    ensures
        files_owned(home_steps(home)),
    decreases home.len(),
{
    if home.len() > 0 {
        lemma_home_steps_files_owned(home.drop_last());
        let prev = home_steps(home.drop_last());
        let all = home_steps(home);
        let last = home.last();
        if last.kind == FsKind::Dir && spec_is_visible(last.path@) {
            let tail = seq![ScanStep::Subject(last.path@)] + file_steps(
                files_under(last.children@),
            );
            assert(all =~= prev + tail);
            assert forall|t: int| 0 <= t < all.len() && (#[trigger] all[t]) is File implies last_subject_index(
                all,
                t,
            ) >= 0 by {
                if t < prev.len() {
                    assert(all[t] == prev[t]);
                    lemma_last_subject_index_concat(prev, tail, t);
                } else {
                    assert(all[prev.len() as int] == ScanStep::Subject(last.path@));
                    if t > prev.len() {
                        lemma_last_subject_index_at_least(all, t, prev.len() as int);
                    }
                }
            }
        } else {
            assert(all =~= prev);
        }
    }
}


/// When every path the scan reaches has a catalogue row of its kind, no
/// fresh id is used and nothing is new.
proof fn lemma_nothing_new(
    ks: Seq<SubjectView>,
    ke: Seq<EntryView>,
    steps: Seq<ScanStep>,
    fresh: Seq<u128>,
)
    requires
        step_paths_distinct(steps),
        forall|p: Seq<char>| scanned_subject(steps, p) ==> knows_subject_path(ks, p),
        forall|p: Seq<char>| scanned_file(steps, p) ==> knows_entry_path(ke, p),
    ensures
        scan_fold(ks, ke, steps, fresh).used == 0,
        scan_fold(ks, ke, steps, fresh).new_subjects.len() == 0,
        scan_fold(ks, ke, steps, fresh).new_entries.len() == 0,
        forall|p: Seq<char>|
            #[trigger] scan_fold(ks, ke, steps, fresh).taken_subjects.contains(path_key(p)) ==> scanned_subject(
                steps,
                p,
            ),
        forall|p: Seq<char>|
            #[trigger] scan_fold(ks, ke, steps, fresh).taken_entries.contains(path_key(p)) ==> scanned_file(
                steps,
                p,
            ),
    decreases steps.len(),
{
    if steps.len() > 0 {
        let prev = steps.drop_last();
        lemma_last_path_new(steps);
        assert forall|q: Seq<char>|
            (scanned_subject(steps, q) <==> scanned_subject(prev, q) || subject_step_at(steps.last(), q)) && (scanned_file(steps, q) <==> scanned_file(prev, q)
                || file_step_at(steps.last(), q)) by {
            lemma_scanned_split(steps, q);
        }
        lemma_nothing_new(ks, ke, prev, fresh);
        let st0 = scan_fold(ks, ke, prev, fresh);
        let st = scan_fold(ks, ke, steps, fresh);
        assert(st == scan_step(ks, ke, fresh, st0, steps.last()));
        match steps.last() {
            ScanStep::Subject(p) => {
                assert(scanned_subject(steps, p));
                assert(!st0.taken_subjects.contains(path_key(p)));
            },
            ScanStep::File(p) => {
                assert(scanned_file(steps, p));
                assert(!st0.taken_entries.contains(path_key(p)));
            },
        }
    }
}

/// Once the new subjects and entries of the reconciliation `r1` are added
/// to the catalogue, reconciling again with the same scan needs no fresh
/// id, finds nothing new and gives the same subjects and entries.
pub open spec fn again_finds_nothing_new(
    ks: Seq<SubjectView>,
    ke: Seq<EntryView>,
    steps: Seq<ScanStep>,
    r1: ReconciledView,
) -> bool {
    let ks2 = ks + r1.new_subjects;
    let ke2 = ke + r1.new_entries;
    let r2 = reconcile_spec(ks2, ke2, steps, seq![]);
    &&& distinct_subject_paths(ks2)
    &&& distinct_entry_paths(ke2)
    &&& subject_ids_distinct(ks2)
    &&& entry_ids_distinct(ke2)
    &&& fresh_needed(ks2, ke2, steps) == 0
    &&& r2.new_subjects.len() == 0
    &&& r2.new_entries.len() == 0
    &&& r2.subjects == r1.subjects
    &&& r2.entries == r1.entries
}

/// Reconciling is a fixpoint once the catalogue has been brought up to
/// date: after the new subjects and entries of a reconciliation are added
/// to the catalogue, reconciling again with the same scan needs no fresh id,
/// finds nothing new and gives the same subjects and entries (under the
/// hypotheses of the completeness law).
pub proof fn law_reconcile_again_finds_nothing_new(
    ks: Seq<SubjectView>,
    ke: Seq<EntryView>,
    steps: Seq<ScanStep>,
    fresh: Seq<u128>,
)
    requires
        distinct_subject_paths(ks),
        distinct_entry_paths(ke),
        step_paths_distinct(steps),
        ids_fresh(ks, ke, fresh),
        fresh.len() >= fresh_needed(ks, ke, steps),
    ensures
        again_finds_nothing_new(ks, ke, steps, reconcile_spec(ks, ke, steps, fresh)),
{
    let st1 = scan_fold(ks, ke, steps, fresh);
    let r1 = reconcile_spec(ks, ke, steps, fresh);
    let n1 = st1.new_subjects;
    let m1 = st1.new_entries;
    let ks2 = ks + n1;
    let ke2 = ke + m1;
    let none: Seq<u128> = seq![];
    lemma_scan_shape_independent_of_ids(ks, ke, steps, fresh, seq![]);
    lemma_subjects_inv(ks, ke, steps, fresh);
    lemma_entries_inv(ks, ke, steps, fresh);
    law_reconcile_keeps_catalogue_and_finds_everything(ks, ke, steps, fresh);

    // the extended catalogue has distinct paths and ids
    assert forall|i: int, j: int|
        0 <= i < ks2.len() && 0 <= j < ks2.len() && i != j implies #[trigger] ks2[i].path
        != #[trigger] ks2[j].path && ks2[i].id != ks2[j].id by {
        if i < ks.len() && j < ks.len() {
        } else if i >= ks.len() && j >= ks.len() {
            assert(ks2[i] == n1[i - ks.len()] && ks2[j] == n1[j - ks.len()]);
        } else {
            let (a, b) = if i < ks.len() { (i, j) } else { (j, i) };
            let s = n1[b - ks.len()];
            assert(ks2[b] == s && ks2[a] == ks[a]);
            assert(!knows_subject_path(ks, s.path));
            let m = choose|m: int| 0 <= m < st1.used && #[trigger] fresh[m] == s.id;
            assert(ks[a].id != fresh[m]);
        }
    }
    assert forall|i: int, j: int|
        0 <= i < ke2.len() && 0 <= j < ke2.len() && i != j implies #[trigger] ke2[i].path
        != #[trigger] ke2[j].path && ke2[i].id != ke2[j].id by {
        if i < ke.len() && j < ke.len() {
        } else if i >= ke.len() && j >= ke.len() {
            assert(ke2[i] == m1[i - ke.len()] && ke2[j] == m1[j - ke.len()]);
        } else {
            let (a, b) = if i < ke.len() { (i, j) } else { (j, i) };
            let e = m1[b - ke.len()];
            assert(ke2[b] == e && ke2[a] == ke[a]);
            assert(!knows_entry_path(ke, e.path));
            let m = choose|m: int| 0 <= m < st1.used && #[trigger] fresh[m] == e.id;
            assert(ke[a].id != fresh[m]);
        }
    }
    assert(ids_fresh(ks2, ke2, none));

    // every path the scan reaches is now catalogued
    assert forall|p: Seq<char>| scanned_subject(steps, p) implies knows_subject_path(ks2, p) by {
        if knows_subject_path(ks, p) {
            let i = choose|i: int| 0 <= i < ks.len() && path_key(ks[i].path) == path_key(p);
            assert(ks2[i] == ks[i]);
        } else {
            let j = choose|j: int| 0 <= j < n1.len() && path_key((#[trigger] n1[j]).path) == path_key(p);
            assert(ks2[ks.len() + j] == n1[j]);
        }
    }
    assert forall|p: Seq<char>| scanned_file(steps, p) implies knows_entry_path(ke2, p) by {
        if knows_entry_path(ke, p) {
            let i = choose|i: int| 0 <= i < ke.len() && path_key(ke[i].path) == path_key(p);
            assert(ke2[i] == ke[i]);
        } else {
            let j = choose|j: int| 0 <= j < m1.len() && path_key((#[trigger] m1[j]).path) == path_key(p);
            assert(ke2[ke.len() + j] == m1[j]);
        }
    }
    lemma_nothing_new(ks2, ke2, steps, none);
    law_reconcile_keeps_catalogue_and_finds_everything(ks2, ke2, steps, none);
    let r2 = reconcile_spec(ks2, ke2, steps, none);

    assert forall|k: u128| r2.subjects.contains_key(k) == r1.subjects.contains_key(k) by {
        if r2.subjects.contains_key(k) {
            let i = choose|i: int| 0 <= i < ks2.len() && #[trigger] ks2[i].id == k;
            if i < ks.len() {
                assert(ks2[i] == ks[i]);
            } else {
                assert(ks2[i] == n1[i - ks.len()]);
            }
        }
        if r1.subjects.contains_key(k) {
            if is_known_subject_id(ks, k) {
                let i = choose|i: int| 0 <= i < ks.len() && #[trigger] ks[i].id == k;
                assert(ks2[i] == ks[i]);
            } else {
                let j = choose|j: int| 0 <= j < n1.len() && #[trigger] n1[j].id == k;
                assert(ks2[ks.len() + j] == n1[j]);
            }
        }
    }
    assert forall|k: u128| #[trigger] r2.subjects.contains_key(k) implies r2.subjects[k]
        == r1.subjects[k] by {
        let i = choose|i: int| 0 <= i < ks2.len() && #[trigger] ks2[i].id == k;
        if i < ks.len() {
            assert(ks2[i] == ks[i]);
        } else {
            let s = n1[i - ks.len()];
            assert(ks2[i] == s);
            assert(scanned_subject(steps, s.path));
            assert(subject_with_exists(s, true) == s);
        }
    }
    assert(r2.subjects =~= r1.subjects);

    assert forall|k: u128| r2.entries.contains_key(k) == r1.entries.contains_key(k) by {
        if r2.entries.contains_key(k) {
            let i = choose|i: int| 0 <= i < ke2.len() && #[trigger] ke2[i].id == k;
            if i < ke.len() {
                assert(ke2[i] == ke[i]);
            } else {
                assert(ke2[i] == m1[i - ke.len()]);
            }
        }
        if r1.entries.contains_key(k) {
            if is_known_entry_id(ke, k) {
                let i = choose|i: int| 0 <= i < ke.len() && #[trigger] ke[i].id == k;
                assert(ke2[i] == ke[i]);
            } else {
                let j = choose|j: int| 0 <= j < m1.len() && #[trigger] m1[j].id == k;
                assert(ke2[ke.len() + j] == m1[j]);
            }
        }
    }
    assert forall|k: u128| #[trigger] r2.entries.contains_key(k) implies r2.entries[k]
        == r1.entries[k] by {
        let i = choose|i: int| 0 <= i < ke2.len() && #[trigger] ke2[i].id == k;
        if i < ke.len() {
            assert(ke2[i] == ke[i]);
        } else {
            let e = m1[i - ke.len()];
            assert(ke2[i] == e);
            assert(scanned_file(steps, e.path));
            assert(entry_with_exists(e, true) == e);
        }
    }
    assert(r2.entries =~= r1.entries);
}


/// Every subject row has a live row with the same path at or after it.
proof fn lemma_subject_row_has_live_successor(rows: Seq<DBSubjectView>, i: int)
    requires
        0 <= i < rows.len(),
    ensures
        exists|l: int|
            i <= l < rows.len() && subject_row_live(rows, l) && path_key(#[trigger] rows[l].path)
                == path_key(rows[i].path),
    decreases rows.len() - i,
{
    if subject_row_live(rows, i) {
        assert(subject_row_live(rows, i) && path_key(rows[i].path) == path_key(rows[i].path));
    } else {
        let j = choose|j: int| i < j < rows.len() && spec_same_path(#[trigger] rows[j].path, rows[i].path);
        lemma_subject_row_has_live_successor(rows, j);
        let l = choose|l: int|
            j <= l < rows.len() && subject_row_live(rows, l) && path_key(#[trigger] rows[l].path)
                == path_key(rows[j].path);
        assert(i <= l < rows.len() && subject_row_live(rows, l) && path_key(rows[l].path) == path_key(rows[i].path));
    }
}

/// Every entry row has a live row with the same path at or after it.
proof fn lemma_entry_row_has_live_successor(rows: Seq<DBEntryView>, i: int)
    requires
        0 <= i < rows.len(),
    ensures
        exists|l: int|
            i <= l < rows.len() && entry_row_live(rows, l) && path_key(#[trigger] rows[l].path)
                == path_key(rows[i].path),
    decreases rows.len() - i,
{
    if entry_row_live(rows, i) {
        let l = i;
        assert(i <= l < rows.len() && entry_row_live(rows, l) && path_key(rows[l].path) == path_key(rows[i].path));
    } else {
        let j = choose|j: int| i < j < rows.len() && spec_same_path(#[trigger] rows[j].path, rows[i].path);
        lemma_entry_row_has_live_successor(rows, j);
        let l = choose|l: int|
            j <= l < rows.len() && entry_row_live(rows, l) && path_key(#[trigger] rows[l].path)
                == path_key(rows[j].path);
        assert(i <= l < rows.len() && entry_row_live(rows, l) && path_key(rows[l].path) == path_key(rows[i].path));
    }
}

/// A live subject row is among the live rows.
proof fn lemma_live_subject_row_listed(rows: Seq<DBSubjectView>, n: int, l: int)
    requires
        0 <= l < n <= rows.len(),
        subject_row_live(rows, l),
    ensures
        exists|k: int| 0 <= k < live_subject_rows(rows, n).len() && #[trigger] live_subject_rows(rows, n)[k] == rows[l],
    decreases n,
{
    let prev = live_subject_rows(rows, n - 1);
    if subject_row_live(rows, n - 1) {
        assert(live_subject_rows(rows, n) =~= prev.push(rows[n - 1]));
    } else {
        assert(live_subject_rows(rows, n) =~= prev);
    }
    if l == n - 1 {
        assert(live_subject_rows(rows, n)[prev.len() as int] == rows[l]);
    } else {
        lemma_live_subject_row_listed(rows, n - 1, l);
        let k = choose|k: int| 0 <= k < prev.len() && #[trigger] prev[k] == rows[l];
        assert(live_subject_rows(rows, n)[k] == rows[l]);
    }
}

/// A live entry row is among the live rows.
proof fn lemma_live_entry_row_listed(rows: Seq<DBEntryView>, n: int, l: int)
    requires
        0 <= l < n <= rows.len(),
        entry_row_live(rows, l),
    ensures
        exists|k: int| 0 <= k < live_entry_rows(rows, n).len() && #[trigger] live_entry_rows(rows, n)[k] == rows[l],
    decreases n,
{
    let prev = live_entry_rows(rows, n - 1);
    if entry_row_live(rows, n - 1) {
        assert(live_entry_rows(rows, n) =~= prev.push(rows[n - 1]));
    } else {
        assert(live_entry_rows(rows, n) =~= prev);
    }
    if l == n - 1 {
        assert(live_entry_rows(rows, n)[prev.len() as int] == rows[l]);
    } else {
        lemma_live_entry_row_listed(rows, n - 1, l);
        let k = choose|k: int| 0 <= k < prev.len() && #[trigger] prev[k] == rows[l];
        assert(live_entry_rows(rows, n)[k] == rows[l]);
    }
}

/// Rows appended with paths of their own, distinct from each other and
/// from every earlier row, are all live and leave the earlier live rows
/// as they were.
proof fn lemma_live_subject_rows_append(rows: Seq<DBSubjectView>, extra: Seq<DBSubjectView>, n: int)
    requires
        forall|i: int, j: int|
            0 <= i < rows.len() && 0 <= j < extra.len() ==> path_key(#[trigger] rows[i].path)
                != path_key(#[trigger] extra[j].path),
        forall|i: int, j: int|
            0 <= i < extra.len() && 0 <= j < extra.len() && i != j ==> path_key(#[trigger] extra[i].path)
                != path_key(#[trigger] extra[j].path),
        0 <= n <= rows.len() + extra.len(),
    ensures
        live_subject_rows(rows + extra, n) == if n <= rows.len() {
            live_subject_rows(rows, n)
        } else {
            live_subject_rows(rows, rows.len() as int) + extra.take(n - rows.len())
        },
    decreases n,
{
    if n > 0 {
        lemma_live_subject_rows_append(rows, extra, n - 1);
        let all = rows + extra;
        let i = n - 1;
        let m = rows.len() as int;
        if i < m {
            assert forall|j: int| i < j < all.len() implies (spec_same_path(#[trigger] all[j].path, all[i].path)
                <==> (j < m && spec_same_path(rows[j].path, rows[i].path))) by {
                if j >= m {
                    assert(all[j] == extra[j - m]);
                    assert(path_key(rows[i].path) != path_key(extra[j - m].path));
                }
            }
            assert(subject_row_live(all, i) == subject_row_live(rows, i)) by {
                if subject_row_live(rows, i) {
                    assert forall|j: int| i < j < all.len() implies !spec_same_path(#[trigger] all[j].path, all[i].path) by {
                        if j < m {
                            assert(!spec_same_path(rows[j].path, rows[i].path));
                        }
                    }
                } else {
                    let j = choose|j: int| i < j < rows.len() && spec_same_path(#[trigger] rows[j].path, rows[i].path);
                    assert(spec_same_path(all[j].path, all[i].path));
                }
            }
            assert(all[i] == rows[i]);
        } else {
            assert forall|j: int| i < j < all.len() implies !spec_same_path(#[trigger] all[j].path, all[i].path) by {
                assert(all[j] == extra[j - m] && all[i] == extra[i - m]);
            }
            assert(all[i] == extra[i - m]);
            assert(extra.take(n - m) =~= extra.take(n - 1 - m).push(extra[n - 1 - m]));
        }
    }
}

/// Rows appended with paths of their own, distinct from each other and
/// from every earlier row, are all live and leave the earlier live rows
/// as they were.
proof fn lemma_live_entry_rows_append(rows: Seq<DBEntryView>, extra: Seq<DBEntryView>, n: int)
    requires
        forall|i: int, j: int|
            0 <= i < rows.len() && 0 <= j < extra.len() ==> path_key(#[trigger] rows[i].path)
                != path_key(#[trigger] extra[j].path),
        forall|i: int, j: int|
            0 <= i < extra.len() && 0 <= j < extra.len() && i != j ==> path_key(#[trigger] extra[i].path)
                != path_key(#[trigger] extra[j].path),
        0 <= n <= rows.len() + extra.len(),
    ensures
        live_entry_rows(rows + extra, n) == if n <= rows.len() {
            live_entry_rows(rows, n)
        } else {
            live_entry_rows(rows, rows.len() as int) + extra.take(n - rows.len())
        },
    decreases n,
{
    if n > 0 {
        lemma_live_entry_rows_append(rows, extra, n - 1);
        let all = rows + extra;
        let i = n - 1;
        let m = rows.len() as int;
        if i < m {
            assert forall|j: int| i < j < all.len() implies (spec_same_path(#[trigger] all[j].path, all[i].path)
                <==> (j < m && spec_same_path(rows[j].path, rows[i].path))) by {
                if j >= m {
                    assert(all[j] == extra[j - m]);
                    assert(path_key(rows[i].path) != path_key(extra[j - m].path));
                }
            }
            assert(entry_row_live(all, i) == entry_row_live(rows, i)) by {
                if entry_row_live(rows, i) {
                    assert forall|j: int| i < j < all.len() implies !spec_same_path(#[trigger] all[j].path, all[i].path) by {
                        if j < m {
                            assert(!spec_same_path(rows[j].path, rows[i].path));
                        }
                    }
                } else {
                    let j = choose|j: int| i < j < rows.len() && spec_same_path(#[trigger] rows[j].path, rows[i].path);
                    assert(spec_same_path(all[j].path, all[i].path));
                }
            }
            assert(all[i] == rows[i]);
        } else {
            assert forall|j: int| i < j < all.len() implies !spec_same_path(#[trigger] all[j].path, all[i].path) by {
                assert(all[j] == extra[j - m] && all[i] == extra[i - m]);
            }
            assert(all[i] == extra[i - m]);
            assert(extra.take(n - m) =~= extra.take(n - 1 - m).push(extra[n - 1 - m]));
        }
    }
}

/// The hyphenated text of `id` reads back as `id` (the wrapper of
/// `Uuid::parse_str` states this of every text it is given).
pub open spec fn reads_back(id: u128) -> bool {
    spec_parse_uuid(uuid_hyphenated(id)) == Some(id)
}

/// The ids of the new subjects and entries of `res` (and the parents of
/// the new entries) read back from their hyphenated text.
pub open spec fn new_ids_read_back(res: ReconciledView) -> bool {
    &&& forall|j: int| 0 <= j < res.new_subjects.len() ==> reads_back((#[trigger] res.new_subjects[j]).id)
    &&& forall|j: int|
        0 <= j < res.new_entries.len() ==> reads_back((#[trigger] res.new_entries[j]).id) && reads_back(
            res.new_entries[j].parent,
        )
}

/// After the rows of the new subjects and entries of `r` are appended to
/// the catalogue rows `rows_s`, `rows_e`, the catalogue read again is the
/// old one followed by the new items, and reconciling it with the same
/// scan needs no fresh id, finds nothing new and gives the same subjects
/// and entries.
pub open spec fn rows_again_find_nothing_new(
    rows_s: Seq<DBSubjectView>,
    rows_e: Seq<DBEntryView>,
    steps: Seq<ScanStep>,
    r: ReconciledView,
) -> bool {
    let rows_s2 = rows_s + r.new_subjects.map_values(|s: SubjectView| subject_row(s));
    let rows_e2 = rows_e + r.new_entries.map_values(|e: EntryView| entry_row(e));
    let ks = known_subjects_of(live_subject_rows(rows_s, rows_s.len() as int));
    let ke = known_entries_of(live_entry_rows(rows_e, rows_e.len() as int));
    let ks2 = known_subjects_of(live_subject_rows(rows_s2, rows_s2.len() as int));
    let ke2 = known_entries_of(live_entry_rows(rows_e2, rows_e2.len() as int));
    let r2 = reconcile_spec(ks2, ke2, steps, seq![]);
    &&& ks2 == ks + r.new_subjects
    &&& ke2 == ke + r.new_entries
    &&& fresh_needed(ks2, ke2, steps) == 0
    &&& r2.new_subjects.len() == 0
    &&& r2.new_entries.len() == 0
    &&& r2.subjects == r.subjects
    &&& r2.entries == r.entries
}

/// Writing back what a reconciliation found and reading the catalogue
/// again is a fixpoint: under the hypotheses of the completeness law, once
/// the rows of the new subjects and entries are appended to the catalogue
/// (and their id texts read back as their ids), the catalogue reads as the
/// old one followed by the new items, and a second reconciliation over the
/// same scan finds nothing new and gives the same subjects and entries.
pub proof fn law_written_rows_read_back_to_a_fixpoint(
    rows_s: Seq<DBSubjectView>,
    rows_e: Seq<DBEntryView>,
    steps: Seq<ScanStep>,
    fresh: Seq<u128>,
)
    requires
        step_paths_distinct(steps),
        ids_fresh(
            known_subjects_of(live_subject_rows(rows_s, rows_s.len() as int)),
            known_entries_of(live_entry_rows(rows_e, rows_e.len() as int)),
            fresh,
        ),
        fresh.len() >= fresh_needed(
            known_subjects_of(live_subject_rows(rows_s, rows_s.len() as int)),
            known_entries_of(live_entry_rows(rows_e, rows_e.len() as int)),
            steps,
        ),
        ({
            let r = reconcile_spec(
                known_subjects_of(live_subject_rows(rows_s, rows_s.len() as int)),
                known_entries_of(live_entry_rows(rows_e, rows_e.len() as int)),
                steps,
                fresh,
            );
            &&& forall|j: int| 0 <= j < r.new_subjects.len() ==> reads_back((#[trigger] r.new_subjects[j]).id)
            &&& forall|j: int|
                0 <= j < r.new_entries.len() ==> reads_back((#[trigger] r.new_entries[j]).id)
                    && reads_back(r.new_entries[j].parent)
        }),
    ensures
        rows_again_find_nothing_new(
            rows_s,
            rows_e,
            steps,
            reconcile_spec(
                known_subjects_of(live_subject_rows(rows_s, rows_s.len() as int)),
                known_entries_of(live_entry_rows(rows_e, rows_e.len() as int)),
                steps,
                fresh,
            ),
        ),
{
    let live_s = live_subject_rows(rows_s, rows_s.len() as int);
    let live_e = live_entry_rows(rows_e, rows_e.len() as int);
    let ks = known_subjects_of(live_s);
    let ke = known_entries_of(live_e);
    lemma_live_subject_rows_distinct_paths(rows_s);
    lemma_live_entry_rows_distinct_paths(rows_e);
    let r = reconcile_spec(ks, ke, steps, fresh);
    let st = scan_fold(ks, ke, steps, fresh);
    lemma_scan_shape_independent_of_ids(ks, ke, steps, fresh, seq![]);
    lemma_subjects_inv(ks, ke, steps, fresh);
    lemma_entries_inv(ks, ke, steps, fresh);
    law_reconcile_again_finds_nothing_new(ks, ke, steps, fresh);
    let xs = r.new_subjects.map_values(|s: SubjectView| subject_row(s));
    let xe = r.new_entries.map_values(|e: EntryView| entry_row(e));
    // the appended rows have paths of their own
    assert forall|i: int, j: int|
        0 <= i < rows_s.len() && 0 <= j < xs.len() implies path_key(#[trigger] rows_s[i].path)
        != path_key(#[trigger] xs[j].path) by {
        lemma_subject_row_has_live_successor(rows_s, i);
        let l = choose|l: int|
            i <= l < rows_s.len() && subject_row_live(rows_s, l) && path_key(#[trigger] rows_s[l].path)
                == path_key(rows_s[i].path);
        lemma_live_subject_row_listed(rows_s, rows_s.len() as int, l);
        let k = choose|k: int| 0 <= k < live_s.len() && #[trigger] live_s[k] == rows_s[l];
        assert(ks[k].path == rows_s[l].path);
        assert(!knows_subject_path(ks, r.new_subjects[j].path));
    }
    assert forall|i: int, j: int|
        0 <= i < xs.len() && 0 <= j < xs.len() && i != j implies path_key(#[trigger] xs[i].path)
        != path_key(#[trigger] xs[j].path) by {
        assert(path_key(st.new_subjects[i].path) != path_key(st.new_subjects[j].path));
    }
    assert forall|i: int, j: int|
        0 <= i < rows_e.len() && 0 <= j < xe.len() implies path_key(#[trigger] rows_e[i].path)
        != path_key(#[trigger] xe[j].path) by {
        lemma_entry_row_has_live_successor(rows_e, i);
        let l = choose|l: int|
            i <= l < rows_e.len() && entry_row_live(rows_e, l) && path_key(#[trigger] rows_e[l].path)
                == path_key(rows_e[i].path);
        lemma_live_entry_row_listed(rows_e, rows_e.len() as int, l);
        let k = choose|k: int| 0 <= k < live_e.len() && #[trigger] live_e[k] == rows_e[l];
        assert(ke[k].path == rows_e[l].path);
        assert(!knows_entry_path(ke, r.new_entries[j].path));
    }
    assert forall|i: int, j: int|
        0 <= i < xe.len() && 0 <= j < xe.len() && i != j implies path_key(#[trigger] xe[i].path)
        != path_key(#[trigger] xe[j].path) by {
        assert(path_key(st.new_entries[i].path) != path_key(st.new_entries[j].path));
    }
    lemma_live_subject_rows_append(rows_s, xs, (rows_s.len() + xs.len()) as int);
    lemma_live_entry_rows_append(rows_e, xe, (rows_e.len() + xe.len()) as int);
    assert(xs.take(xs.len() as int) =~= xs);
    assert(xe.take(xe.len() as int) =~= xe);
    // the appended rows read back as the new items
    assert(known_subjects_of(live_s + xs) =~= ks + r.new_subjects) by {
        assert forall|j: int| 0 <= j < r.new_subjects.len() implies crate::model::subject_from_row(
            #[trigger] xs[j],
            true,
        ) == r.new_subjects[j] by {
            assert(reads_back(r.new_subjects[j].id));
        }
    }
    assert(known_entries_of(live_e + xe) =~= ke + r.new_entries) by {
        assert forall|j: int| 0 <= j < r.new_entries.len() implies crate::model::entry_from_row(
            #[trigger] xe[j],
            true,
        ) == r.new_entries[j] by {
            assert(reads_back(r.new_entries[j].id) && reads_back(r.new_entries[j].parent));
        }
    }
}

/// The live subject rows have distinct paths.
proof fn lemma_live_subject_rows_distinct_paths(rows: Seq<DBSubjectView>)
    ensures
        distinct_subject_paths(known_subjects_of(live_subject_rows(rows, rows.len() as int))),
{
    crate::data_handler::lemma_live_subject_rows_distinct(rows, rows.len() as int);
}

/// The live entry rows have distinct paths.
proof fn lemma_live_entry_rows_distinct_paths(rows: Seq<DBEntryView>)
    ensures
        distinct_entry_paths(known_entries_of(live_entry_rows(rows, rows.len() as int))),
{
    crate::data_handler::lemma_live_entry_rows_distinct(rows, rows.len() as int);
}


/// The two sequences hold the same items (in any order, any number of times).
pub open spec fn same_items<A>(a: Seq<A>, b: Seq<A>) -> bool {
    forall|x: A| a.contains(x) <==> b.contains(x)
}

/// The subject ids are distinct.
pub open spec fn subject_ids_distinct(ks: Seq<SubjectView>) -> bool {
    forall|i: int, j: int|
        0 <= i < ks.len() && 0 <= j < ks.len() && i != j ==> #[trigger] ks[i].id != #[trigger] ks[j].id
}

/// The entry ids are distinct.
pub open spec fn entry_ids_distinct(ke: Seq<EntryView>) -> bool {
    forall|i: int, j: int|
        0 <= i < ke.len() && 0 <= j < ke.len() && i != j ==> #[trigger] ke[i].id != #[trigger] ke[j].id
}

proof fn lemma_same_subjects_match_alike(ks: Seq<SubjectView>, ks2: Seq<SubjectView>, p: Seq<char>)
    requires
        distinct_subject_paths(ks2),
        same_items(ks, ks2),
    ensures
        knows_subject_path(ks, p) == knows_subject_path(ks2, p),
        knows_subject_path(ks, p) ==> known_subject_at(ks, p) == known_subject_at(ks2, p),
{
    if knows_subject_path(ks, p) {
        let c = choose|i: int| 0 <= i < ks.len() && path_key(ks[i].path) == path_key(p);
        assert(ks.contains(ks[c]));
        let c2 = choose|i: int| 0 <= i < ks2.len() && ks2[i] == ks[c];
        assert(path_key(ks2[c2].path) == path_key(p));
        let d = choose|i: int| 0 <= i < ks2.len() && path_key(ks2[i].path) == path_key(p);
        if d != c2 {
            assert(path_key(ks2[d].path) != path_key(ks2[c2].path));
        }
    }
    if knows_subject_path(ks2, p) {
        let c = choose|i: int| 0 <= i < ks2.len() && path_key(ks2[i].path) == path_key(p);
        assert(ks2.contains(ks2[c]));
        let c2 = choose|i: int| 0 <= i < ks.len() && ks[i] == ks2[c];
        assert(path_key(ks[c2].path) == path_key(p));
    }
}

proof fn lemma_same_entries_match_alike(ke: Seq<EntryView>, ke2: Seq<EntryView>, p: Seq<char>)
    requires
        distinct_entry_paths(ke2),
        same_items(ke, ke2),
    ensures
        knows_entry_path(ke, p) == knows_entry_path(ke2, p),
        knows_entry_path(ke, p) ==> known_entry_at(ke, p) == known_entry_at(ke2, p),
{
    if knows_entry_path(ke, p) {
        let c = choose|i: int| 0 <= i < ke.len() && path_key(ke[i].path) == path_key(p);
        assert(ke.contains(ke[c]));
        let c2 = choose|i: int| 0 <= i < ke2.len() && ke2[i] == ke[c];
        assert(path_key(ke2[c2].path) == path_key(p));
        let d = choose|i: int| 0 <= i < ke2.len() && path_key(ke2[i].path) == path_key(p);
        if d != c2 {
            assert(path_key(ke2[d].path) != path_key(ke2[c2].path));
        }
    }
    if knows_entry_path(ke2, p) {
        let c = choose|i: int| 0 <= i < ke2.len() && path_key(ke2[i].path) == path_key(p);
        assert(ke2.contains(ke2[c]));
        let c2 = choose|i: int| 0 <= i < ke.len() && ke[i] == ke2[c];
        assert(path_key(ke[c2].path) == path_key(p));
    }
}

proof fn lemma_scan_ignores_catalogue_order(
    ks: Seq<SubjectView>,
    ke: Seq<EntryView>,
    ks2: Seq<SubjectView>,
    ke2: Seq<EntryView>,
    steps: Seq<ScanStep>,
    fresh: Seq<u128>,
)
    requires
        distinct_subject_paths(ks2),
        distinct_entry_paths(ke2),
        same_items(ks, ks2),
        same_items(ke, ke2),
    ensures
        scan_fold(ks, ke, steps, fresh) == scan_fold(ks2, ke2, steps, fresh),
    decreases steps.len(),
{
    if steps.len() > 0 {
        lemma_scan_ignores_catalogue_order(ks, ke, ks2, ke2, steps.drop_last(), fresh);
        let p = step_path(steps.last());
        lemma_same_subjects_match_alike(ks, ks2, p);
        lemma_same_entries_match_alike(ke, ke2, p);
    }
}

/// Some catalogue subject with id `k` was not taken.
pub open spec fn untaken_subject(q: Seq<SubjectView>, taken: Set<PathKey>, k: u128) -> bool {
    exists|i: int| 0 <= i < q.len() && (#[trigger] q[i]).id == k && !taken.contains(path_key(q[i].path))
}

/// What adding the missing catalogue subjects gives, key by key.
proof fn lemma_add_missing_subjects_at(ks: Seq<SubjectView>, taken: Set<PathKey>, m: Map<u128, SubjectView>)
    requires
        subject_ids_distinct(ks),
    ensures
        forall|k: u128|
            #[trigger] add_missing_subjects(ks, taken, m).contains_key(k) <==> (m.contains_key(k) || untaken_subject(
                ks,
                taken,
                k,
            )),
        forall|i: int|
            0 <= i < ks.len() && !taken.contains(path_key(ks[i].path)) ==> add_missing_subjects(ks, taken, m)[(
            #[trigger] ks[i]).id] == subject_with_exists(ks[i], false),
        forall|k: u128|
            m.contains_key(k) && !untaken_subject(ks, taken, k) ==> #[trigger] add_missing_subjects(ks, taken, m)[k]
                == m[k],
    decreases ks.len(),
{
    if ks.len() > 0 {
        let prev = ks.drop_last();
        let x = ks.last();
        let n = ks.len() - 1;
        assert forall|i: int, j: int| 0 <= i < prev.len() && 0 <= j < prev.len() && i != j implies #[trigger] prev[i].id
            != #[trigger] prev[j].id by {
            assert(prev[i] == ks[i] && prev[j] == ks[j]);
        }
        lemma_add_missing_subjects_at(prev, taken, m);
        assert(x == ks[n]);
        let m2 = add_missing_subjects(prev, taken, m);
        let r = add_missing_subjects(ks, taken, m);
        assert forall|k: u128| untaken_subject(ks, taken, k) <==> (untaken_subject(prev, taken, k) || (x.id == k
            && !taken.contains(path_key(x.path)))) by {
            if untaken_subject(ks, taken, k) {
                let i = choose|i: int|
                    0 <= i < ks.len() && (#[trigger] ks[i]).id == k && !taken.contains(path_key(ks[i].path));
                if i < n {
                    assert(prev[i] == ks[i]);
                }
            }
            if untaken_subject(prev, taken, k) {
                let i = choose|i: int|
                    0 <= i < prev.len() && (#[trigger] prev[i]).id == k && !taken.contains(path_key(prev[i].path));
                assert(ks[i] == prev[i]);
            }
            if x.id == k && !taken.contains(path_key(x.path)) {
                assert(ks[n].id == k);
            }
        }
        assert forall|i: int| 0 <= i < ks.len() && !taken.contains(path_key(ks[i].path)) implies r[(
        #[trigger] ks[i]).id] == subject_with_exists(ks[i], false) by {
            if i < n {
                assert(prev[i] == ks[i]);
                assert(ks[i].id != ks[n].id);
            }
        }
        assert forall|k: u128| m.contains_key(k) && !untaken_subject(ks, taken, k) implies #[trigger] r[k]
            == m[k] by {}
    }
}

/// Some catalogue entry with id `k` was not taken.
pub open spec fn untaken_entry(q: Seq<EntryView>, taken: Set<PathKey>, k: u128) -> bool {
    exists|i: int| 0 <= i < q.len() && (#[trigger] q[i]).id == k && !taken.contains(path_key(q[i].path))
}

/// What adding the missing catalogue entries gives, key by key.
proof fn lemma_add_missing_entries_at(ke: Seq<EntryView>, taken: Set<PathKey>, m: Map<u128, EntryView>)
    requires
        entry_ids_distinct(ke),
    ensures
        forall|k: u128|
            #[trigger] add_missing_entries(ke, taken, m).contains_key(k) <==> (m.contains_key(k) || untaken_entry(
                ke,
                taken,
                k,
            )),
        forall|i: int|
            0 <= i < ke.len() && !taken.contains(path_key(ke[i].path)) ==> add_missing_entries(ke, taken, m)[(
            #[trigger] ke[i]).id] == entry_with_exists(ke[i], false),
        forall|k: u128|
            m.contains_key(k) && !untaken_entry(ke, taken, k) ==> #[trigger] add_missing_entries(ke, taken, m)[k]
                == m[k],
    decreases ke.len(),
{
    if ke.len() > 0 {
        let prev = ke.drop_last();
        let x = ke.last();
        let n = ke.len() - 1;
        assert forall|i: int, j: int| 0 <= i < prev.len() && 0 <= j < prev.len() && i != j implies #[trigger] prev[i].id
            != #[trigger] prev[j].id by {
            assert(prev[i] == ke[i] && prev[j] == ke[j]);
        }
        lemma_add_missing_entries_at(prev, taken, m);
        assert(x == ke[n]);
        let m2 = add_missing_entries(prev, taken, m);
        let r = add_missing_entries(ke, taken, m);
        assert forall|k: u128| untaken_entry(ke, taken, k) <==> (untaken_entry(prev, taken, k) || (x.id == k
            && !taken.contains(path_key(x.path)))) by {
            if untaken_entry(ke, taken, k) {
                let i = choose|i: int|
                    0 <= i < ke.len() && (#[trigger] ke[i]).id == k && !taken.contains(path_key(ke[i].path));
                if i < n {
                    assert(prev[i] == ke[i]);
                }
            }
            if untaken_entry(prev, taken, k) {
                let i = choose|i: int|
                    0 <= i < prev.len() && (#[trigger] prev[i]).id == k && !taken.contains(path_key(prev[i].path));
                assert(ke[i] == prev[i]);
            }
            if x.id == k && !taken.contains(path_key(x.path)) {
                assert(ke[n].id == k);
            }
        }
        assert forall|i: int| 0 <= i < ke.len() && !taken.contains(path_key(ke[i].path)) implies r[(
        #[trigger] ke[i]).id] == entry_with_exists(ke[i], false) by {
            if i < n {
                assert(prev[i] == ke[i]);
                assert(ke[i].id != ke[n].id);
            }
        }
        assert forall|k: u128| m.contains_key(k) && !untaken_entry(ke, taken, k) implies #[trigger] r[k]
            == m[k] by {}
    }
}

/// Reconciliation does not depend on the order of the catalogue: two
/// catalogues that hold the same subjects and entries, each with distinct
/// paths and distinct ids, reconcile with a scan to the same result.
pub proof fn law_reconcile_ignores_catalogue_order(
    ks: Seq<SubjectView>,
    ke: Seq<EntryView>,
    ks2: Seq<SubjectView>,
    ke2: Seq<EntryView>,
    steps: Seq<ScanStep>,
    fresh: Seq<u128>,
)
    requires
        distinct_subject_paths(ks),
        distinct_subject_paths(ks2),
        distinct_entry_paths(ke),
        distinct_entry_paths(ke2),
        subject_ids_distinct(ks),
        subject_ids_distinct(ks2),
        entry_ids_distinct(ke),
        entry_ids_distinct(ke2),
        same_items(ks, ks2),
        same_items(ke, ke2),
    ensures
        reconcile_spec(ks, ke, steps, fresh) == reconcile_spec(ks2, ke2, steps, fresh),
{
    lemma_scan_ignores_catalogue_order(ks, ke, ks2, ke2, steps, fresh);
    let st = scan_fold(ks, ke, steps, fresh);
    lemma_add_missing_subjects_at(ks, st.taken_subjects, st.subjects);
    lemma_add_missing_subjects_at(ks2, st.taken_subjects, st.subjects);
    lemma_add_missing_entries_at(ke, st.taken_entries, st.entries);
    lemma_add_missing_entries_at(ke2, st.taken_entries, st.entries);
    let a = add_missing_subjects(ks, st.taken_subjects, st.subjects);
    let b = add_missing_subjects(ks2, st.taken_subjects, st.subjects);
    let t = st.taken_subjects;
    assert forall|k: u128| untaken_subject(ks, t, k) <==> untaken_subject(ks2, t, k) by {
        if untaken_subject(ks, t, k) {
            let i = choose|i: int| 0 <= i < ks.len() && (#[trigger] ks[i]).id == k && !t.contains(path_key(ks[i].path));
            assert(ks.contains(ks[i]));
            let i2 = choose|i2: int| 0 <= i2 < ks2.len() && ks2[i2] == ks[i];
            assert(ks2[i2].id == k && !t.contains(path_key(ks2[i2].path)));
        }
        if untaken_subject(ks2, t, k) {
            let i = choose|i: int| 0 <= i < ks2.len() && (#[trigger] ks2[i]).id == k && !t.contains(path_key(ks2[i].path));
            assert(ks2.contains(ks2[i]));
            let i2 = choose|i2: int| 0 <= i2 < ks.len() && ks[i2] == ks2[i];
            assert(ks[i2].id == k && !t.contains(path_key(ks[i2].path)));
        }
    }
    assert forall|k: u128| #[trigger] a.contains_key(k) implies b.contains_key(k) && a[k] == b[k] by {
        if untaken_subject(ks, t, k) {
            let i = choose|i: int| 0 <= i < ks.len() && (#[trigger] ks[i]).id == k && !t.contains(path_key(ks[i].path));
            assert(ks.contains(ks[i]));
            let i2 = choose|i2: int| 0 <= i2 < ks2.len() && ks2[i2] == ks[i];
            assert(a[ks[i].id] == subject_with_exists(ks[i], false));
            assert(b[ks2[i2].id] == subject_with_exists(ks2[i2], false));
        }
    }
    assert forall|k: u128| #[trigger] b.contains_key(k) implies a.contains_key(k) by {}
    assert(a =~= b);
    let c = add_missing_entries(ke, st.taken_entries, st.entries);
    let d = add_missing_entries(ke2, st.taken_entries, st.entries);
    let u = st.taken_entries;
    assert forall|k: u128| untaken_entry(ke, u, k) <==> untaken_entry(ke2, u, k) by {
        if untaken_entry(ke, u, k) {
            let i = choose|i: int| 0 <= i < ke.len() && (#[trigger] ke[i]).id == k && !u.contains(path_key(ke[i].path));
            assert(ke.contains(ke[i]));
            let i2 = choose|i2: int| 0 <= i2 < ke2.len() && ke2[i2] == ke[i];
            assert(ke2[i2].id == k && !u.contains(path_key(ke2[i2].path)));
        }
        if untaken_entry(ke2, u, k) {
            let i = choose|i: int| 0 <= i < ke2.len() && (#[trigger] ke2[i]).id == k && !u.contains(path_key(ke2[i].path));
            assert(ke2.contains(ke2[i]));
            let i2 = choose|i2: int| 0 <= i2 < ke.len() && ke[i2] == ke2[i];
            assert(ke[i2].id == k && !u.contains(path_key(ke[i2].path)));
        }
    }
    assert forall|k: u128| #[trigger] c.contains_key(k) implies d.contains_key(k) && c[k] == d[k] by {
        if untaken_entry(ke, u, k) {
            let i = choose|i: int| 0 <= i < ke.len() && (#[trigger] ke[i]).id == k && !u.contains(path_key(ke[i].path));
            assert(ke.contains(ke[i]));
            let i2 = choose|i2: int| 0 <= i2 < ke2.len() && ke2[i2] == ke[i];
            assert(c[ke[i].id] == entry_with_exists(ke[i], false));
            assert(d[ke2[i2].id] == entry_with_exists(ke2[i2], false));
        }
    }
    assert forall|k: u128| #[trigger] d.contains_key(k) implies c.contains_key(k) by {}
    assert(c =~= d);
}


/// No two subject rows have the same path.
pub open spec fn subject_row_paths_distinct(rows: Seq<DBSubjectView>) -> bool {
    forall|i: int, j: int|
        0 <= i < rows.len() && 0 <= j < rows.len() && i != j ==> path_key(#[trigger] rows[i].path)
            != path_key(#[trigger] rows[j].path)
}

/// Rows with distinct paths are all live.
proof fn lemma_subject_rows_all_live(rows: Seq<DBSubjectView>, n: int)
    requires
        subject_row_paths_distinct(rows),
        0 <= n <= rows.len(),
    ensures
        live_subject_rows(rows, n) == rows.take(n),
    decreases n,
{
    if n > 0 {
        lemma_subject_rows_all_live(rows, n - 1);
        assert forall|j: int| n - 1 < j < rows.len() implies !spec_same_path(
            #[trigger] rows[j].path,
            rows[n - 1].path,
        ) by {
            assert(path_key(rows[j].path) != path_key(rows[n - 1].path));
        }
        assert(subject_row_live(rows, n - 1));
        assert(rows.take(n) =~= rows.take(n - 1).push(rows[n - 1]));
        assert(live_subject_rows(rows, n) =~= live_subject_rows(rows, n - 1).push(rows[n - 1]));
    } else {
        assert(rows.take(0) =~= seq![]);
    }
}

/// A catalogue read back in another order, with distinct paths, holds the
/// same subjects, with distinct paths and ids.
proof fn lemma_subject_rows_reread(all: Seq<DBSubjectView>, rows2: Seq<DBSubjectView>)
    requires
        subject_row_paths_distinct(all),
        subject_row_paths_distinct(rows2),
        same_items(rows2, all),
        subject_ids_distinct(known_subjects_of(live_subject_rows(all, all.len() as int))),
    ensures
        ({
            let k = known_subjects_of(live_subject_rows(all, all.len() as int));
            let k2 = known_subjects_of(live_subject_rows(rows2, rows2.len() as int));
            &&& distinct_subject_paths(k2)
            &&& subject_ids_distinct(k2)
            &&& same_items(k, k2)
        }),
{
    lemma_subject_rows_all_live(all, all.len() as int);
    lemma_subject_rows_all_live(rows2, rows2.len() as int);
    assert(all.take(all.len() as int) =~= all);
    assert(rows2.take(rows2.len() as int) =~= rows2);
    let k = known_subjects_of(all);
    let k2 = known_subjects_of(rows2);
    assert forall|i: int, j: int|
        0 <= i < k2.len() && 0 <= j < k2.len() && i != j implies path_key(#[trigger] k2[i].path)
        != path_key(#[trigger] k2[j].path) by {
        assert(path_key(rows2[i].path) != path_key(rows2[j].path));
    }
    assert forall|i: int, j: int| 0 <= i < k2.len() && 0 <= j < k2.len() && i != j implies #[trigger] k2[i].id
        != #[trigger] k2[j].id by {
        assert(all.contains(rows2[i]) && all.contains(rows2[j]));
        let a = choose|a: int| 0 <= a < all.len() && all[a] == rows2[i];
        let b = choose|b: int| 0 <= b < all.len() && all[b] == rows2[j];
        assert(k[a] == k2[i] && k[b] == k2[j]);
        if a != b {
            assert(k[a].id != k[b].id);
        } else {
            assert(path_key(rows2[i].path) != path_key(rows2[j].path));
        }
    }
    assert forall|x: SubjectView| k.contains(x) <==> k2.contains(x) by {
        if k.contains(x) {
            let a = choose|a: int| 0 <= a < k.len() && k[a] == x;
            assert(rows2.contains(all[a]));
            let b = choose|b: int| 0 <= b < rows2.len() && rows2[b] == all[a];
            assert(k2[b] == x);
        }
        if k2.contains(x) {
            let b = choose|b: int| 0 <= b < k2.len() && k2[b] == x;
            assert(all.contains(rows2[b]));
            let a = choose|a: int| 0 <= a < all.len() && all[a] == rows2[b];
            assert(k[a] == x);
        }
    }
}

/// No two entry rows have the same path.
pub open spec fn entry_row_paths_distinct(rows: Seq<DBEntryView>) -> bool {
    forall|i: int, j: int|
        0 <= i < rows.len() && 0 <= j < rows.len() && i != j ==> path_key(#[trigger] rows[i].path)
            != path_key(#[trigger] rows[j].path)
}

/// Rows with distinct paths are all live.
proof fn lemma_entry_rows_all_live(rows: Seq<DBEntryView>, n: int)
    requires
        entry_row_paths_distinct(rows),
        0 <= n <= rows.len(),
    ensures
        live_entry_rows(rows, n) == rows.take(n),
    decreases n,
{
    if n > 0 {
        lemma_entry_rows_all_live(rows, n - 1);
        assert forall|j: int| n - 1 < j < rows.len() implies !spec_same_path(
            #[trigger] rows[j].path,
            rows[n - 1].path,
        ) by {
            assert(path_key(rows[j].path) != path_key(rows[n - 1].path));
        }
        assert(entry_row_live(rows, n - 1));
        assert(rows.take(n) =~= rows.take(n - 1).push(rows[n - 1]));
        assert(live_entry_rows(rows, n) =~= live_entry_rows(rows, n - 1).push(rows[n - 1]));
    } else {
        assert(rows.take(0) =~= seq![]);
    }
}

/// A catalogue read back in another order, with distinct paths, holds the
/// same entries, with distinct paths and ids.
proof fn lemma_entry_rows_reread(all: Seq<DBEntryView>, rows2: Seq<DBEntryView>)
    requires
        entry_row_paths_distinct(all),
        entry_row_paths_distinct(rows2),
        same_items(rows2, all),
        entry_ids_distinct(known_entries_of(live_entry_rows(all, all.len() as int))),
    ensures
        ({
            let k = known_entries_of(live_entry_rows(all, all.len() as int));
            let k2 = known_entries_of(live_entry_rows(rows2, rows2.len() as int));
            &&& distinct_entry_paths(k2)
            &&& entry_ids_distinct(k2)
            &&& same_items(k, k2)
        }),
{
    lemma_entry_rows_all_live(all, all.len() as int);
    lemma_entry_rows_all_live(rows2, rows2.len() as int);
    assert(all.take(all.len() as int) =~= all);
    assert(rows2.take(rows2.len() as int) =~= rows2);
    let k = known_entries_of(all);
    let k2 = known_entries_of(rows2);
    assert forall|i: int, j: int|
        0 <= i < k2.len() && 0 <= j < k2.len() && i != j implies path_key(#[trigger] k2[i].path)
        != path_key(#[trigger] k2[j].path) by {
        assert(path_key(rows2[i].path) != path_key(rows2[j].path));
    }
    assert forall|i: int, j: int| 0 <= i < k2.len() && 0 <= j < k2.len() && i != j implies #[trigger] k2[i].id
        != #[trigger] k2[j].id by {
        assert(all.contains(rows2[i]) && all.contains(rows2[j]));
        let a = choose|a: int| 0 <= a < all.len() && all[a] == rows2[i];
        let b = choose|b: int| 0 <= b < all.len() && all[b] == rows2[j];
        assert(k[a] == k2[i] && k[b] == k2[j]);
        if a != b {
            assert(k[a].id != k[b].id);
        } else {
            assert(path_key(rows2[i].path) != path_key(rows2[j].path));
        }
    }
    assert forall|x: EntryView| k.contains(x) <==> k2.contains(x) by {
        if k.contains(x) {
            let a = choose|a: int| 0 <= a < k.len() && k[a] == x;
            assert(rows2.contains(all[a]));
            let b = choose|b: int| 0 <= b < rows2.len() && rows2[b] == all[a];
            assert(k2[b] == x);
        }
        if k2.contains(x) {
            let b = choose|b: int| 0 <= b < k2.len() && k2[b] == x;
            assert(all.contains(rows2[b]));
            let a = choose|a: int| 0 <= a < all.len() && all[a] == rows2[b];
            assert(k[a] == x);
        }
    }
}

/// Reconciling the catalogue read back in the order `rows_s2`, `rows_e2`
/// with the same scan needs no fresh id, finds nothing new and gives the
/// subjects and entries of `r`.
pub open spec fn reread_finds_nothing_new(
    rows_s2: Seq<DBSubjectView>,
    rows_e2: Seq<DBEntryView>,
    steps: Seq<ScanStep>,
    r: ReconciledView,
) -> bool {
    let ks2 = known_subjects_of(live_subject_rows(rows_s2, rows_s2.len() as int));
    let ke2 = known_entries_of(live_entry_rows(rows_e2, rows_e2.len() as int));
    let r2 = reconcile_spec(ks2, ke2, steps, seq![]);
    &&& fresh_needed(ks2, ke2, steps) == 0
    &&& r2.new_subjects.len() == 0
    &&& r2.new_entries.len() == 0
    &&& r2.subjects == r.subjects
    &&& r2.entries == r.entries
}

/// The rows of the catalogue after the new items of `r` are written: the
/// old ones and those of the new subjects (entries), in any order.
pub open spec fn holds_written_subject_rows(
    rows_s2: Seq<DBSubjectView>,
    rows_s: Seq<DBSubjectView>,
    r: ReconciledView,
) -> bool {
    same_items(rows_s2, rows_s + r.new_subjects.map_values(|s: SubjectView| subject_row(s)))
}

pub open spec fn holds_written_entry_rows(
    rows_e2: Seq<DBEntryView>,
    rows_e: Seq<DBEntryView>,
    r: ReconciledView,
) -> bool {
    same_items(rows_e2, rows_e + r.new_entries.map_values(|e: EntryView| entry_row(e)))
}

/// Running again after writing back is a fixpoint whatever order the
/// catalogue is read back in: under the hypotheses of the completeness law,
/// when no two catalogue rows share a path and the new ids read back from
/// their text, a catalogue holding the old rows and those of the new
/// subjects and entries, in any order and with distinct paths, reconciles
/// with the same scan to nothing new and the same subjects and entries.
pub proof fn law_reread_in_any_order_finds_nothing_new(
    rows_s: Seq<DBSubjectView>,
    rows_e: Seq<DBEntryView>,
    steps: Seq<ScanStep>,
    fresh: Seq<u128>,
    rows_s2: Seq<DBSubjectView>,
    rows_e2: Seq<DBEntryView>,
)
    requires
        step_paths_distinct(steps),
        ids_fresh(
            known_subjects_of(live_subject_rows(rows_s, rows_s.len() as int)),
            known_entries_of(live_entry_rows(rows_e, rows_e.len() as int)),
            fresh,
        ),
        fresh.len() >= fresh_needed(
            known_subjects_of(live_subject_rows(rows_s, rows_s.len() as int)),
            known_entries_of(live_entry_rows(rows_e, rows_e.len() as int)),
            steps,
        ),
        new_ids_read_back(
            reconcile_spec(
                known_subjects_of(live_subject_rows(rows_s, rows_s.len() as int)),
                known_entries_of(live_entry_rows(rows_e, rows_e.len() as int)),
                steps,
                fresh,
            ),
        ),
        subject_row_paths_distinct(rows_s),
        entry_row_paths_distinct(rows_e),
        subject_row_paths_distinct(rows_s2),
        entry_row_paths_distinct(rows_e2),
        holds_written_subject_rows(
            rows_s2,
            rows_s,
            reconcile_spec(
                known_subjects_of(live_subject_rows(rows_s, rows_s.len() as int)),
                known_entries_of(live_entry_rows(rows_e, rows_e.len() as int)),
                steps,
                fresh,
            ),
        ),
        holds_written_entry_rows(
            rows_e2,
            rows_e,
            reconcile_spec(
                known_subjects_of(live_subject_rows(rows_s, rows_s.len() as int)),
                known_entries_of(live_entry_rows(rows_e, rows_e.len() as int)),
                steps,
                fresh,
            ),
        ),
    ensures
        reread_finds_nothing_new(
            rows_s2,
            rows_e2,
            steps,
            reconcile_spec(
                known_subjects_of(live_subject_rows(rows_s, rows_s.len() as int)),
                known_entries_of(live_entry_rows(rows_e, rows_e.len() as int)),
                steps,
                fresh,
            ),
        ),
{
    let ks = known_subjects_of(live_subject_rows(rows_s, rows_s.len() as int));
    let ke = known_entries_of(live_entry_rows(rows_e, rows_e.len() as int));
    let r = reconcile_spec(ks, ke, steps, fresh);
    let st = scan_fold(ks, ke, steps, fresh);
    lemma_live_subject_rows_distinct_paths(rows_s);
    lemma_live_entry_rows_distinct_paths(rows_e);
    lemma_scan_shape_independent_of_ids(ks, ke, steps, fresh, seq![]);
    lemma_subjects_inv(ks, ke, steps, fresh);
    lemma_entries_inv(ks, ke, steps, fresh);
    law_reconcile_again_finds_nothing_new(ks, ke, steps, fresh);
    law_written_rows_read_back_to_a_fixpoint(rows_s, rows_e, steps, fresh);
    let xs = r.new_subjects.map_values(|s: SubjectView| subject_row(s));
    let xe = r.new_entries.map_values(|e: EntryView| entry_row(e));
    let all_s = rows_s + xs;
    let all_e = rows_e + xe;
    let ks2 = ks + r.new_subjects;
    let ke2 = ke + r.new_entries;
    lemma_subject_rows_all_live(rows_s, rows_s.len() as int);
    lemma_entry_rows_all_live(rows_e, rows_e.len() as int);
    assert(rows_s.take(rows_s.len() as int) =~= rows_s);
    assert(rows_e.take(rows_e.len() as int) =~= rows_e);
    // the old and the written rows together have distinct paths
    assert forall|i: int, j: int|
        0 <= i < all_s.len() && 0 <= j < all_s.len() && i != j implies path_key(#[trigger] all_s[i].path)
        != path_key(#[trigger] all_s[j].path) by {
        let m = rows_s.len() as int;
        if i >= m && j >= m {
            assert(all_s[i] == xs[i - m] && all_s[j] == xs[j - m]);
            assert(path_key(st.new_subjects[i - m].path) != path_key(st.new_subjects[j - m].path));
        } else if i < m && j < m {
        } else {
            let (a, b) = if i < m { (i, j) } else { (j, i) };
            assert(all_s[a] == rows_s[a] && all_s[b] == xs[b - m]);
            assert(ks[a].path == rows_s[a].path);
            assert(!knows_subject_path(ks, r.new_subjects[b - m].path));
        }
    }
    assert forall|i: int, j: int|
        0 <= i < all_e.len() && 0 <= j < all_e.len() && i != j implies path_key(#[trigger] all_e[i].path)
        != path_key(#[trigger] all_e[j].path) by {
        let m = rows_e.len() as int;
        if i >= m && j >= m {
            assert(all_e[i] == xe[i - m] && all_e[j] == xe[j - m]);
            assert(path_key(st.new_entries[i - m].path) != path_key(st.new_entries[j - m].path));
        } else if i < m && j < m {
        } else {
            let (a, b) = if i < m { (i, j) } else { (j, i) };
            assert(all_e[a] == rows_e[a] && all_e[b] == xe[b - m]);
            assert(ke[a].path == rows_e[a].path);
            assert(!knows_entry_path(ke, r.new_entries[b - m].path));
        }
    }
    lemma_subject_rows_reread(all_s, rows_s2);
    lemma_entry_rows_reread(all_e, rows_e2);
    let k2 = known_subjects_of(live_subject_rows(rows_s2, rows_s2.len() as int));
    let e2 = known_entries_of(live_entry_rows(rows_e2, rows_e2.len() as int));
    assert forall|x: SubjectView| k2.contains(x) <==> ks2.contains(x) by {}
    assert forall|x: EntryView| e2.contains(x) <==> ke2.contains(x) by {}
    lemma_scan_ignores_catalogue_order(ks2, ke2, k2, e2, steps, seq![]);
    law_reconcile_ignores_catalogue_order(ks2, ke2, k2, e2, steps, seq![]);
}

} // verus!
