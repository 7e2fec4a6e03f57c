use std::collections::HashMap;
use sk_library::data_handler::DataHandler;
use sk_library::model::{DBEntry, DBSubject, Entry, Subject};
use sk_library::scan::{FsEntry, FsKind, ScanEvent};

fn uuid_to_string(id: u128) -> String {
    uuid::Uuid::from_u128(id).to_string()
}



const S1: u128 = 0x0190_0000_0000_7000_8000_0000_0000_0001;
const S2: u128 = 0x0190_0000_0000_7000_8000_0000_0000_0002;
const E1: u128 = 0x0190_0000_0000_7000_8000_0000_0000_0101;
const E2: u128 = 0x0190_0000_0000_7000_8000_0000_0000_0102;
const F1: u128 = 0x0190_0000_0000_7000_8000_0000_0000_0f01;
const F2: u128 = 0x0190_0000_0000_7000_8000_0000_0000_0f02;
const F3: u128 = 0x0190_0000_0000_7000_8000_0000_0000_0f03;

fn file(p: &str) -> FsEntry {
    FsEntry { path: p.to_string(), kind: FsKind::File, children: vec![] }
}

fn other(p: &str) -> FsEntry {
    FsEntry { path: p.to_string(), kind: FsKind::Other, children: vec![] }
}

fn dir(p: &str, children: Vec<FsEntry>) -> FsEntry {
    FsEntry { path: p.to_string(), kind: FsKind::Dir, children }
}

fn home() -> Vec<FsEntry> {
    vec![
        dir(
            "/h/maths",
            vec![
                file("/h/maths/a.pdf"),
                file("/h/maths/.secret"),
                dir("/h/maths/ch1", vec![file("/h/maths/ch1/b.pdf")]),
                dir("/h/maths/.git", vec![file("/h/maths/.git/c")]),
                other("/h/maths/link"),
            ],
        ),
        dir("/h/.sk", vec![file("/h/.sk/skdata.db")]),
        file("/h/readme.txt"),
        dir("/h/physics", vec![file("/h/physics/p.txt")]),
    ]
}

fn subject_row(id: u128, path: &str) -> DBSubject {
    DBSubject { id: uuid_to_string(id), name: path.rsplit('/').next().unwrap().to_string(), path: path.to_string(), icon: None }
}

fn entry_row(id: u128, path: &str, parent: u128) -> DBEntry {
    DBEntry {
        id: uuid_to_string(id),
        name: path.rsplit('/').next().unwrap().to_string(),
        path: path.to_string(),
        parent: uuid_to_string(parent),
    }
}

fn catalogue() -> (Vec<DBSubject>, Vec<DBEntry>) {
    (
        vec![subject_row(S1, "/h/maths"), subject_row(S2, "/h/history")],
        vec![entry_row(E1, "/h/maths/a.pdf", S1), entry_row(E2, "/h/maths/gone.pdf", S1)],
    )
}

fn sorted_ids<T>(m: &HashMap<u128, T>) -> Vec<u128> {
    let mut v: Vec<u128> = m.keys().cloned().collect();
    v.sort();
    v
}

#[test]
fn list_files_walks_depth_first_and_skips_hidden() {
    let h = home();
    let mut out = Vec::new();
    DataHandler::list_files(&h[0], &mut out);
    assert_eq!(
        out,
        vec![ScanEvent::File("/h/maths/a.pdf".to_string()), ScanEvent::File("/h/maths/ch1/b.pdf".to_string())]
    );
    let mut none = Vec::new();
    DataHandler::list_files(&h[1], &mut none);
    assert!(none.is_empty());
    DataHandler::list_files(&h[2], &mut none);
    assert!(none.is_empty());
}

#[test]
fn scan_home_lists_subjects_then_their_files() {
    let events = DataHandler::scan_home(&home());
    assert_eq!(
        events,
        vec![
            ScanEvent::Subject("/h/maths".to_string()),
            ScanEvent::File("/h/maths/a.pdf".to_string()),
            ScanEvent::File("/h/maths/ch1/b.pdf".to_string()),
            ScanEvent::Subject("/h/physics".to_string()),
            ScanEvent::File("/h/physics/p.txt".to_string()),
        ]
    );
}

#[test]
fn reconcile_with_given_ids() {
    let (ds, de) = catalogue();
    let ks = DataHandler::known_subjects(&ds).unwrap();
    let ke = DataHandler::known_entries(&de).unwrap();
    let events = DataHandler::scan_home(&home());
    assert_eq!(DataHandler::count_new_items(&ks, &ke, &events), 3);
    let r = DataHandler::reconcile(&ks, &ke, &home(), &vec![F1, F2, F3]);

    assert_eq!(sorted_ids(&r.data.subjects), vec![S1, S2, F2]);
    let maths = &r.data.subjects[&S1];
    assert!(maths.exists);
    assert_eq!(maths.path, "/h/maths");
    let history = &r.data.subjects[&S2];
    assert!(!history.exists);
    let physics = &r.data.subjects[&F2];
    assert_eq!(
        physics,
        &Subject { id: F2, name: "physics".to_string(), path: "/h/physics".to_string(), icon: None, exists: true }
    );

    assert_eq!(sorted_ids(&r.data.entries), vec![E1, E2, F1, F3]);
    assert!(r.data.entries[&E1].exists);
    assert!(!r.data.entries[&E2].exists);
    assert_eq!(
        r.data.entries[&F1],
        Entry { id: F1, name: "b.pdf".to_string(), path: "/h/maths/ch1/b.pdf".to_string(), parent: S1, exists: true }
    );
    assert_eq!(r.data.entries[&F3].parent, F2);

    assert_eq!(r.new_subjects, vec![physics.clone()]);
    assert_eq!(r.new_entries, vec![r.data.entries[&F1].clone(), r.data.entries[&F3].clone()]);
}

#[test]
fn init_builds_data_with_fresh_ids() {
    let (ds, de) = catalogue();
    let r = DataHandler::init(&ds, &de, &home());
    assert_eq!(r.data.subjects.len(), 3);
    assert_eq!(r.data.entries.len(), 4);
    assert_eq!(r.new_subjects.len(), 1);
    assert_eq!(r.new_entries.len(), 2);
    for (k, s) in &r.data.subjects {
        assert_eq!(*k, s.id);
    }
    for (k, e) in &r.data.entries {
        assert_eq!(*k, e.id);
    }
    let physics = &r.new_subjects[0];
    assert_eq!(physics.path, "/h/physics");
    assert_eq!((physics.id >> 76) & 0xf, 7);
    let p = r.new_entries.iter().find(|e| e.path == "/h/physics/p.txt").unwrap();
    assert_eq!(p.parent, physics.id);
    let b = r.new_entries.iter().find(|e| e.path == "/h/maths/ch1/b.pdf").unwrap();
    assert_eq!(b.parent, S1);
}

#[test]
fn init_on_empty_catalogue_and_home() {
    let r = DataHandler::init(&vec![], &vec![], &vec![]);
    assert!(r.data.subjects.is_empty());
    assert!(r.data.entries.is_empty());
    assert!(r.new_subjects.is_empty() && r.new_entries.is_empty());
}

#[test]
fn init_keeps_everything_missing_when_home_is_empty() {
    let (ds, de) = catalogue();
    let r = DataHandler::init(&ds, &de, &vec![]);
    assert_eq!(sorted_ids(&r.data.subjects), vec![S1, S2]);
    assert!(r.data.subjects.values().all(|s| !s.exists));
    assert_eq!(sorted_ids(&r.data.entries), vec![E1, E2]);
    assert!(r.data.entries.values().all(|e| !e.exists));
}

#[test]
fn init_refuses_a_catalogue_row_whose_id_does_not_parse() {
    let (mut ds, de) = catalogue();
    ds.push(DBSubject { id: "garbage".to_string(), name: "x".to_string(), path: "/h/x".to_string(), icon: None });
    assert!(DataHandler::try_init(&ds, &de, &home()).is_none());
    let (ds, mut de) = catalogue();
    de[0].parent = "garbage".to_string();
    assert!(DataHandler::try_init(&ds, &de, &home()).is_none());
}

#[test]
fn later_catalogue_row_for_a_path_wins() {
    let rows = vec![
        subject_row(S1, "/h/maths"),
        DBSubject { id: "garbage".to_string(), name: "x".to_string(), path: "/h/old".to_string(), icon: None },
        subject_row(S2, "/h/maths"),
        subject_row(E1, "/h/old"),
    ];
    let ks = DataHandler::known_subjects(&rows).unwrap();
    assert_eq!(ks.iter().map(|s| s.id).collect::<Vec<_>>(), vec![S2, E1]);
    let r = DataHandler::init(&rows, &vec![], &home());
    assert!(r.data.subjects[&S2].exists);
    assert!(!r.data.subjects.contains_key(&S1));
}

#[test]
fn get_all_lists_every_value_once() {
    let (ds, de) = catalogue();
    let r = DataHandler::init(&ds, &de, &home());
    let mut subjects: Vec<u128> = r.data.get_all_subjects().iter().map(|s| s.id).collect();
    subjects.sort();
    assert_eq!(subjects, sorted_ids(&r.data.subjects));
    let mut entries: Vec<u128> = r.data.get_all_entries().iter().map(|e| e.id).collect();
    entries.sort();
    assert_eq!(entries, sorted_ids(&r.data.entries));
    for e in r.data.get_all_entries() {
        assert_eq!(r.data.entries[&e.id], e);
    }
}

#[test]
fn no_new_items_when_everything_is_catalogued() {
    let (ds, de) = catalogue();
    let first = DataHandler::init(&ds, &de, &home());
    let mut ds2 = ds.clone();
    let mut de2 = de.clone();
    for s in &first.new_subjects {
        ds2.push(sk_library::model::DBSubject::from_subject(s));
    }
    for e in &first.new_entries {
        de2.push(sk_library::model::DBEntry::from_entry(e));
    }
    let second = DataHandler::init(&ds2, &de2, &home());
    assert!(second.new_subjects.is_empty());
    assert!(second.new_entries.is_empty());
    assert_eq!(sorted_ids(&second.data.subjects), sorted_ids(&first.data.subjects));
    assert_eq!(sorted_ids(&second.data.entries), sorted_ids(&first.data.entries));
    for (k, e) in &first.data.entries {
        assert_eq!(&second.data.entries[k], e);
    }
}

#[test]
fn init_gives_each_new_item_its_own_id() {
    let r = DataHandler::init(&vec![], &vec![], &home());
    let mut ids: Vec<u128> = r.new_subjects.iter().map(|s| s.id).collect();
    ids.extend(r.new_entries.iter().map(|e| e.id));
    assert!(ids.len() >= 2);
    for id in &ids {
        assert_eq!((id >> 76) & 0xf, 7);
        assert_eq!((id >> 62) & 0x3, 2);
    }
    let mut sorted = ids.clone();
    sorted.sort();
    sorted.dedup();
    assert_eq!(sorted.len(), ids.len());
    assert_eq!(r.data.subjects.len(), r.new_subjects.len());
    assert_eq!(r.data.entries.len(), r.new_entries.len());
}

#[test]
fn catalogue_paths_match_component_by_component() {
    let ds = vec![subject_row(S1, "/h/maths/")];
    let de = vec![entry_row(E1, "/h//maths/a.pdf", S1)];
    let r = DataHandler::init(&ds, &de, &home());
    assert!(r.data.subjects[&S1].exists);
    assert_eq!(r.data.subjects[&S1].path, "/h/maths/");
    assert!(r.data.entries[&E1].exists);
    assert!(r.new_subjects.iter().all(|s| s.path != "/h/maths"));
    assert!(r.new_entries.iter().all(|e| e.path != "/h/maths/a.pdf"));
    let b = r.new_entries.iter().find(|e| e.path == "/h/maths/ch1/b.pdf").unwrap();
    assert_eq!(b.parent, S1);
}

#[test]
fn later_row_for_the_same_path_wins_whatever_its_spelling() {
    let rows = vec![subject_row(S1, "/h/maths"), subject_row(S2, "/h/maths/")];
    let ks = DataHandler::known_subjects(&rows).unwrap();
    assert_eq!(ks.iter().map(|s| s.id).collect::<Vec<_>>(), vec![S2]);
}

#[test]
fn read_dir_takes_known_files_and_queues_new_ones() {
    let known = vec![Entry { id: E1, name: "a.txt".to_string(), path: "/h/m/a.txt".to_string(), parent: S1, exists: true }];
    let mut taken = vec![false];
    let mut output: HashMap<u128, Entry> = HashMap::new();
    let mut pending: Vec<Entry> = Vec::new();
    let m = dir(
        "/h/m",
        vec![
            file("/h/m/a.txt"),
            file("/h/m/b.txt"),
            dir("/h/m/.git", vec![file("/h/m/.git/d.txt")]),
            dir("/h/m/sub", vec![file("/h/m/sub/c.txt")]),
        ],
    );
    let subject = Subject { id: S1, name: "m".to_string(), path: "/h/m".to_string(), icon: None, exists: true };
    let fresh = vec![F1, F2, F3];
    let mut used = 0;
    DataHandler::read_dir(&known, &mut taken, &mut output, &mut pending, &m, &subject, &fresh, &mut used);
    assert_eq!(taken, vec![true]);
    assert_eq!(used, 2);
    assert_eq!(
        pending,
        vec![
            Entry { id: F1, name: "b.txt".to_string(), path: "/h/m/b.txt".to_string(), parent: S1, exists: true },
            Entry { id: F2, name: "c.txt".to_string(), path: "/h/m/sub/c.txt".to_string(), parent: S1, exists: true },
        ]
    );
    assert_eq!(output.len(), 3);
    assert_eq!(output[&E1], known[0]);
    assert_eq!(output[&F1], pending[0]);
    assert_eq!(output[&F2], pending[1]);
}

#[test]
fn read_dir_of_a_hidden_folder_does_nothing() {
    let known: Vec<Entry> = vec![];
    let mut taken: Vec<bool> = vec![];
    let mut output: HashMap<u128, Entry> = HashMap::new();
    let mut pending: Vec<Entry> = Vec::new();
    let hidden = dir("/h/.git", vec![file("/h/.git/x")]);
    let subject = Subject { id: S1, name: "m".to_string(), path: "/h/m".to_string(), icon: None, exists: true };
    let mut used = 0;
    DataHandler::read_dir(&known, &mut taken, &mut output, &mut pending, &hidden, &subject, &vec![F1], &mut used);
    assert!(output.is_empty() && pending.is_empty());
    assert_eq!(used, 0);
}

#[test]
fn rereading_the_catalogue_in_another_order_finds_nothing_new() {
    let (ds, de) = catalogue();
    let first = DataHandler::init(&ds, &de, &home());
    let mut ds2 = ds.clone();
    let mut de2 = de.clone();
    for s in &first.new_subjects {
        ds2.push(sk_library::model::DBSubject::from_subject(s));
    }
    for e in &first.new_entries {
        de2.push(sk_library::model::DBEntry::from_entry(e));
    }
    ds2.reverse();
    de2.reverse();
    let second = DataHandler::init(&ds2, &de2, &home());
    assert!(second.new_subjects.is_empty());
    assert!(second.new_entries.is_empty());
    for (k, s) in &first.data.subjects {
        assert_eq!(&second.data.subjects[k], s);
    }
    for (k, e) in &first.data.entries {
        assert_eq!(&second.data.entries[k], e);
    }
    assert_eq!(second.data.subjects.len(), first.data.subjects.len());
    assert_eq!(second.data.entries.len(), first.data.entries.len());
}
