use sk_library::model::{DBEntry, DBSubject, Entry, Subject};

fn uuid_to_string(id: u128) -> String {
    uuid::Uuid::from_u128(id).to_string()
}


const S1: u128 = 0x0190_0000_0000_7000_8000_0000_0000_0001;
const E1: u128 = 0x0190_0000_0000_7000_8000_0000_0000_0101;

fn db_entry(id: u128, path: &str, parent: u128) -> DBEntry {
    DBEntry {
        id: uuid_to_string(id),
        name: "n".to_string(),
        path: path.to_string(),
        parent: uuid_to_string(parent),
    }
}

#[test]
fn entry_from_db_parses_ids() {
    let row = db_entry(E1, "/h/maths/a.pdf", S1);
    let e = Entry::from_db(&row, true);
    assert_eq!(e.id, E1);
    assert_eq!(e.parent, S1);
    assert_eq!(e.name, "n");
    assert_eq!(e.path, "/h/maths/a.pdf");
    assert!(e.exists);
    let missing = Entry::from_db(&row, false);
    assert!(!missing.exists);
}

#[test]
fn entry_try_from_db_rejects_bad_ids() {
    let mut row = db_entry(E1, "/h/a", S1);
    row.parent = "zzz".to_string();
    assert_eq!(Entry::try_from_db(&row, true), None);
    let mut row = db_entry(E1, "/h/a", S1);
    row.id = "".to_string();
    assert_eq!(Entry::try_from_db(&row, true), None);
    let row = db_entry(E1, "/h/a", S1);
    assert_eq!(Entry::try_from_db(&row, true).map(|e| e.id), Some(E1));
}

#[test]
fn entry_row_round_trip() {
    let e = Entry { id: E1, name: "a.pdf".to_string(), path: "/h/m/a.pdf".to_string(), parent: S1, exists: true };
    let row = DBEntry::from_entry(&e);
    assert_eq!(row.id, uuid_to_string(E1));
    assert_eq!(row.parent, uuid_to_string(S1));
    assert_eq!(row.path, "/h/m/a.pdf");
    assert_eq!(Entry::from_db(&row, true), e);
    assert_eq!(Entry::try_from_db(&row, true), Some(e));
}

#[test]
fn subject_row_drops_icon_and_round_trips() {
    let s = Subject { id: S1, name: "maths".to_string(), path: "/h/maths".to_string(), icon: Some("book".to_string()), exists: true };
    let row = DBSubject::from_subject(&s);
    assert_eq!(row.icon, None);
    assert_eq!(row.id, uuid_to_string(S1));
    let back = Subject::from_db(&row, true);
    assert_eq!(back.id, S1);
    assert_eq!(back.icon, None);
    assert_eq!(back.name, "maths");
    let plain = Subject { icon: None, ..s };
    assert_eq!(Subject::try_from_db(&row, true), Some(plain));
}

#[test]
fn subject_from_db_keeps_icon() {
    let row = DBSubject { id: uuid_to_string(S1), name: "m".to_string(), path: "/h/m".to_string(), icon: Some("i".to_string()) };
    let s = Subject::from_db(&row, false);
    assert_eq!(s.icon, Some("i".to_string()));
    assert!(!s.exists);
    let bad = DBSubject { id: "x".to_string(), ..row };
    assert_eq!(Subject::try_from_db(&bad, true), None);
}

#[test]
fn new_items_are_named_after_their_path() {
    let e = Entry::with_id(E1, "/h/maths/notes.txt".to_string(), S1, true);
    assert_eq!(e.name, "notes.txt");
    assert_eq!(e.id, E1);
    assert_eq!(e.parent, S1);
    let s = Subject::with_id(S1, "/h/maths/".to_string(), None, true);
    assert_eq!(s.name, "maths");
    let fresh = Entry::new("/h/x/y.md".to_string(), S1, false);
    assert_eq!(fresh.name, "y.md");
    assert_eq!((fresh.id >> 76) & 0xf, 7);
    assert!(!fresh.exists);
    let fresh_subject = Subject::new("/h/physics".to_string(), Some("atom".to_string()), true);
    assert_eq!(fresh_subject.name, "physics");
    assert_eq!(fresh_subject.icon, Some("atom".to_string()));
    assert_eq!((fresh_subject.id >> 76) & 0xf, 7);
}
