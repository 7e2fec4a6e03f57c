use sk_library::config::{db_file_path, home_db_dir, Config, DB_FILENAME};
use sk_library::data_handler::DataHandler;
use sk_library::library::{file_destination, get_subject, get_subjects, library_dir, subject_dir};
use sk_library::scan::{FsEntry, FsKind};
use sk_library::state::{DbOpen, SKStateInner, StartupDecision, STATE_NOT_FOUND};

#[test]
fn new_config_takes_defaults() {
    let c = Config::new("/home/me".to_string());
    assert_eq!(c.home_dir, "/home/me");
    assert_eq!(c.db_dirname, "/home/me/.sk");
    assert_eq!(f64::from_bits(c.width_bits), 800.0);
    assert_eq!(f64::from_bits(c.height_bits), 600.0);
    assert_eq!(c.sidebar_size, 15);
    assert_eq!(c.entry_preview_size, 20);
}

#[test]
fn db_file_path_of_config() {
    let c = Config::new("/home/me/".to_string());
    assert_eq!(c.get_db_file_path(), "/home/me/.sk/skdata.db");
    assert_eq!(db_file_path("/x"), "/x/skdata.db");
    assert_eq!(home_db_dir("/x"), "/x/.sk");
    assert_eq!(DB_FILENAME, "skdata.db");
    assert_eq!(Config::get_config_file_path("/cfg/app"), "/cfg/app/sk.json");
}

#[test]
fn set_home_dir_changes_only_the_home() {
    let mut c = Config::new("/a".to_string());
    c.set_home_dir("/b".to_string());
    assert_eq!(c.home_dir, "/b");
    assert_eq!(c.db_dirname, "/a/.sk");
    assert_eq!(c.sidebar_size, 15);
}

#[test]
fn startup_decisions() {
    let mut st = SKStateInner::new();
    assert_eq!(st.startup_decision(), StartupDecision::NeedConfig);
    st.set_config(Config::new("/h".to_string()));
    assert_eq!(st.startup_decision(), StartupDecision::OpenHome("/h".to_string()));
    st.set_data(DataHandler::init(&vec![], &vec![], &vec![]).data);
    assert_eq!(st.startup_decision(), StartupDecision::AlreadyLoaded);
    assert!(st.c.is_some());
}

#[test]
fn commands_without_data_answer_state_not_found() {
    let st = SKStateInner::new();
    assert_eq!(st.get_all_subjects().unwrap_err(), "state not found");
    assert_eq!(st.get_all_entries().unwrap_err(), STATE_NOT_FOUND);
}

#[test]
fn commands_with_data_list_everything() {
    let mut st = SKStateInner::new();
    let home = vec![FsEntry {
        path: "/h/m".to_string(),
        kind: FsKind::Dir,
        children: vec![FsEntry { path: "/h/m/a".to_string(), kind: FsKind::File, children: vec![] }],
    }];
    st.set_data(DataHandler::init(&vec![], &vec![], &home).data);
    assert_eq!(st.get_all_subjects().unwrap().len(), 1);
    let entries = st.get_all_entries().unwrap();
    assert_eq!(entries.len(), 1);
    assert_eq!(entries[0].name, "a");
}

#[test]
fn opening_the_catalogue() {
    assert_eq!(DbOpen::for_home("/h", true), DbOpen::Load("/h/.sk".to_string()));
    assert_eq!(DbOpen::for_home("/h", false), DbOpen::Create("/h/.sk".to_string()));
    assert_eq!(DbOpen::probe_path("/h"), "/h/.sk/skdata.db");
    assert_eq!(DbOpen::probe_path("/h"), Config::new("/h".to_string()).get_db_file_path());
}

fn node(p: &str, kind: FsKind) -> FsEntry {
    FsEntry { path: p.to_string(), kind, children: vec![] }
}

#[test]
fn library_listing() {
    let listing = vec![
        node("/u/sylabus/maths", FsKind::Dir),
        node("/u/sylabus/.trash", FsKind::Dir),
        node("/u/sylabus/notes.txt", FsKind::File),
        node("/u/sylabus/physics", FsKind::Dir),
    ];
    assert_eq!(get_subjects(&listing), vec!["maths".to_string(), "physics".to_string()]);
    let files = vec![
        node("/u/sylabus/maths/a.pdf", FsKind::File),
        node("/u/sylabus/maths/.b", FsKind::File),
        node("/u/sylabus/maths/sub", FsKind::Dir),
        node("/u/sylabus/maths/c.txt", FsKind::File),
    ];
    assert_eq!(
        get_subject(&files),
        vec![
            ("a.pdf".to_string(), "/u/sylabus/maths/a.pdf".to_string()),
            ("c.txt".to_string(), "/u/sylabus/maths/c.txt".to_string()),
        ]
    );
}

#[test]
fn library_paths() {
    assert_eq!(library_dir("/u"), "/u/sylabus");
    assert_eq!(subject_dir("/u", "maths"), "/u/sylabus/maths");
    assert_eq!(file_destination("/u", "maths", "/tmp/x/notes.pdf"), "/u/sylabus/maths/notes.pdf");
}
