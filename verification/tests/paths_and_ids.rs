use sk_library::model::{DBEntry, Entry};
use sk_library::paths::{file_name, is_hidden_name, is_visible, join, same_path};

fn name(p: &str) -> Option<String> {
    file_name(p)
}

#[test]
fn file_name_of_plain_paths() {
    assert_eq!(name("a/b"), Some("b".to_string()));
    assert_eq!(name("/home/me/notes.txt"), Some("notes.txt".to_string()));
    assert_eq!(name("notes"), Some("notes".to_string()));
}

#[test]
fn file_name_ignores_trailing_separators_and_dots() {
    assert_eq!(name("a/b/"), Some("b".to_string()));
    assert_eq!(name("a/b//"), Some("b".to_string()));
    assert_eq!(name("a/b/."), Some("b".to_string()));
    assert_eq!(name("a/./b/./"), Some("b".to_string()));
    assert_eq!(name("./a"), Some("a".to_string()));
}

#[test]
fn file_name_absent() {
    assert_eq!(name(""), None);
    assert_eq!(name("/"), None);
    assert_eq!(name("."), None);
    assert_eq!(name("a/.."), None);
    assert_eq!(name(".."), None);
}

#[test]
fn file_name_agrees_with_std_path() {
    for p in ["a/b", "a/b/", "a/b/.", "/", "", ".", "a/..", "./a", "x/.hidden", "/a//b//c", "é/ü"] {
        let expected = std::path::Path::new(p)
            .file_name()
            .map(|n| n.to_string_lossy().to_string());
        assert_eq!(name(p), expected, "path {:?}", p);
    }
}

#[test]
fn hidden_and_visible() {
    assert!(is_hidden_name(".git"));
    assert!(!is_hidden_name("git"));
    assert!(!is_hidden_name(""));
    assert!(is_visible("/home/me/maths"));
    assert!(!is_visible("/home/me/.sk"));
    assert!(!is_visible("/"));
    assert!(!is_visible("a/.."));
}

#[test]
fn join_like_path_join() {
    assert_eq!(join("/home/me", ".sk"), "/home/me/.sk");
    assert_eq!(join("/home/me/", ".sk"), "/home/me/.sk");
    assert_eq!(join("", "x"), "x");
    assert_eq!(join("/a", "/b"), "/b");
    assert_eq!(join("a", ""), "a/");
    for (b, r) in [("/home/me", ".sk"), ("/home/me/", "x"), ("", "x"), ("/a", "/b"), ("a", "")] {
        let expected = std::path::Path::new(b).join(r).to_string_lossy().to_string();
        assert_eq!(join(b, r), expected);
    }
}

#[test]
fn file_name_of_join_is_the_name() {
    for base in ["", "/", "/home/me", "rel/dir/"] {
        let p = join(base, "notes.pdf");
        assert_eq!(file_name(&p), Some("notes.pdf".to_string()));
    }
}

fn row_of(id: u128, parent: u128) -> DBEntry {
    DBEntry::from_entry(&Entry { id, name: "n".to_string(), path: "/p/n".to_string(), parent, exists: true })
}

#[test]
fn uuid_text_is_hyphenated_lower_case() {
    let row = row_of(0x67e5504410b1426f9247bb680e5fe0c8, 0);
    assert_eq!(row.id, "67e55044-10b1-426f-9247-bb680e5fe0c8");
    assert_eq!(row.parent, "00000000-0000-0000-0000-000000000000");
}

#[test]
fn uuid_text_reads_back() {
    let id: u128 = 0xa1a2a3a4b1b2c1c2d1d2d3d4d5d6d7d8;
    let row = row_of(id, 7);
    assert_eq!(Entry::from_db(&row, true).id, id);
    assert_eq!(Entry::from_db(&row, true).parent, 7);
    let mut bad = row.clone();
    bad.id = "not a uuid".to_string();
    assert_eq!(Entry::try_from_db(&bad, true), None);
    bad.id = "".to_string();
    assert_eq!(Entry::try_from_db(&bad, true), None);
    let mut upper = row.clone();
    upper.id = upper.id.to_uppercase();
    assert_eq!(Entry::try_from_db(&upper, true).map(|e| e.id), Some(id));
}

#[test]
fn fresh_ids_are_version_seven() {
    let a = Entry::new("/p/a".to_string(), 0, true).id;
    let b = Entry::new("/p/b".to_string(), 0, true).id;
    assert_ne!(a, b);
    assert_eq!((a >> 76) & 0xf, 7);
    assert_eq!((a >> 62) & 0x3, 2);
    assert_eq!(row_of(a, 0).id.chars().nth(14), Some('7'));
}

#[test]
fn same_path_compares_components() {
    assert!(same_path("/h/maths", "/h/maths"));
    assert!(same_path("/h/maths/", "/h/maths"));
    assert!(same_path("/h//maths", "/h/maths"));
    assert!(same_path("/h/./maths/.", "/h/maths"));
    assert!(same_path("./a", ".//a/"));
    assert!(same_path("", ""));
    assert!(!same_path("/h/maths", "/h/math"));
    assert!(!same_path("/h/maths", "h/maths"));
    assert!(!same_path("./a", "a"));
    assert!(!same_path(".", ""));
    assert!(!same_path("/h/maths/..", "/h"));
    assert!(!same_path("/h/a/b", "/h/b/a"));
}
