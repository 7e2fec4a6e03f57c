//! Records of the catalogue (`DB*`, all text, as stored) and the values the
//! application works with (ids parsed, paths and names as text).

use vstd::prelude::*;

use crate::ids::{
    new_uuid_v7, parse_uuid, spec_parse_uuid, uuid_hyphenated, uuid_to_string, uuid_variant_bits,
    uuid_version,
};
use crate::paths::{file_name, spec_file_name};

verus! {

/// A row of the `entries` table.
#[derive(Debug, Clone, PartialEq, Eq)]
pub struct DBEntry {
    pub id: String,
    pub name: String,
    pub path: String,
    pub parent: String,
}

/// A file of a subject, as the application sees it.
#[derive(Debug, Clone, PartialEq, Eq)]
pub struct Entry {
    pub id: u128,
    pub name: String,
    pub path: String,
    pub parent: u128,
    pub exists: bool,
}

/// A row of the `subjects` table.
#[derive(Debug, Clone, PartialEq, Eq)]
pub struct DBSubject {
    pub id: String,
    pub name: String,
    pub path: String,
    pub icon: Option<String>,
}

/// A subject folder, as the application sees it.
#[derive(Debug, Clone, PartialEq, Eq)]
pub struct Subject {
    pub id: u128,
    pub name: String,
    pub path: String,
    pub icon: Option<String>,
    pub exists: bool,
}

/// A row of the `tag_aliases` table.
#[derive(Debug, Clone, PartialEq, Eq)]
pub struct DBTagAlias {
    pub id: String,
    pub alias: String,
    pub tag: String,
}

/// An alternative name of a tag.
#[derive(Debug, Clone, PartialEq, Eq)]
pub struct TagAlias {
    pub id: String,
    pub alias: String,
    pub tag: String,
}

/// A row of the `tag_relations` table.
#[derive(Debug, Clone, PartialEq, Eq)]
pub struct DBTagRelation {
    pub id: String,
    pub parent: String,
    pub child: String,
}

/// A row of the `tags` table.
#[derive(Debug, Clone, PartialEq, Eq)]
pub struct DBTag {
    pub id: String,
    pub name: String,
    pub color: String,
    pub icon: String,
}

/// A tag with its aliases and its place in the tag hierarchy.
#[derive(Debug, Clone, PartialEq, Eq)]
pub struct Tag {
    pub id: u128,
    pub name: String,
    pub color: String,
    pub icon: String,
    pub aliases: Vec<String>,
    pub parent: u128,
    pub children: Vec<u128>,
}

pub struct DBEntryView {
    pub id: Seq<char>,
    pub name: Seq<char>,
    pub path: Seq<char>,
    pub parent: Seq<char>,
}

pub struct EntryView {
    pub id: u128,
    pub name: Seq<char>,
    pub path: Seq<char>,
    pub parent: u128,
    pub exists: bool,
}

pub struct DBSubjectView {
    pub id: Seq<char>,
    pub name: Seq<char>,
    pub path: Seq<char>,
    pub icon: Option<Seq<char>>,
}

pub struct SubjectView {
    pub id: u128,
    pub name: Seq<char>,
    pub path: Seq<char>,
    pub icon: Option<Seq<char>>,
    pub exists: bool,
}

pub open spec fn opt_string_view(o: Option<String>) -> Option<Seq<char>> {
    match o {
        Some(s) => Some(s@),
        None => None,
    }
}

impl View for DBEntry {
    type V = DBEntryView;

    open spec fn view(&self) -> DBEntryView {
        DBEntryView { id: self.id@, name: self.name@, path: self.path@, parent: self.parent@ }
    }
}

impl View for Entry {
    type V = EntryView;

    open spec fn view(&self) -> EntryView {
        EntryView {
            id: self.id,
            name: self.name@,
            path: self.path@,
            parent: self.parent,
            exists: self.exists,
        }
    }
}

impl View for DBSubject {
    type V = DBSubjectView;

    open spec fn view(&self) -> DBSubjectView {
        DBSubjectView {
            id: self.id@,
            name: self.name@,
            path: self.path@,
            icon: opt_string_view(self.icon),
        }
    }
}

impl View for Subject {
    type V = SubjectView;

    open spec fn view(&self) -> SubjectView {
        SubjectView {
            id: self.id,
            name: self.name@,
            path: self.path@,
            icon: opt_string_view(self.icon),
            exists: self.exists,
        }
    }
}

/// The entry that a catalogue row describes (its ids parsed).
pub open spec fn entry_from_row(row: DBEntryView, exists: bool) -> EntryView {
    EntryView {
        id: spec_parse_uuid(row.id).unwrap(),
        name: row.name,
        path: row.path,
        parent: spec_parse_uuid(row.parent).unwrap(),
        exists,
    }
}

/// The catalogue row written for an entry.
pub open spec fn entry_row(e: EntryView) -> DBEntryView {
    DBEntryView {
        id: uuid_hyphenated(e.id),
        name: e.name,
        path: e.path,
        parent: uuid_hyphenated(e.parent),
    }
}

/// A new entry for the file at `path` with the given id: named after the file.
pub open spec fn new_entry_view(id: u128, path: Seq<char>, parent: u128, exists: bool) -> EntryView {
    EntryView { id, name: spec_file_name(path).unwrap(), path, parent, exists }
}

/// The subject that a catalogue row describes (its id parsed).
pub open spec fn subject_from_row(row: DBSubjectView, exists: bool) -> SubjectView {
    SubjectView {
        id: spec_parse_uuid(row.id).unwrap(),
        name: row.name,
        path: row.path,
        icon: row.icon,
        exists,
    }
}

/// The catalogue row written for a subject; the icon is not stored.
pub open spec fn subject_row(s: SubjectView) -> DBSubjectView {
    DBSubjectView { id: uuid_hyphenated(s.id), name: s.name, path: s.path, icon: None }
}

/// A new subject for the folder at `path` with the given id: named after the folder.
pub open spec fn new_subject_view(
    id: u128,
    path: Seq<char>,
    icon: Option<Seq<char>>,
    exists: bool,
) -> SubjectView {
    SubjectView { id, name: spec_file_name(path).unwrap(), path, icon, exists }
}

pub fn copy_opt_string(o: &Option<String>) -> (r: Option<String>)
    ensures
        opt_string_view(r) == opt_string_view(*o),
{
    match o {
        Some(s) => Some(s.clone()),
        None => None,
    }
}

impl Entry {
    /// A copy of the entry.
    pub fn duplicate(&self) -> (r: Entry)
        ensures
            r@ == self@,
    {
        Entry {
            id: self.id,
            name: self.name.clone(),
            path: self.path.clone(),
            parent: self.parent,
            exists: self.exists,
        }
    }

    /// The entry that a catalogue row describes; both of its ids must parse.
    pub fn from_db(s: &DBEntry, exists: bool) -> (r: Entry)
        requires
            spec_parse_uuid(s.id@) is Some,
            spec_parse_uuid(s.parent@) is Some,
        ensures
            r@ == entry_from_row(s@, exists),
            forall|e: EntryView| s@ == entry_row(e) && e.exists == exists ==> r@ == e,
    {
        let id = parse_uuid(s.id.as_str());
        let parent = parse_uuid(s.parent.as_str());
        Entry {
            id: id.unwrap(),
            name: s.name.clone(),
            path: s.path.clone(),
            parent: parent.unwrap(),
            exists,
        }
    }

    /// The entry that a catalogue row describes, or `None` when one of its
    /// ids does not parse.
    pub fn try_from_db(s: &DBEntry, exists: bool) -> (r: Option<Entry>)
        ensures
            match r {
                Some(e) => {
                    &&& spec_parse_uuid(s.id@) is Some
                    &&& spec_parse_uuid(s.parent@) is Some
                    &&& e@ == entry_from_row(s@, exists)
                },
                None => spec_parse_uuid(s.id@) is None || spec_parse_uuid(s.parent@) is None,
            },
            forall|e: EntryView|
                s@ == entry_row(e) && e.exists == exists ==> (r matches Some(x) && x@ == e),
    {
        let id = parse_uuid(s.id.as_str());
        let parent = parse_uuid(s.parent.as_str());
        if id.is_none() || parent.is_none() {
            return None;
        }
        Some(Entry::from_db(s, exists))
    }

    /// An entry with the given id for the file at `path`, named after the
    /// file; the path must have a file name.
    pub fn with_id(id: u128, path: String, parent_id: u128, exists: bool) -> (r: Entry)
        requires
            spec_file_name(path@) is Some,
        ensures
            r@ == new_entry_view(id, path@, parent_id, exists),
    {
        let name = file_name(path.as_str());
        Entry { id, name: name.unwrap(), path, parent: parent_id, exists }
    }

    /// A new entry, with a fresh version-7 id, for the file at `path`; the
    /// path must have a file name.
    pub fn new(path: String, parent_id: u128, exists: bool) -> (r: Entry)
        requires
            spec_file_name(path@) is Some,
        ensures
            r@ == new_entry_view(r.id, path@, parent_id, exists),
            uuid_version(r.id) == 7,
            uuid_variant_bits(r.id) == 2,
    {
        let id = new_uuid_v7();
        Entry::with_id(id, path, parent_id, exists)
    }
}

impl DBEntry {
    /// The catalogue row for an entry, as it is inserted into `entries`.
    pub fn from_entry(e: &Entry) -> (r: DBEntry)
        ensures
            r@ == entry_row(e@),
            spec_parse_uuid(r.id@) == Some(e.id),
            spec_parse_uuid(r.parent@) == Some(e.parent),
    {
        DBEntry {
            id: uuid_to_string(e.id),
            name: e.name.clone(),
            path: e.path.clone(),
            parent: uuid_to_string(e.parent),
        }
    }
}

impl Subject {
    /// A copy of the subject.
    pub fn duplicate(&self) -> (r: Subject)
        ensures
            r@ == self@,
    {
        Subject {
            id: self.id,
            name: self.name.clone(),
            path: self.path.clone(),
            icon: copy_opt_string(&self.icon),
            exists: self.exists,
        }
    }

    /// The subject that a catalogue row describes; its id must parse.
    pub fn from_db(s: &DBSubject, exists: bool) -> (r: Subject)
        requires
            spec_parse_uuid(s.id@) is Some,
        ensures
            r@ == subject_from_row(s@, exists),
            forall|x: SubjectView|
                s@ == subject_row(x) && x.exists == exists && x.icon is None ==> r@ == x,
    {
        let id = parse_uuid(s.id.as_str());
        Subject {
            id: id.unwrap(),
            name: s.name.clone(),
            path: s.path.clone(),
            icon: copy_opt_string(&s.icon),
            exists,
        }
    }

    /// The subject that a catalogue row describes, or `None` when its id
    /// does not parse.
    pub fn try_from_db(s: &DBSubject, exists: bool) -> (r: Option<Subject>)
        ensures
            match r {
                Some(x) => spec_parse_uuid(s.id@) is Some && x@ == subject_from_row(s@, exists),
                None => spec_parse_uuid(s.id@) is None,
            },
            forall|x: SubjectView|
                s@ == subject_row(x) && x.exists == exists && x.icon is None ==> (r matches Some(
                    y,
                ) && y@ == x),
    {
        let id = parse_uuid(s.id.as_str());
        if id.is_none() {
            return None;
        }
        Some(Subject::from_db(s, exists))
    }

    /// A subject with the given id for the folder at `path`, named after the
    /// folder; the path must have a file name.
    pub fn with_id(id: u128, path: String, icon: Option<String>, exists: bool) -> (r: Subject)
        requires
            spec_file_name(path@) is Some,
        ensures
            r@ == new_subject_view(id, path@, opt_string_view(icon), exists),
    {
        let name = file_name(path.as_str());
        Subject { id, name: name.unwrap(), path, icon, exists }
    }

    /// A new subject, with a fresh version-7 id, for the folder at `path`;
    /// the path must have a file name.
    pub fn new(path: String, icon: Option<String>, exists: bool) -> (r: Subject)
        requires
            spec_file_name(path@) is Some,
        ensures
            r@ == new_subject_view(r.id, path@, opt_string_view(icon), exists),
            uuid_version(r.id) == 7,
            uuid_variant_bits(r.id) == 2,
    {
        let id = new_uuid_v7();
        Subject::with_id(id, path, icon, exists)
    }
}

impl DBSubject {
    /// The catalogue row for a subject, as it is inserted into `subjects`:
    /// the icon column is left empty.
    pub fn from_subject(s: &Subject) -> (r: DBSubject)
        ensures
            r@ == subject_row(s@),
            spec_parse_uuid(r.id@) == Some(s.id),
    {
        DBSubject { id: uuid_to_string(s.id), name: s.name.clone(), path: s.path.clone(), icon: None }
    }
}

} // verus!
