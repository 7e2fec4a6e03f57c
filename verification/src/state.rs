//! The application state shared by the commands, and the decisions taken
//! when the main window comes up.

use vstd::prelude::*;

use crate::config::{db_file_path, home_db_dir, spec_home_db_dir, Config, ConfigView, DB_FILENAME};
use crate::data_handler::{lists_all_entries, lists_all_subjects, DataHandler};
use crate::model::{Entry, Subject};
use crate::paths::spec_join;

verus! {

broadcast use vstd::string::group_string_axioms;

/// The message a command answers with when no data has been loaded.
pub const STATE_NOT_FOUND: &'static str = "state not found";

/// What is loaded: the data of the home directory and the settings.
#[derive(Debug)]
pub struct SKStateInner {
    pub data: Option<DataHandler>,
    pub c: Option<Config>,
}

/// What to do when the main window comes up.
#[derive(Debug, Clone, PartialEq, Eq)]
pub enum StartupDecision {
    /// The data is loaded already: nothing to do.
    AlreadyLoaded,
    /// Open the data of this home directory (taken from the settings).
    OpenHome(String),
    /// No settings are loaded: they must be read first, if there are any.
    NeedConfig,
}

/// How to open the catalogue of a home directory.
#[derive(Debug, Clone, PartialEq, Eq)]
pub enum DbOpen {
    /// The catalogue file exists: connect to it (given the catalogue directory).
    Load(String),
    /// It does not: create the directory, the file and the tables.
    Create(String),
}

impl SKStateInner {
    /// Nothing loaded.
    pub fn new() -> (r: SKStateInner)
        ensures
            r.data is None,
            r.c is None,
    {
        SKStateInner { data: None, c: None }
    }

    /// The decision when the main window comes up: nothing to do when the
    /// data is loaded; otherwise open the home directory of the loaded
    /// settings, or read the settings when there are none.
    pub fn startup_decision(&self) -> (r: StartupDecision)
        ensures
            self.data is Some ==> r == StartupDecision::AlreadyLoaded,
            self.data is None && self.c is None ==> r == StartupDecision::NeedConfig,
            self.data is None && self.c is Some ==> (r matches StartupDecision::OpenHome(h) && h@
                == self.c->0.home_dir@),
    {
        if self.data.is_some() {
            return StartupDecision::AlreadyLoaded;
        }
        match &self.c {
            Some(c) => StartupDecision::OpenHome(c.home_dir.clone()),
            None => StartupDecision::NeedConfig,
        }
    }

    /// Installs the settings; the data is left as it was.
    pub fn set_config(&mut self, c: Config)
        ensures
            final(self).c == Some(c),
            final(self).data == old(self).data,
    {
        self.c = Some(c);
    }

    /// Installs the data; the settings are left as they were.
    pub fn set_data(&mut self, data: DataHandler)
        ensures
            final(self).data == Some(data),
            final(self).c == old(self).c,
    {
        self.data = Some(data);
    }

    /// All subjects, or the "state not found" message when no data is loaded.
    pub fn get_all_subjects(&self) -> (r: Result<Vec<Subject>, String>)
        ensures
            match r {
                Ok(v) => self.data is Some && lists_all_subjects(self.data->0, v@),
                Err(e) => self.data is None && e@ == STATE_NOT_FOUND@,
            },
    {
        match &self.data {
            Some(dh) => {
                let v = dh.get_all_subjects();
                Ok(v)
            },
            None => {
                let e = STATE_NOT_FOUND.to_string();
                assert(e@ == STATE_NOT_FOUND@);
                Err(e)
            },
        }
    }

    /// All entries, or the "state not found" message when no data is loaded.
    pub fn get_all_entries(&self) -> (r: Result<Vec<Entry>, String>)
        ensures
            match r {
                Ok(v) => self.data is Some && lists_all_entries(self.data->0, v@),
                Err(e) => self.data is None && e@ == STATE_NOT_FOUND@,
            },
    {
        match &self.data {
            Some(dh) => {
                let v = dh.get_all_entries();
                Ok(v)
            },
            None => {
                let e = STATE_NOT_FOUND.to_string();
                assert(e@ == STATE_NOT_FOUND@);
                Err(e)
            },
        }
    }
}

impl DbOpen {
    /// The catalogue directory of a home directory, and how to open it given
    /// whether its catalogue file exists.
    pub fn for_home(home_dir: &str, db_file_exists: bool) -> (r: DbOpen)
        ensures
            db_file_exists ==> (r matches DbOpen::Load(d) && d@ == spec_home_db_dir(home_dir@)),
            !db_file_exists ==> (r matches DbOpen::Create(d) && d@ == spec_home_db_dir(home_dir@)),
    {
        let db_dir = home_db_dir(home_dir);
        if db_file_exists {
            DbOpen::Load(db_dir)
        } else {
            DbOpen::Create(db_dir)
        }
    }

    /// The catalogue file to test for existence before choosing:
    /// `<home>/.sk/skdata.db`.
    pub fn probe_path(home_dir: &str) -> (r: String)
        ensures
            r@ == spec_join(spec_home_db_dir(home_dir@), DB_FILENAME@),
    {
        let db_dir = home_db_dir(home_dir);
        db_file_path(db_dir.as_str())
    }
}

} // verus!
