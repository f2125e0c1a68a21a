//! The index of all projects.

use crate::models::project_config::ProjectMetaData;
use crate::text::texts_of;
use crate::utils::str_equal;
use vstd::prelude::*;

verus! {

/// Why the index could not be changed or searched.
#[derive(Clone, Copy, Debug, PartialEq, Eq)]
pub enum IndexError {
    /// A project of that name, or at that path, is in the index already.
    ProjectAlreadyExists,
    /// No project of that name is in the index.
    ProjectNotFound,
}

/// The projects that the project manager knows, in the order in which they
/// were added.
#[derive(Debug, PartialEq, Eq)]
pub struct ProjectIndex {
    pub projects: Vec<ProjectMetaData>,
}

impl ProjectIndex {
    /// The names of the projects, in the order of the index.
    pub open spec fn names(self) -> Seq<Seq<char>> {
        Seq::new(self.projects@.len(), |i: int| self.projects@[i].name@)
    }

    /// Whether some project has the name `name` or lies at `path`.
    pub open spec fn holds(self, name: Seq<char>, path: Seq<char>) -> bool {
        exists|i: int|
            0 <= i < self.projects@.len() && ((#[trigger] self.projects@[i]).name@ == name
                || self.projects@[i].path@ == path)
    }

    /// Whether some project has the name `name`.
    pub open spec fn has_name(self, name: Seq<char>) -> bool {
        exists|i: int| 0 <= i < self.projects@.len() && (#[trigger] self.projects@[i]).name@ == name
    }

    /// Whether the project at `i` is the first of the index with the name
    /// `name`.
    pub open spec fn is_first_named(self, i: int, name: Seq<char>) -> bool {
        &&& 0 <= i < self.projects@.len()
        &&& self.projects@[i].name@ == name
        &&& forall|j: int| 0 <= j < i ==> (#[trigger] self.projects@[j]).name@ != name
    }

    /// An index without projects.
    pub fn new() -> (index: Self)
        ensures
            index.projects@.len() == 0,
    {
        ProjectIndex { projects: Vec::new() }
    }

    /// The index to work on: the one that was loaded, or an index without
    /// projects where none could be loaded.
    pub fn load_or_new(loaded: Option<ProjectIndex>) -> (index: Self)
        ensures
            loaded matches Some(p_index) ==> index == p_index,
            loaded is None ==> index.projects@.len() == 0,
    {
        match loaded {
            Some(p_index) => p_index,
            None => Self::new(),
        }
    }

    /// Whether a project of the name `name`, or at the path `path`, is in the
    /// index.
    pub fn project_exists(&self, name: &str, path: &str) -> (found: bool)
        ensures
            found == self.holds(name@, path@),
    {
        let mut i: usize = 0;
        while i < self.projects.len()
            invariant
                i <= self.projects@.len(),
                forall|j: int|
                    0 <= j < i ==> (#[trigger] self.projects@[j]).name@ != name@
                        && self.projects@[j].path@ != path@,
            decreases self.projects@.len() - i,
        {
            let project = &self.projects[i];
            if str_equal(project.name.as_str(), name) || str_equal(project.path.as_str(), path) {
                return true;
            }
            i += 1;
        }
        false
    }

    /// Where the first project of the name `name` stands in the index.
    fn position_by_name(&self, name: &str) -> (position: Option<usize>)
        ensures
            match position {
                Some(i) => self.is_first_named(i as int, name@),
                None => !self.has_name(name@),
            },
    {
        let mut i: usize = 0;
        while i < self.projects.len()
            invariant
                i <= self.projects@.len(),
                forall|j: int| 0 <= j < i ==> (#[trigger] self.projects@[j]).name@ != name@,
            decreases self.projects@.len() - i,
        {
            if str_equal(self.projects[i].name.as_str(), name) {
                return Some(i);
            }
            i += 1;
        }
        None
    }

    /// Finds the project of the name `project_name`: the first one, should the
    /// index hold several.
    pub fn find_project_by_name(&self, project_name: &str) -> (found: Result<
        &ProjectMetaData,
        IndexError,
    >)
        ensures
            match found {
                Ok(project) => exists|i: int|
                    self.is_first_named(i, project_name@) && *project == self.projects@[i],
                Err(error) => error == IndexError::ProjectNotFound && !self.has_name(
                    project_name@,
                ),
            },
    {
        match self.position_by_name(project_name) {
            Some(i) => {
                assert(self.is_first_named(i as int, project_name@));
                Ok(&self.projects[i])
            },
            None => Err(IndexError::ProjectNotFound),
        }
    }

    /// Adds a project at the end of the index, unless a project of its name
    /// or at its path is there already. After `Ok` the index has changed and
    /// is due to be written out; after an error it is as it was.
    pub fn add_project_and_save(&mut self, new_project: ProjectMetaData) -> (added: Result<
        (),
        IndexError,
    >)
        ensures
            old(self).holds(new_project.name@, new_project.path@) ==> added == Err::<
                (),
                IndexError,
            >(IndexError::ProjectAlreadyExists) && *final(self) == *old(self),
            !old(self).holds(new_project.name@, new_project.path@) ==> added == Ok::<
                (),
                IndexError,
            >(()) && final(self).projects@ == old(self).projects@.push(new_project),
    {
        if self.project_exists(new_project.name.as_str(), new_project.path.as_str()) {
            return Err(IndexError::ProjectAlreadyExists);
        }
        self.projects.push(new_project);
        Ok(())
    }

    /// Takes the first project of the name `project_name` out of the index and
    /// hands it back, so that what is kept of it elsewhere can be removed too.
    /// After `Ok` the index is due to be written out; after an error it is as
    /// it was.
    pub fn remove_project_by_name(&mut self, project_name: &str) -> (removed: Result<
        ProjectMetaData,
        IndexError,
    >)
        ensures
            match removed {
                Ok(project) => exists|i: int|
                    old(self).is_first_named(i, project_name@) && project == old(
                        self,
                    ).projects@[i] && final(self).projects@ == old(self).projects@.remove(i),
                Err(error) => error == IndexError::ProjectNotFound && !old(self).has_name(
                    project_name@,
                ) && *final(self) == *old(self),
            },
    {
        match self.position_by_name(project_name) {
            Some(i) => {
                assert(self.is_first_named(i as int, project_name@));
                Ok(self.projects.remove(i))
            },
            None => Err(IndexError::ProjectNotFound),
        }
    }

    /// The names of the projects, in the order of the index.
    pub fn project_names(&self) -> (names: Vec<&str>)
        ensures
            texts_of(names@) == self.names(),
    {
        let mut names: Vec<&str> = Vec::new();
        let mut i: usize = 0;
        while i < self.projects.len()
            invariant
                i <= self.projects@.len(),
                names@.len() == i,
                forall|k: int| 0 <= k < i ==> (#[trigger] names@[k])@ == self.projects@[k].name@,
            decreases self.projects@.len() - i,
        {
            names.push(self.projects[i].name.as_str());
            i += 1;
        }
        assert(texts_of(names@) =~= self.names());
        names
    }
}

} // verus!
