//! What is known of one project, and where its configuration is kept.

use vstd::prelude::*;
use vstd::string::StringExecFns;

verus! {

/// What the index records of a project.
#[derive(Debug, PartialEq, Eq)]
pub struct ProjectMetaData {
    /// The name under which the project is found.
    pub name: String,
    /// When the project was added, as UTC date and time.
    pub creation_date_utc: String,
    /// The canonical path of the project's directory.
    pub path: String,
}

impl ProjectMetaData {
    /// The name that a project gets: the name that was asked for; without
    /// one, the name of its directory; and without a directory name that is
    /// text, a fixed name.
    pub open spec fn name_for(
        project_name: Option<String>,
        directory_name: Option<String>,
    ) -> Seq<char> {
        match project_name {
            Some(name) => name@,
            None => match directory_name {
                Some(name) => name@,
                None => "Unamed project"@,
            },
        }
    }

    /// Records a project at the canonical path `path`, added at
    /// `creation_date_utc`. `directory_name` is the last component of the
    /// path where that is text.
    pub fn new(
        path: String,
        project_name: Option<String>,
        directory_name: Option<String>,
        creation_date_utc: String,
    ) -> (meta_data: Self)
        ensures
            meta_data.name@ == Self::name_for(project_name, directory_name),
            meta_data.path == path,
            meta_data.creation_date_utc == creation_date_utc,
    {
        let name = match project_name {
            Some(name) => name,
            None => match directory_name {
                Some(name) => name,
                None => "Unamed project".to_string(),
            },
        };
        ProjectMetaData { name, path, creation_date_utc }
    }
}

/// The configuration of one project.
#[derive(Debug, PartialEq, Eq)]
pub struct ProjectConfig {
    pub meta_data: ProjectMetaData,
}

impl ProjectConfig {
    /// The configuration of the project that `meta_data` describes.
    pub fn new(meta_data: ProjectMetaData) -> (config: Self)
        ensures
            config.meta_data == meta_data,
    {
        ProjectConfig { meta_data }
    }
}

/// Where the configuration of the project `project_name` is kept, relative to
/// the directory of the project manager: `projects/<name>.toml`.
pub fn project_config_path(project_name: &str) -> (path: String)
    ensures
        path@ == "projects/"@ + project_name@ + ".toml"@,
{
    let mut path = "projects/".to_string();
    path.append(project_name);
    path.append(".toml");
    path
}

} // verus!
