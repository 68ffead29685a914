//! Workspace configuration: the projects and the general settings.
//!
//! The configuration file is deserialized by the caller; the library holds
//! the resulting plain values and decides which project a run works on.

use vstd::prelude::*;

verus! {

/// General settings shared by all projects.
pub struct GeneralConfig {
    /// The directory holding all project sources, relative to the
    /// configuration file's directory.
    pub src: Vec<u8>,
    /// The resource directory considered for packing, relative to each
    /// project's source directory.
    pub res: Vec<u8>,
}

/// One project's settings.
pub struct ProjectConfig {
    /// Root directory of the project, relative to the source directory;
    /// the project's name when absent.
    pub dir: Option<Vec<u8>>,
    /// Source directory override for this project.
    pub src: Option<Vec<u8>>,
    /// Name of the generator configuration file, relative to the project
    /// directory.
    pub config: Vec<u8>,
    /// Glob patterns choosing which files take part in caching; an empty
    /// list admits every file.
    pub select: Vec<String>,
    /// Glob patterns of files to leave out of caching.
    pub exclude: Vec<String>,
    /// The cache directory, relative to the configuration file's
    /// directory.
    pub cache: Vec<u8>,
    /// Name of the cache subdirectory; the project's name when absent.
    pub key: Option<Vec<u8>>,
    /// Name of the generated placement index file.
    pub pki: Vec<u8>,
    /// Name of the generated manifest file.
    pub manifest: Vec<u8>,
    /// Resource directory override for this project.
    pub res: Option<Vec<u8>>,
    /// Prefix of the resource directory in logical paths.
    pub prefix: Option<Vec<u8>>,
}

/// The whole configuration: named projects and general settings.
pub struct Config {
    /// The projects of this workspace, in file order.
    pub project: Vec<(Vec<u8>, ProjectConfig)>,
    /// General settings.
    pub general: GeneralConfig,
}

/// Why no project could be chosen.
#[derive(Debug)]
pub enum SelectError {
    /// The requested project name is not in the configuration.
    NotFound,
    /// No name was given and the configuration holds more than one
    /// project, or none.
    Ambiguous,
}

impl Config {
    /// Whether some project carries the given name.
    pub open spec fn has_project(&self, name: Seq<u8>) -> bool {
        exists|i: int| 0 <= i < self.project@.len() && (#[trigger] self.project@[i]).0@ == name
    }

    /// Choose the project a run works on: the named one, or the only one.
    ///
    /// With a name, the first project carrying it is chosen; the choice
    /// fails exactly when no project carries the name. Without a name, the
    /// sole project is chosen; the choice fails exactly when there is not
    /// exactly one project.
    pub fn select_project(&self, name: Option<&[u8]>) -> (r: Result<usize, SelectError>)
        ensures
            match r {
                Ok(i) => {
                    &&& i < self.project@.len()
                    &&& match name {
                        Some(n) => self.project@[i as int].0@ == n@ && forall|j: int|
                            0 <= j < i ==> (#[trigger] self.project@[j]).0@ != n@,
                        None => self.project@.len() == 1 && i == 0,
                    }
                },
                Err(e) => match name {
                    Some(n) => e is NotFound && !self.has_project(n@),
                    None => e is Ambiguous && self.project@.len() != 1,
                },
            },
    {
        match name {
            Some(n) => {
                let count = self.project.len();
                let mut i: usize = 0;
                while i < count
                    invariant
                        0 <= i <= count,
                        count == self.project@.len(),
                        name is Some && name->0 == n,
                        forall|j: int| 0 <= j < i ==> (#[trigger] self.project@[j]).0@ != n@,
                    decreases count - i,
                {
                    if crate::order::bytes_eq(self.project[i].0.as_slice(), n) {
                        proof {
                            assert(self.project@[i as int].0@ =~= n@);
                        }
                        return Ok(i);
                    }
                    i = i + 1;
                }
                Err(SelectError::NotFound)
            },
            None => {
                if self.project.len() == 1 {
                    Ok(0)
                } else {
                    Err(SelectError::Ambiguous)
                }
            },
        }
    }
}

} // verus!
