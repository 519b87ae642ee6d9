//! The pre-flight checks on the command's paths.  The front end looks the
//! paths up on disk and reports what it saw; these functions decide, and say
//! exactly which error is owed for which state of the world.

use vstd::prelude::*;
use crate::error::ArxError;

verus! {

/// What the front end observed about one input path.
#[derive(Clone, Debug, PartialEq)]
pub struct InputPath {
    pub path: String,
    pub exists: bool,
    pub is_absolute: bool,
}

/// What the front end observed about the output path.
#[derive(Clone, Debug, PartialEq)]
pub struct OutputStatus {
    pub path: String,
    pub parent: String,
    pub parent_is_dir: bool,
    pub exists: bool,
}

/// Refuses the command when an input path does not exist, naming the first
/// missing one.
pub fn check_input_paths_exist(files: &Vec<InputPath>) -> (r: Result<(), ArxError>)
    ensures
        r is Ok <==> (forall|i: int| 0 <= i < files@.len() ==> files@[i].exists),
        r matches Err(e) ==> exists|i: int|
            {
                &&& 0 <= i < files@.len()
                &&& !files@[i].exists
                &&& forall|k: int| 0 <= k < i ==> files@[k].exists
                &&& e == (ArxError::InputNotFound { path: files@[i].path })
            },
{
    let mut i: usize = 0;
    while i < files.len()
        invariant
            i <= files.len(),
            forall|k: int| 0 <= k < i ==> files@[k].exists,
        decreases files.len() - i,
    {
        if !files[i].exists {
            return Err(ArxError::InputNotFound { path: files[i].path.clone() });
        }
        i = i + 1;
    }
    Ok(())
}

/// Refuses the command when an input path is absolute, naming the first
/// offending one; entries are stored under relative paths only.
pub fn check_input_paths_relative(files: &Vec<InputPath>) -> (r: Result<(), ArxError>)
    ensures
        r is Ok <==> (forall|i: int| 0 <= i < files@.len() ==> !files@[i].is_absolute),
        r matches Err(e) ==> exists|i: int|
            {
                &&& 0 <= i < files@.len()
                &&& files@[i].is_absolute
                &&& forall|k: int| 0 <= k < i ==> !files@[k].is_absolute
                &&& e == (ArxError::AbsoluteInputPath { path: files@[i].path })
            },
{
    let mut i: usize = 0;
    while i < files.len()
        invariant
            i <= files.len(),
            forall|k: int| 0 <= k < i ==> !files@[k].is_absolute,
        decreases files.len() - i,
    {
        if files[i].is_absolute {
            return Err(ArxError::AbsoluteInputPath { path: files[i].path.clone() });
        }
        i = i + 1;
    }
    Ok(())
}

/// Decides whether the archive may be written at the output path: the
/// directory that holds it must exist, and an already existing file is only
/// overwritten when `force` was given.
pub fn check_output_path_writable(out: &OutputStatus, force: bool) -> (r: Result<(), ArxError>)
    ensures
        !out.parent_is_dir ==> r == Err::<(), ArxError>(
            ArxError::OutputParentMissing { path: out.parent },
        ),
        out.parent_is_dir && out.exists && !force ==> r == Err::<(), ArxError>(
            ArxError::OutputExists { path: out.path },
        ),
        out.parent_is_dir && (!out.exists || force) ==> r is Ok,
{
    if !out.parent_is_dir {
        Err(ArxError::OutputParentMissing { path: out.parent.clone() })
    } else if out.exists && !force {
        Err(ArxError::OutputExists { path: out.path.clone() })
    } else {
        Ok(())
    }
}

} // verus!
