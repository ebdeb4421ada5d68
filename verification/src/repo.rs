//! Where a repository and its metadata are.

use vstd::prelude::*;

use crate::paths::{below, is_absolute, join_path, joined, path_below};
use crate::text::{chars_of, replace, replaced, string_of};

verus! {

/// A repository: its root, and the directory of its metadata.
#[derive(Debug, Clone)]
pub struct Repository {
    /// The root of the repository.
    pub root: String,
    /// The directory of the metadata.
    pub metadata_dir: String,
}

/// What is left of a path below the root, or the path itself where it is not below it, with
/// `/` between its parts.
pub open spec fn relative_path(root: Seq<char>, path: Seq<char>) -> Seq<char> {
    replace(
        match below(path, root) {
            Some(rest) => rest,
            None => path,
        },
        '\\',
        "/"@,
    )
}

/// A directory, and whether there is metadata in it.
#[derive(Debug, Clone)]
pub struct Directory {
    /// The directory.
    pub path: String,
    /// Whether the metadata directory is in it.
    pub has_metadata: bool,
}

/// The first directory from position `i` on that has metadata in it.
pub open spec fn first_with_metadata(directories: Seq<Directory>, i: int) -> Option<Seq<char>>
    decreases directories.len() - i,
{
    if i >= directories.len() {
        None
    } else if directories[i].has_metadata {
        Some(directories[i].path@)
    } else {
        first_with_metadata(directories, i + 1)
    }
}

impl Repository {
    /// The repository with its root in a directory.
    pub fn for_init(root: &str, metadata_name: &str) -> (r: Result<Repository, String>)
        ensures
            match r {
                Ok(repo) => is_directory_name(metadata_name@) && repo.root@ == root@
                    && repo.metadata_dir@ == joined(root@, metadata_name@),
                Err(message) => !is_directory_name(metadata_name@) && message@
                    == "--metadata must be one directory name"@,
            },
    {
        match validate_metadata_name(metadata_name) {
            Ok(_) => Ok(
                Repository {
                    root: root.to_owned(),
                    metadata_dir: join_path(root, metadata_name),
                },
            ),
            Err(message) => Err(message),
        }
    }

    /// The repository of a directory: the nearest of `directories`, which starts with the
    /// directory itself and goes up, that has metadata in it. One asked for explicitly has to
    /// have it.
    pub fn discover(explicit: bool, metadata_name: &str, directories: &Vec<Directory>) -> (r:
        Result<Repository, String>)
        requires
            directories@.len() > 0,
        ensures
            match r {
                Ok(repo) => {
                    &&& is_directory_name(metadata_name@)
                    &&& first_with_metadata(directories@, 0) == Some(repo.root@)
                    &&& explicit ==> directories@[0].has_metadata
                    &&& repo.metadata_dir@ == joined(repo.root@, metadata_name@)
                },
                Err(message) => if !is_directory_name(metadata_name@) {
                    message@ == "--metadata must be one directory name"@
                } else if explicit {
                    &&& !directories@[0].has_metadata
                    &&& message@ == directories@[0].path@ + " does not contain "@ + metadata_name@
                } else {
                    &&& first_with_metadata(directories@, 0) is None
                    &&& message@ == "no "@ + metadata_name@ + " directory found from "@
                        + directories@[0].path@ + "; run `strandmap init`"@
                },
            },
    {
        match validate_metadata_name(metadata_name) {
            Ok(_) => {},
            Err(message) => {
                return Err(message);
            },
        }
        if explicit && !directories[0].has_metadata {
            let mut message = directories[0].path.clone();
            message.push_str(" does not contain ");
            message.push_str(metadata_name);
            return Err(message);
        }
        let mut i: usize = 0;
        while i < directories.len()
            invariant
                i <= directories@.len(),
                directories@.len() > 0,
                is_directory_name(metadata_name@),
                explicit ==> directories@[0].has_metadata,
                first_with_metadata(directories@, 0) == first_with_metadata(
                    directories@,
                    i as int,
                ),
            decreases directories@.len() - i,
        {
            if directories[i].has_metadata {
                return Ok(
                    Repository {
                        root: directories[i].path.clone(),
                        metadata_dir: join_path(directories[i].path.as_str(), metadata_name),
                    },
                );
            }
            i += 1;
        }
        let mut message = "no ".to_owned();
        message.push_str(metadata_name);
        message.push_str(" directory found from ");
        message.push_str(directories[0].path.as_str());
        message.push_str("; run `strandmap init`");
        Err(message)
    }

    /// A path relative to the root, or the path itself where it is not below the root, with
    /// `/` between its parts.
    pub fn relative(&self, path: &str) -> (r: String)
        ensures
            r@ == relative_path(self.root@, path@),
    {
        let rest = match path_below(path, self.root.as_str()) {
            Some(rest) => chars_of(rest.as_str()),
            None => chars_of(path),
        };
        string_of(&replaced(&rest, '\\', "/"))
    }
}

/// Whether a text is one directory name.
pub open spec fn is_directory_name(name: Seq<char>) -> bool {
    &&& name.len() > 0
    &&& !is_absolute(name)
    &&& name != "."@
    &&& name != ".."@
    &&& crate::paths::next_part(name, crate::text::index_from(name, '/', 0)) == name.len()
}

/// Checks the name of the metadata directory: it has to be one directory name.
pub fn validate_metadata_name(name: &str) -> (r: Result<(), String>)
    ensures
        match r {
            Ok(_) => is_directory_name(name@),
            Err(message) => !is_directory_name(name@) && message@
                == "--metadata must be one directory name"@,
        },
{
    let chars = chars_of(name);
    if chars.len() == 0 || chars[0] == '/' || crate::text::same_text(name, ".")
        || crate::text::same_text(name, "..") || crate::paths::find_next_part(
        &chars,
        crate::text::index_of(&chars, '/', 0),
    ) != chars.len() {
        return Err("--metadata must be one directory name".to_owned());
    }
    Ok(())
}

} // verus!
