use vstd::prelude::*;
use vstd::string::StringExecFns;

verus! {

/// Why the root given to a scan cannot be scanned.
#[derive(Debug, PartialEq, Eq)]
pub enum PathInvalid {
    /// Nothing exists at the path.
    Missing(String),
    /// Something exists at the path, but it is not a directory.
    NotADirectory(String),
}

/// The message for a missing root.
pub open spec fn missing_message(path: Seq<char>) -> Seq<char> {
    "Directory '"@ + path + "' does not exist."@
}

/// The message for a root that is not a directory.
pub open spec fn not_a_directory_message(path: Seq<char>) -> Seq<char> {
    "'"@ + path + "' is not a directory."@
}

impl PathInvalid {
    /// The path that was refused.
    pub fn path(&self) -> (r: &str)
        ensures
            match self {
                PathInvalid::Missing(p) => r@ == p@,
                PathInvalid::NotADirectory(p) => r@ == p@,
            },
    {
        match self {
            PathInvalid::Missing(p) => p.as_str(),
            PathInvalid::NotADirectory(p) => p.as_str(),
        }
    }

    /// A one-line human-readable description, naming the path.
    pub fn message(&self) -> (r: String)
        ensures
            match self {
                PathInvalid::Missing(p) => r@ == missing_message(p@),
                PathInvalid::NotADirectory(p) => r@ == not_a_directory_message(p@),
            },
    {
        match self {
            PathInvalid::Missing(p) => {
                let mut r = String::from_str("Directory '");
                r.append(p.as_str());
                r.append("' does not exist.");
                r
            },
            PathInvalid::NotADirectory(p) => {
                let mut r = String::from_str("'");
                r.append(p.as_str());
                r.append("' is not a directory.");
                r
            },
        }
    }
}

/// Decides whether a root can be scanned, from whether something exists at
/// `path` and whether it is a directory.
pub fn check_root(path: &str, exists: bool, is_dir: bool) -> (r: Result<(), PathInvalid>)
    ensures
        r is Ok <==> exists && is_dir,
        !exists ==> (r matches Err(PathInvalid::Missing(p)) && p@ == path@),
        exists && !is_dir ==> (r matches Err(PathInvalid::NotADirectory(p)) && p@ == path@),
{
    if !exists {
        Err(PathInvalid::Missing(path.to_owned()))
    } else if !is_dir {
        Err(PathInvalid::NotADirectory(path.to_owned()))
    } else {
        Ok(())
    }
}

} // verus!
