//! The ways in which planning or applying an operation can fail.

use vstd::prelude::*;
use vstd::string::StringExecFns;

verus! {

/// Why an operation was refused or could not be carried out.
#[derive(Debug)]
pub enum Error {
    /// The operating system reported a failure; the text is its description.
    Io(String),
    /// An absolute path was expected.
    PathNotAbsolute,
    /// No target directory was given and none could be derived.
    DefaultTargetNotAvailable,
    /// The list of packages was empty.
    MissingPackages,
    /// The named package has no directory under the package root.
    PackageNotFound(String, String),
    /// The link path is occupied by something that is neither a directory nor a link.
    LinkPathExists(String),
    /// The link path is occupied by a link that the named package did not create.
    LinkNotOwnedByPackage(String, String),
}

impl Error {
    /// The text that `message` returns.
    pub open spec fn message_spec(&self) -> Seq<char> {
        match self {
            Error::Io(e) => "IO error: "@ + e@,
            Error::PathNotAbsolute => "Path is not absolute"@,
            Error::DefaultTargetNotAvailable => "Default target directory is not available"@,
            Error::MissingPackages => "At least one package is required"@,
            Error::PackageNotFound(name, dir) => "Package '"@ + name@ + "' not found in '"@ + dir@
                + "'"@,
            Error::LinkPathExists(path) => "Link path already exists: "@ + path@,
            Error::LinkNotOwnedByPackage(path, pkg) => "Link path '"@ + path@
                + "' is not owned by package '"@ + pkg@ + "'"@,
        }
    }

    /// A human-readable description of the error.
    pub fn message(&self) -> (out: String)
        ensures
            out@ == self.message_spec(),
    {
        match self {
            Error::Io(e) => {
                let mut out = String::from_str("IO error: ");
                out.append(e.as_str());
                out
            },
            Error::PathNotAbsolute => String::from_str("Path is not absolute"),
            Error::DefaultTargetNotAvailable => String::from_str(
                "Default target directory is not available",
            ),
            Error::MissingPackages => String::from_str("At least one package is required"),
            Error::PackageNotFound(name, dir) => {
                let mut out = String::from_str("Package '");
                out.append(name.as_str());
                out.append("' not found in '");
                out.append(dir.as_str());
                out.append("'");
                out
            },
            Error::LinkPathExists(path) => {
                let mut out = String::from_str("Link path already exists: ");
                out.append(path.as_str());
                out
            },
            Error::LinkNotOwnedByPackage(path, pkg) => {
                let mut out = String::from_str("Link path '");
                out.append(path.as_str());
                out.append("' is not owned by package '");
                out.append(pkg.as_str());
                out.append("'");
                out
            },
        }
    }
}

} // verus!
