//! What the command line asks for, as plain values.

use crate::error::Error;
use crate::fs::{components, is_absolute, is_absolute_spec, join, join_components, join_path};
use crate::fs::{names, path_components, path_join, root_of};
use vstd::prelude::*;
use vstd::string::StringExecFns;

verus! {

/// The arguments of one operation.
#[derive(Debug)]
pub struct StowArgs {
    /// Directory whose contents are linked to the target.
    pub package_dir: Option<String>,
    /// Directory to create the links into.
    pub target_dir: Option<String>,
    /// The packages to work on.
    pub packages: Vec<String>,
    /// Narrate the decisions.
    pub verbose: bool,
    /// Do not change the filesystem; only show what would happen.
    pub simulate: bool,
}

/// The removal of packages takes the arguments of their installation.
pub type UnstowArgs = StowArgs;

/// The operation to carry out.
#[derive(Debug)]
pub enum Commands {
    /// Stow packages into a target directory.
    Stow(StowArgs),
    /// Unstow packages from a target directory.
    Unstow(UnstowArgs),
}

/// A parsed command line.
#[derive(Debug)]
pub struct Cli {
    pub command: Commands,
}

/// `path` as it reads from the directory `cwd`: itself if it is absolute.
pub open spec fn against(cwd: Seq<char>, path: Seq<char>) -> Seq<char> {
    if is_absolute_spec(path) {
        path
    } else {
        path_join(cwd, path)
    }
}

/// The directory that contains `path`, by the text alone; `None` if the
/// path has no component to leave out.
pub open spec fn parent_spec(path: Seq<char>) -> Option<Seq<char>> {
    if components(path).len() == 0 {
        None
    } else {
        Some(root_of(path) + join(components(path).drop_last()))
    }
}

/// The directory that contains `path`, by the text alone.
pub fn parent_path(path: &str) -> (r: Option<String>)
    ensures
        r is Some == parent_spec(path@) is Some,
        r is Some ==> r->Some_0@ == parent_spec(path@)->Some_0,
{
    let mut comps = path_components(path);
    if comps.len() == 0 {
        return None;
    }
    let ghost all = names(comps@);
    comps.pop();
    assert(names(comps@) =~= all.drop_last());
    let mut out = String::new();
    if is_absolute(path) {
        proof {
            reveal_strlit("/");
            assert("/"@ =~= seq!['/']);
        }
        out.append("/");
    }
    let body = join_components(&comps);
    out.append(body.as_str());
    assert(out@ =~= root_of(path@) + join(all.drop_last()));
    Some(out)
}

/// The package directory that the arguments ask for, seen from `cwd`:
/// the one given, else `cwd` itself.
pub open spec fn package_dir_spec(args: StowArgs, cwd: Seq<char>) -> Seq<char> {
    match args.package_dir {
        Some(d) => against(cwd, d@),
        None => cwd,
    }
}

/// The target directory that the arguments ask for, seen from `cwd`: the
/// one given, else the directory that contains `cwd`.
pub open spec fn target_dir_spec(args: StowArgs, cwd: Seq<char>) -> Option<Seq<char>> {
    match args.target_dir {
        Some(d) => Some(against(cwd, d@)),
        None => parent_spec(cwd),
    }
}

/// Refuses arguments that name no package.
pub fn check_packages(args: &StowArgs) -> (r: Result<(), Error>)
    ensures
        args.packages@.len() > 0 ==> r is Ok,
        args.packages@.len() == 0 ==> r matches Err(Error::MissingPackages),
{
    if args.packages.len() == 0 {
        Err(Error::MissingPackages)
    } else {
        Ok(())
    }
}

/// Chooses the package directory and the target directory of an operation
/// that is started in the directory `cwd`. Neither is looked up on disk.
pub fn choose_dirs(args: &StowArgs, cwd: &str) -> (r: Result<(String, String), Error>)
    ensures
        args.packages@.len() == 0 ==> r matches Err(Error::MissingPackages),
        args.packages@.len() > 0 && target_dir_spec(*args, cwd@) is None ==> r matches Err(
            Error::DefaultTargetNotAvailable,
        ),
        args.packages@.len() > 0 && target_dir_spec(*args, cwd@) is Some ==> r is Ok && r->Ok_0.0@
            == package_dir_spec(*args, cwd@) && r->Ok_0.1@ == target_dir_spec(*args, cwd@)->Some_0,
{
    if args.packages.len() == 0 {
        return Err(Error::MissingPackages);
    }
    let package_dir = match &args.package_dir {
        Some(d) => resolve_against(cwd, d.as_str()),
        None => String::from_str(cwd),
    };
    let target_dir = match &args.target_dir {
        Some(d) => resolve_against(cwd, d.as_str()),
        None => match parent_path(cwd) {
            Some(p) => p,
            None => {
                return Err(Error::DefaultTargetNotAvailable);
            },
        },
    };
    Ok((package_dir, target_dir))
}

/// `path` as it reads from the directory `cwd`.
pub fn resolve_against(cwd: &str, path: &str) -> (out: String)
    ensures
        out@ == against(cwd@, path@),
{
    if is_absolute(path) {
        String::from_str(path)
    } else {
        join_path(cwd, path)
    }
}

} // verus!
