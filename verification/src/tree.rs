//! The two trees that an operation works on: the package, which is listed one
//! directory at a time, and the target, whose entries are looked up, created
//! and removed by their path below the target's root.

use crate::error::Error;
use crate::fs::{components, is_absolute_spec, names, parent_dir, relative_path, BasePath};
use crate::fs::{relative_path_spec, Symlink, SymlinkView, TargetPath};
use crate::lexical::clean;
use vstd::prelude::*;

verus! {

/// What stands at a path of the target.
pub ghost enum EntryView {
    Missing,
    Directory,
    Link(Seq<char>),
    Other,
    Unreadable,
}

/// What stands at a path of the target.
pub enum Entry {
    /// Nothing.
    Missing,
    /// A real directory.
    Directory,
    /// A symbolic link, with the text it points to.
    Link(String),
    /// A regular file, or anything else that is neither directory nor link.
    Other,
    /// Something that the operating system would not let us inspect.
    Unreadable,
}

impl View for Entry {
    type V = EntryView;

    open spec fn view(&self) -> EntryView {
        match self {
            Entry::Missing => EntryView::Missing,
            Entry::Directory => EntryView::Directory,
            Entry::Link(t) => EntryView::Link(t@),
            Entry::Other => EntryView::Other,
            Entry::Unreadable => EntryView::Unreadable,
        }
    }
}

/// What was found in the target in the place of an item of a package.
pub enum InstalledItem {
    /// A link that the package owns.
    Item(Symlink),
    /// Something that the package does not own, at this path: a directory,
    /// a link that leads elsewhere, or a file.
    NotOwned(String),
}

/// What was found in the place of an item, as contracts speak of it.
pub ghost enum InstalledView {
    Item(SymlinkView),
    NotOwned(Seq<char>),
}

impl View for InstalledItem {
    type V = InstalledView;

    open spec fn view(&self) -> InstalledView {
        match self {
            InstalledItem::Item(l) => InstalledView::Item(l@),
            InstalledItem::NotOwned(p) => InstalledView::NotOwned(p@),
        }
    }
}

/// A name that a directory listing can hold: not empty, without a
/// separator, and neither `.` nor `..`.
pub open spec fn valid_name(n: Seq<char>) -> bool {
    &&& n.len() > 0
    &&& forall|i: int| 0 <= i < n.len() ==> n[i] != '/'
    &&& !(n.len() == 1 && n[0] == '.')
    &&& n != parent_dir()
}

/// A package as the planner sees it: its name, where it lies, and for each of its
/// directories, given by its components below the package's root, the names
/// in it in the order of enumeration. A path outside the map's domain cannot
/// be listed. `depth` bounds the length of the paths that can.
pub ghost struct PackageView {
    pub name: Seq<char>,
    pub root: Seq<char>,
    pub listing: Map<Seq<Seq<char>>, Seq<Seq<char>>>,
    pub depth: nat,
}

impl PackageView {
    /// Every directory that can be listed lies less than `depth` below the root.
    pub open spec fn bounded(self) -> bool {
        forall|d: Seq<Seq<char>>| #[trigger] self.listing.dom().contains(d) ==> d.len() < self.depth
    }

    /// The package lies at an absolute path without a parent-directory
    /// component, its tree has a bounded depth, and each of its directories
    /// lists valid names, none of them twice.
    pub open spec fn wf(self) -> bool {
        &&& is_absolute_spec(self.root)
        &&& clean(components(self.root))
        &&& self.bounded()
        &&& forall|d: Seq<Seq<char>>, i: int|
            self.listing.dom().contains(d) && 0 <= i < self.listing[d].len() ==> valid_name(
                #[trigger] self.listing[d][i],
            )
        &&& forall|d: Seq<Seq<char>>, i: int, j: int|
            self.listing.dom().contains(d) && 0 <= i < j < self.listing[d].len()
                ==> #[trigger] self.listing[d][i] != #[trigger] self.listing[d][j]
    }
}

/// A target as the planner sees it: where it lies, and what stands at each
/// path below its root, the path given by its components.
pub ghost struct TargetView {
    pub root: Seq<char>,
    pub tree: Map<Seq<Seq<char>>, EntryView>,
}

impl TargetView {
    /// The target lies at an absolute path without a parent-directory
    /// component, and the tree says what stands at every path.
    pub open spec fn wf(self) -> bool {
        &&& is_absolute_spec(self.root)
        &&& clean(components(self.root))
        &&& forall|r: Seq<Seq<char>>| #[trigger] self.tree.dom().contains(r)
    }
}

/// A directory whose contents are to be mirrored into a target.
pub trait Package {
    spec fn model(&self) -> PackageView;

    /// The names in the directory `dir` of the package, which is given by
    /// its components below the package's root.
    fn get_package_contents(&self, dir: &Vec<String>) -> (r: Result<Vec<String>, Error>)
        ensures
            !is_absolute_spec(self.model().root) ==> r matches Err(Error::PathNotAbsolute),
            is_absolute_spec(self.model().root) && self.model().listing.dom().contains(
                names(dir@),
            ) ==> r is Ok && names(r->Ok_0@) == self.model().listing[names(dir@)],
            is_absolute_spec(self.model().root) && !self.model().listing.dom().contains(
                names(dir@),
            ) ==> r matches Err(Error::Io(_)),
    ;

    /// Where the package lies.
    fn path(&self) -> (p: &str)
        ensures
            p@ == self.model().root,
    ;

    /// The name of the package.
    fn name(&self) -> (n: &str)
        ensures
            n@ == self.model().name,
    ;
}

/// The directory into which packages are installed.
pub trait Target {
    spec fn model(&self) -> TargetView;

    /// Where the target lies.
    fn path(&self) -> (p: &str)
        ensures
            p@ == self.model().root,
    ;

    /// What stands at the path `rel` below the target's root.
    fn entry(&self, rel: &Vec<String>) -> (r: Result<Entry, Error>)
        ensures
            self.model().tree[names(rel@)] is Unreadable ==> r matches Err(Error::Io(_)),
            !(self.model().tree[names(rel@)] is Unreadable) ==> r is Ok && r->Ok_0@
                == self.model().tree[names(rel@)],
    ;

    /// Creates a symbolic link at `rel` that points to `link_target`.
    fn create_link(&mut self, rel: &Vec<String>, link_target: &str) -> (r: Result<(), Error>)
        ensures
            final(self).model().root == old(self).model().root,
            r is Ok ==> final(self).model().tree == old(self).model().tree.insert(
                names(rel@),
                EntryView::Link(link_target@),
            ),
            r is Err ==> final(self).model().tree == old(self).model().tree,
            r is Err ==> r matches Err(Error::Io(_)),
    ;

    /// Removes the symbolic link at `rel`.
    fn remove_link(&mut self, rel: &Vec<String>) -> (r: Result<(), Error>)
        ensures
            final(self).model().root == old(self).model().root,
            r is Ok ==> final(self).model().tree == old(self).model().tree.insert(
                names(rel@),
                EntryView::Missing,
            ),
            r is Err ==> final(self).model().tree == old(self).model().tree,
            r is Err ==> r matches Err(Error::Io(_)),
    ;

    /// The path from the target to the package, relative to the target.
    fn relative_path_to_package<P: Package>(&self, package: &P) -> (r: Result<String, Error>)
        ensures
            is_absolute_spec(package.model().root) && is_absolute_spec(self.model().root) ==> r is Ok
                && r->Ok_0@ == relative_path_spec(package.model().root, self.model().root),
            !(is_absolute_spec(package.model().root) && is_absolute_spec(self.model().root))
                ==> r matches Err(Error::PathNotAbsolute),
    {
        relative_path(TargetPath(package.path()), BasePath(self.path()))
    }
}

} // verus!
