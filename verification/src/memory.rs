//! A package and a target that live in memory: the caller says what each
//! directory of the package lists and what stands at each path of the target.

use crate::commands::unstow::{get_installed_package_contents, installed_spec, installed_view};
use crate::error::Error;
use crate::fs::{copy_names, is_absolute, is_absolute_spec, names, normalize_path, normalize_spec};
use crate::fs::{join_path, parent_dir, path_join, same_names};
use crate::lexical::lemma_normalize_components;
use crate::tree::{valid_name, Entry, EntryView, InstalledItem, Package, PackageView};
use crate::tree::{Target, TargetView};
use vstd::prelude::*;
use vstd::string::StringExecFns;

verus! {

/// Names that one directory can list together: each is valid and none occurs twice.
pub open spec fn listing_ok(ns: Seq<Seq<char>>) -> bool {
    &&& forall|i: int| 0 <= i < ns.len() ==> valid_name(#[trigger] ns[i])
    &&& forall|i: int, j: int| 0 <= i < j < ns.len() ==> #[trigger] ns[i] != #[trigger] ns[j]
}

/// Tells whether `s` can be a name in a directory listing.
pub fn is_valid_name(s: &str) -> (r: bool)
    ensures
        r == valid_name(s@),
{
    let n: usize = s.unicode_len();
    if n == 0 {
        return false;
    }
    if n == 1 && s.get_char(0) == '.' {
        return false;
    }
    if n == 2 && s.get_char(0) == '.' && s.get_char(1) == '.' {
        assert(s@ =~= parent_dir());
        return false;
    }
    let mut i: usize = 0;
    while i < n
        invariant
            n == s@.len(),
            0 <= i <= n,
            forall|j: int| 0 <= j < i ==> s@[j] != '/',
        decreases n - i,
    {
        if s.get_char(i) == '/' {
            return false;
        }
        i = i + 1;
    }
    true
}

/// Tells whether the names can be listed together.
pub fn is_listing_ok(v: &Vec<String>) -> (r: bool)
    ensures
        r == listing_ok(names(v@)),
{
    let mut i: usize = 0;
    while i < v.len()
        invariant
            0 <= i <= v.len(),
            listing_ok(names(v@).take(i as int)),
        decreases v.len() - i,
    {
        if !is_valid_name(v[i].as_str()) {
            assert(names(v@)[i as int] == v@[i as int]@);
            return false;
        }
        let mut j: usize = 0;
        while j < i
            invariant
                0 <= j <= i < v.len(),
                forall|k: int| 0 <= k < j ==> v@[k]@ != v@[i as int]@,
            decreases i - j,
        {
            if v[j] == v[i] {
                assert(names(v@)[j as int] == names(v@)[i as int]);
                return false;
            }
            j = j + 1;
        }
        assert(listing_ok(names(v@).take(i + 1))) by {
            let next = names(v@).take(i + 1);
            let prev = names(v@).take(i as int);
            assert forall|a: int| 0 <= a < next.len() implies valid_name(#[trigger] next[a]) by {
                if a < i {
                    assert(next[a] == prev[a]);
                }
            }
            assert forall|a: int, b: int| 0 <= a < b < next.len() implies #[trigger] next[a]
                != #[trigger] next[b] by {
                if b < i {
                    assert(next[a] == prev[a]);
                    assert(next[b] == prev[b]);
                }
            }
        }
        i = i + 1;
    }
    assert(names(v@).take(v.len() as int) =~= names(v@));
    true
}

/// One directory of a package and the names in it.
pub struct Listing {
    pub dir: Vec<String>,
    pub names: Vec<String>,
}

/// The listings as a map; a later listing of a directory replaces an earlier one.
pub open spec fn listing_of(dirs: Seq<Listing>) -> Map<Seq<Seq<char>>, Seq<Seq<char>>>
    decreases dirs.len(),
{
    if dirs.len() == 0 {
        Map::empty()
    } else {
        listing_of(dirs.drop_last()).insert(names(dirs.last().dir@), names(dirs.last().names@))
    }
}

/// One more than the length of the longest listed path; 0 without listings.
pub open spec fn depth_of(dirs: Seq<Listing>) -> nat
    decreases dirs.len(),
{
    if dirs.len() == 0 {
        0
    } else {
        let before = depth_of(dirs.drop_last());
        let here = dirs.last().dir@.len() + 1;
        if before >= here {
            before
        } else {
            here
        }
    }
}

/// A package held in memory.
pub struct PackageImpl {
    name: String,
    path: String,
    dirs: Vec<Listing>,
}

impl PackageImpl {
    /// Where the package `name` of the package directory `package_dir` is
    /// to be looked for. The package directory must be absolute.
    pub fn location(package_dir: &str, name: &str) -> (r: Result<String, Error>)
        ensures
            !is_absolute_spec(package_dir@) ==> r matches Err(Error::PathNotAbsolute),
            is_absolute_spec(package_dir@) ==> r is Ok && r->Ok_0@ == path_join(
                package_dir@,
                name@,
            ),
    {
        if !is_absolute(package_dir) {
            return Err(Error::PathNotAbsolute);
        }
        Ok(join_path(package_dir, name))
    }

    /// Makes the package `name` of the package directory `package_dir`.
    /// `resolved` is the canonical path of the package's own directory, or
    /// `None` if there is no such directory. The new package lists nothing.
    pub fn new(package_dir: &str, name: &str, resolved: Option<&str>) -> (r: Result<Self, Error>)
        ensures
            !is_absolute_spec(package_dir@) ==> r matches Err(Error::PathNotAbsolute),
            is_absolute_spec(package_dir@) && resolved is None ==> (r matches Err(
                Error::PackageNotFound(n, d),
            ) && n@ == name@ && d@ == package_dir@),
            is_absolute_spec(package_dir@) && resolved is Some && !is_absolute_spec(
                resolved->Some_0@,
            ) ==> r matches Err(Error::PathNotAbsolute),
            is_absolute_spec(package_dir@) && resolved is Some && is_absolute_spec(
                resolved->Some_0@,
            ) ==> r is Ok && r->Ok_0.model().wf() && r->Ok_0.model() == (PackageView {
                name: name@,
                root: normalize_spec(resolved->Some_0@),
                listing: Map::empty(),
                depth: 0,
            }),
    {
        if !is_absolute(package_dir) {
            return Err(Error::PathNotAbsolute);
        }
        match resolved {
            None => Err(
                Error::PackageNotFound(String::from_str(name), String::from_str(package_dir)),
            ),
            Some(p) => {
                if !is_absolute(p) {
                    return Err(Error::PathNotAbsolute);
                }
                let path = normalize_path(p);
                proof {
                    lemma_normalize_components(p@);
                }
                Ok(PackageImpl { name: String::from_str(name), path, dirs: Vec::new() })
            },
        }
    }

    /// Records that the directory `dir`, given by its components below the
    /// package's root, lists `items`, in this order. Refuses names that no
    /// directory can list together, and then changes nothing.
    pub fn set_listing(&mut self, dir: Vec<String>, items: Vec<String>) -> (ok: bool)
        ensures
            old(self).model().wf() ==> final(self).model().wf(),
            ok == listing_ok(names(items@)),
            !ok ==> final(self).model() == old(self).model(),
            ok ==> final(self).model() == (PackageView {
                name: old(self).model().name,
                root: old(self).model().root,
                listing: old(self).model().listing.insert(names(dir@), names(items@)),
                depth: if old(self).model().depth >= dir@.len() + 1 {
                    old(self).model().depth
                } else {
                    dir@.len() + 1
                },
            }),
    {
        if !is_listing_ok(&items) {
            return false;
        }
        let ghost before = self.dirs@;
        let ghost old_view = self.model();
        self.dirs.push(Listing { dir, names: items });
        proof {
            assert(self.dirs@.drop_last() =~= before);
            let view = self.model();
            assert(view.listing == old_view.listing.insert(names(dir@), names(items@)));
            if old_view.wf() {
                lemma_listing_kept(old_view, view, names(dir@), names(items@));
            }
        }
        true
    }
}

/// Recording one more listing of names that can stand together keeps a
/// package well-formed.
pub proof fn lemma_listing_kept(
    before: PackageView,
    view: PackageView,
    dir: Seq<Seq<char>>,
    items: Seq<Seq<char>>,
)
    requires
        before.wf(),
        listing_ok(items),
        view.name == before.name,
        view.root == before.root,
        view.listing == before.listing.insert(dir, items),
        view.depth >= before.depth,
        view.depth > dir.len(),
    ensures
        view.wf(),
{
    assert forall|d: Seq<Seq<char>>| #[trigger] view.listing.dom().contains(d) implies d.len()
        < view.depth by {
        if d != dir {
            assert(before.listing.dom().contains(d));
        }
    }
    assert forall|d: Seq<Seq<char>>, i: int|
        view.listing.dom().contains(d) && 0 <= i < view.listing[d].len() implies valid_name(
        #[trigger] view.listing[d][i],
    ) by {
        if d != dir {
            assert(before.listing.dom().contains(d));
            assert(view.listing[d] == before.listing[d]);
        }
    }
    assert forall|d: Seq<Seq<char>>, i: int, j: int|
        view.listing.dom().contains(d) && 0 <= i < j < view.listing[d].len()
            implies #[trigger] view.listing[d][i] != #[trigger] view.listing[d][j] by {
        if d != dir {
            assert(before.listing.dom().contains(d));
            assert(view.listing[d] == before.listing[d]);
        }
    }
}

impl Package for PackageImpl {
    closed spec fn model(&self) -> PackageView {
        PackageView {
            name: self.name@,
            root: self.path@,
            listing: listing_of(self.dirs@),
            depth: depth_of(self.dirs@),
        }
    }

    fn get_package_contents(&self, dir: &Vec<String>) -> (r: Result<Vec<String>, Error>) {
        if !is_absolute(self.path.as_str()) {
            return Err(Error::PathNotAbsolute);
        }
        let mut i: usize = self.dirs.len();
        assert(self.dirs@.take(i as int) =~= self.dirs@);
        while i > 0
            invariant
                is_absolute_spec(self.path@),
                0 <= i <= self.dirs.len(),
                listing_of(self.dirs@).dom().contains(names(dir@)) <==> listing_of(
                    self.dirs@.take(i as int),
                ).dom().contains(names(dir@)),
                listing_of(self.dirs@).dom().contains(names(dir@)) ==> listing_of(self.dirs@)[names(
                    dir@,
                )] == listing_of(self.dirs@.take(i as int))[names(dir@)],
            decreases i,
        {
            proof {
                assert(self.dirs@.take(i as int).drop_last() =~= self.dirs@.take(i - 1));
            }
            i = i - 1;
            if same_names(&self.dirs[i].dir, dir) {
                return Ok(copy_names(&self.dirs[i].names));
            }
        }
        assert(self.dirs@.take(0) =~= Seq::<Listing>::empty());
        Err(Error::Io(String::from_str("No such directory in the package")))
    }

    fn path(&self) -> (p: &str) {
        self.path.as_str()
    }

    fn name(&self) -> (n: &str) {
        self.name.as_str()
    }
}

/// A path below the target's root and what stands there.
pub struct Slot {
    pub rel: Vec<String>,
    pub entry: Entry,
}

/// The slots as a tree: nothing stands where no slot says otherwise, and a
/// later slot for a path replaces an earlier one.
pub open spec fn tree_of(slots: Seq<Slot>) -> Map<Seq<Seq<char>>, EntryView>
    decreases slots.len(),
{
    if slots.len() == 0 {
        Map::total(|r: Seq<Seq<char>>| EntryView::Missing)
    } else {
        tree_of(slots.drop_last()).insert(names(slots.last().rel@), slots.last().entry@)
    }
}

/// The tree of any slots says what stands at every path.
pub proof fn lemma_tree_of_total(slots: Seq<Slot>)
    ensures
        forall|r: Seq<Seq<char>>| #[trigger] tree_of(slots).dom().contains(r),
    decreases slots.len(),
{
    if slots.len() > 0 {
        lemma_tree_of_total(slots.drop_last());
        assert forall|r: Seq<Seq<char>>| #[trigger] tree_of(slots).dom().contains(r) by {
            assert(tree_of(slots.drop_last()).dom().contains(r));
        }
    } else {
        assert forall|r: Seq<Seq<char>>| #[trigger] tree_of(slots).dom().contains(r) by {
            assert(Set::<Seq<Seq<char>>>::full().contains(r));
        }
    }
}

/// A copy of an entry.
pub fn copy_entry(e: &Entry) -> (out: Entry)
    ensures
        out@ == e@,
{
    match e {
        Entry::Missing => Entry::Missing,
        Entry::Directory => Entry::Directory,
        Entry::Link(t) => Entry::Link(t.clone()),
        Entry::Other => Entry::Other,
        Entry::Unreadable => Entry::Unreadable,
    }
}

/// A target held in memory.
pub struct TargetImpl {
    path: String,
    slots: Vec<Slot>,
}

impl TargetImpl {
    /// Makes an empty target at `path`, which must be absolute. `resolved`
    /// is the canonical path of that directory, or `None` if there is no
    /// such directory. The canonical path is kept in normal form.
    pub fn new(path: &str, resolved: Option<&str>) -> (r: Result<Self, Error>)
        ensures
            !is_absolute_spec(path@) ==> r matches Err(Error::PathNotAbsolute),
            is_absolute_spec(path@) && resolved is None ==> (r matches Err(Error::Io(m)) && m@
                == "No such directory: "@ + path@),
            is_absolute_spec(path@) && resolved is Some && !is_absolute_spec(resolved->Some_0@)
                ==> r matches Err(Error::PathNotAbsolute),
            is_absolute_spec(path@) && resolved is Some && is_absolute_spec(resolved->Some_0@)
                ==> r is Ok && r->Ok_0.model().wf() && r->Ok_0.model() == (TargetView {
                root: normalize_spec(resolved->Some_0@),
                tree: Map::total(|r: Seq<Seq<char>>| EntryView::Missing),
            }),
    {
        if !is_absolute(path) {
            return Err(Error::PathNotAbsolute);
        }
        match resolved {
            None => {
                let mut m = String::from_str("No such directory: ");
                m.append(path);
                Err(Error::Io(m))
            },
            Some(p) => {
                if !is_absolute(p) {
                    return Err(Error::PathNotAbsolute);
                }
                let kept = normalize_path(p);
                proof {
                    lemma_normalize_components(p@);
                }
                Ok(TargetImpl { path: kept, slots: Vec::new() })
            },
        }
    }

    /// Says what stands at the path `rel` below the target's root.
    pub fn set_entry(&mut self, rel: Vec<String>, entry: Entry)
        ensures
            final(self).model() == (TargetView {
                root: old(self).model().root,
                tree: old(self).model().tree.insert(names(rel@), entry@),
            }),
            old(self).model().wf() ==> final(self).model().wf(),
    {
        let ghost before = self.slots@;
        self.slots.push(Slot { rel, entry });
        proof {
            assert(self.slots@.drop_last() =~= before);
            lemma_tree_of_total(self.slots@);
        }
    }

    /// What stands in this target in the places of the items of `package`:
    /// the links that the package owns, and what it does not own.
    pub fn get_installed_package_contents<P: Package>(&self, package: &P) -> (r: Result<
        Vec<InstalledItem>,
        Error,
    >)
        requires
            package.model().bounded(),
        ensures
            !(is_absolute_spec(package.model().root) && is_absolute_spec(self.model().root))
                ==> r matches Err(Error::PathNotAbsolute),
            is_absolute_spec(package.model().root) && is_absolute_spec(self.model().root) ==> (
            match installed_spec(package.model(), self.model()) {
                Some(s) => r is Ok && installed_view(r->Ok_0@) == s,
                None => r matches Err(Error::Io(_)),
            }),
    {
        get_installed_package_contents(self, package)
    }

    /// The latest slot for `rel`, if there is one.
    fn find(&self, rel: &Vec<String>) -> (r: Option<usize>)
        ensures
            r is None ==> tree_of(self.slots@)[names(rel@)] is Missing,
            r is Some ==> r->Some_0 < self.slots@.len() && tree_of(self.slots@)[names(rel@)]
                == self.slots@[r->Some_0 as int].entry@,
    {
        let mut i: usize = self.slots.len();
        assert(self.slots@.take(i as int) =~= self.slots@);
        while i > 0
            invariant
                0 <= i <= self.slots.len(),
                tree_of(self.slots@)[names(rel@)] == tree_of(self.slots@.take(i as int))[names(
                    rel@,
                )],
            decreases i,
        {
            proof {
                assert(self.slots@.take(i as int).drop_last() =~= self.slots@.take(i - 1));
            }
            i = i - 1;
            if same_names(&self.slots[i].rel, rel) {
                return Some(i);
            }
        }
        assert(self.slots@.take(0) =~= Seq::<Slot>::empty());
        None
    }
}

impl Target for TargetImpl {
    closed spec fn model(&self) -> TargetView {
        TargetView { root: self.path@, tree: tree_of(self.slots@) }
    }

    fn path(&self) -> (p: &str) {
        self.path.as_str()
    }

    fn entry(&self, rel: &Vec<String>) -> (r: Result<Entry, Error>) {
        match self.find(rel) {
            None => Ok(Entry::Missing),
            Some(i) => match &self.slots[i].entry {
                Entry::Unreadable => Err(Error::Io(String::from_str("Permission denied"))),
                e => Ok(copy_entry(e)),
            },
        }
    }

    /// Fails, and changes nothing, unless nothing stands at `rel`.
    fn create_link(&mut self, rel: &Vec<String>, link_target: &str) -> (r: Result<(), Error>)
        ensures
            r is Ok <==> old(self).model().tree[names(rel@)] is Missing,
    {
        let free = match self.find(rel) {
            None => true,
            Some(i) => match &self.slots[i].entry {
                Entry::Missing => true,
                _ => false,
            },
        };
        if !free {
            return Err(Error::Io(String::from_str("File exists")));
        }
        self.set_entry(copy_names(rel), Entry::Link(String::from_str(link_target)));
        Ok(())
    }

    /// Fails, and changes nothing, unless a link stands at `rel`.
    fn remove_link(&mut self, rel: &Vec<String>) -> (r: Result<(), Error>)
        ensures
            r is Ok <==> old(self).model().tree[names(rel@)] is Link,
    {
        let linked = match self.find(rel) {
            None => false,
            Some(i) => match &self.slots[i].entry {
                Entry::Link(_) => true,
                _ => false,
            },
        };
        if !linked {
            return Err(Error::Io(String::from_str("Not a symbolic link")));
        }
        self.set_entry(copy_names(rel), Entry::Missing);
        Ok(())
    }
}

} // verus!
