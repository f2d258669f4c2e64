//! Removing a package: which links of the target belong to it.

use crate::cli::UnstowArgs;
use crate::commands::stow::{first_partial, link_path_text, models};
use crate::error::Error;
use crate::fs::{components, concat_names, copy_names, has_prefix, is_absolute, is_absolute_spec};
use crate::fs::{is_prefix, join_components, join_path, names, path_components, resolve};
use crate::fs::{links_view, resolve_components, Symlink, SymlinkView};
use crate::tree::{Entry, EntryView, InstalledItem, InstalledView, Package, PackageView};
use crate::tree::{Target, TargetView};
use vstd::prelude::*;
use vstd::string::StringExecFns;

verus! {

/// Where a link leads that lies in the directory `link_dir` and holds
/// `text`: an absolute text is taken by itself, another one from the
/// directory on. Parent-directory components are resolved by the text alone.
pub open spec fn link_destination(link_dir: Seq<Seq<char>>, text: Seq<char>) -> Seq<Seq<char>> {
    if is_absolute_spec(text) {
        resolve(components(text))
    } else {
        resolve(link_dir + components(text))
    }
}

/// What stands in the directory `link_dir` is a link that leads to the
/// directory with the components `package_root` or to something below it.
pub open spec fn owned_spec(
    link_dir: Seq<Seq<char>>,
    found: EntryView,
    package_root: Seq<Seq<char>>,
) -> bool {
    match found {
        EntryView::Link(t) => is_prefix(package_root, link_destination(link_dir, t)),
        _ => false,
    }
}

/// Tells whether `found`, which stands in the directory `link_dir`, is a
/// link into the package whose root has the components `package_root`.
pub fn owned_by(link_dir: &Vec<String>, found: &Entry, package_root: &Vec<String>) -> (r: bool)
    ensures
        r == owned_spec(names(link_dir@), found@, names(package_root@)),
{
    match found {
        Entry::Link(t) => {
            let text = path_components(t.as_str());
            let all = if is_absolute(t.as_str()) {
                text
            } else {
                concat_names(link_dir, &text)
            };
            let destination = resolve_components(&all);
            has_prefix(package_root, &destination)
        },
        _ => false,
    }
}

/// The components of the directory that contains the path with the components `cs`.
pub open spec fn parent_components(cs: Seq<Seq<char>>) -> Seq<Seq<char>> {
    if cs.len() > 0 {
        cs.drop_last()
    } else {
        cs
    }
}

/// `found` stands at the absolute path `candidate_link`, and it is a link
/// that leads into the package at the absolute path `package_root`.
pub open spec fn owned_link_spec(
    candidate_link: Seq<char>,
    found: EntryView,
    package_root: Seq<char>,
) -> bool {
    &&& is_absolute_spec(candidate_link)
    &&& is_absolute_spec(package_root)
    &&& owned_spec(
        parent_components(components(candidate_link)),
        found,
        resolve(components(package_root)),
    )
}

/// Tells whether `found`, which stands at `candidate_link`, is a link
/// that was made for `package`: a link, whose text, read from the directory
/// that contains it, leads to the package's root or below it. The link is
/// followed one step, by its text alone.
pub fn is_owned_by_package<P: Package>(candidate_link: &str, found: &Entry, package: &P) -> (r:
    bool)
    ensures
        r == owned_link_spec(candidate_link@, found@, package.model().root),
{
    if !is_absolute(candidate_link) || !is_absolute(package.path()) {
        return false;
    }
    let mut link_dir = path_components(candidate_link);
    let ghost all = names(link_dir@);
    if link_dir.len() > 0 {
        link_dir.pop();
        assert(names(link_dir@) =~= all.drop_last());
    }
    let root = resolve_components(&path_components(package.path()));
    owned_by(&link_dir, found, &root)
}

/// What is reported for `item`, at whose path in the target `found` stands.
pub open spec fn installed_for(
    target_root: Seq<char>,
    package_root: Seq<Seq<char>>,
    item: Seq<Seq<char>>,
    found: EntryView,
) -> Seq<InstalledView> {
    let path = link_path_text(target_root, item);
    match found {
        EntryView::Missing => Seq::empty(),
        EntryView::Link(t) => if owned_spec(
            components(target_root) + parent_components(item),
            found,
            package_root,
        ) {
            seq![InstalledView::Item(SymlinkView { item, path, target: t })]
        } else {
            seq![InstalledView::NotOwned(path)]
        },
        _ => seq![InstalledView::NotOwned(path)],
    }
}

/// Two stretches of a list, one after the other; nothing if either could
/// not be made.
pub open spec fn chain_installed(
    a: Option<Seq<InstalledView>>,
    b: Option<Seq<InstalledView>>,
) -> Option<Seq<InstalledView>> {
    match (a, b) {
        (Some(x), Some(y)) => Some(x + y),
        _ => None,
    }
}

/// What stands in the target in the places of the names from index `i` on
/// in the directory `dir` of the package, each real directory followed at
/// once by what stands in the places of the names below it. A path at which
/// nothing stands is left out. `None` where a directory of the package
/// cannot be listed or a path of the target cannot be inspected.
pub open spec fn installed_from(
    pkg: PackageView,
    target: TargetView,
    dir: Seq<Seq<char>>,
    i: int,
) -> Option<Seq<InstalledView>>
    decreases pkg.depth - dir.len(), pkg.listing[dir].len() - i,
{
    if !pkg.listing.dom().contains(dir) || dir.len() >= pkg.depth || i < 0 {
        None
    } else if i >= pkg.listing[dir].len() {
        Some(Seq::empty())
    } else {
        let item = dir.push(pkg.listing[dir][i]);
        let found = target.tree[item];
        let here = installed_for(target.root, resolve(components(pkg.root)), item, found);
        let head = match found {
            EntryView::Unreadable => None,
            EntryView::Directory => chain_installed(
                Some(here),
                installed_from(pkg, target, item, 0),
            ),
            _ => Some(here),
        };
        chain_installed(head, installed_from(pkg, target, dir, i + 1))
    }
}

/// What stands in the target in the places of the items of the package.
pub open spec fn installed_spec(pkg: PackageView, target: TargetView) -> Option<
    Seq<InstalledView>,
> {
    installed_from(pkg, target, Seq::empty(), 0)
}

/// The views of a list of findings.
pub open spec fn installed_view(items: Seq<InstalledItem>) -> Seq<InstalledView> {
    items.map_values(|x: InstalledItem| x@)
}

/// Says what to report for `item`, at whose path in the target `found` stands.
fn classify(
    target_root: &str,
    target_components: &Vec<String>,
    package_root: &Vec<String>,
    dir: &Vec<String>,
    item: Vec<String>,
    found: Entry,
) -> (out: Option<InstalledItem>)
    requires
        names(target_components@) == components(target_root@),
        item@.len() > 0,
        names(dir@) == names(item@).drop_last(),
    ensures
        match out {
            Some(x) => installed_for(target_root@, names(package_root@), names(item@), found@)
                == seq![x@],
            None => installed_for(target_root@, names(package_root@), names(item@), found@)
                == Seq::<InstalledView>::empty(),
        },
{
    let rel = join_components(&item);
    let path = join_path(target_root, rel.as_str());
    let link_dir = concat_names(target_components, dir);
    let owned = owned_by(&link_dir, &found, package_root);
    match found {
        Entry::Missing => None,
        Entry::Link(t) => {
            if owned {
                Some(InstalledItem::Item(Symlink { item, path, target: t }))
            } else {
                Some(InstalledItem::NotOwned(path))
            }
        },
        _ => Some(InstalledItem::NotOwned(path)),
    }
}

/// Inspects the places of the names in the directory `dir` of the package
/// and appends what stands there to `out`.
fn installed_dir<P: Package, T: Target>(
    package: &P,
    target: &T,
    target_components: &Vec<String>,
    package_root: &Vec<String>,
    dir: &Vec<String>,
    out: &mut Vec<InstalledItem>,
) -> (r: Result<(), Error>)
    requires
        is_absolute_spec(package.model().root),
        package.model().bounded(),
        names(target_components@) == components(target.model().root),
        names(package_root@) == resolve(components(package.model().root)),
    ensures
        match installed_from(package.model(), target.model(), names(dir@), 0) {
            Some(s) => r is Ok && installed_view(final(out)@) == installed_view(old(out)@) + s,
            None => r matches Err(Error::Io(_)),
        },
    decreases package.model().depth - dir.len(),
{
    let ghost pkg = package.model();
    let ghost tgt = target.model();
    let ghost d = names(dir@);
    let names_here = match package.get_package_contents(dir) {
        Ok(v) => v,
        Err(e) => {
            return Err(e);
        },
    };
    let ghost done: Seq<InstalledView> = Seq::empty();
    let mut i: usize = 0;
    assert(installed_view(out@) =~= installed_view(old(out)@) + done);
    assert(chain_installed(Some(done), installed_from(pkg, tgt, d, 0)) == installed_from(
        pkg,
        tgt,
        d,
        0,
    )) by {
        match installed_from(pkg, tgt, d, 0) {
            Some(s) => {
                assert(done + s =~= s);
            },
            None => {},
        }
    }
    while i < names_here.len()
        invariant
            pkg == package.model(),
            tgt == target.model(),
            d == names(dir@),
            is_absolute_spec(pkg.root),
            pkg.bounded(),
            pkg.listing.dom().contains(d),
            names(names_here@) == pkg.listing[d],
            names(target_components@) == components(tgt.root),
            names(package_root@) == resolve(components(pkg.root)),
            0 <= i <= names_here.len(),
            installed_view(out@) == installed_view(old(out)@) + done,
            installed_from(pkg, tgt, d, 0) == chain_installed(
                Some(done),
                installed_from(pkg, tgt, d, i as int),
            ),
        decreases names_here.len() - i,
    {
        let mut item = copy_names(dir);
        item.push(names_here[i].clone());
        let ghost it = names(item@);
        assert(it =~= d.push(pkg.listing[d][i as int])) by {
            assert(names(names_here@)[i as int] == names_here@[i as int]@);
        }
        assert(it.drop_last() =~= d);
        let ghost rest = installed_from(pkg, tgt, d, i + 1);
        let found = match target.entry(&item) {
            Ok(e) => e,
            Err(e) => {
                return Err(e);
            },
        };
        let descend = match &found {
            Entry::Directory => true,
            _ => false,
        };
        let ghost here = installed_for(tgt.root, names(package_root@), it, found@);
        let ghost before = installed_view(out@);
        match classify(
            target.path(),
            target_components,
            package_root,
            dir,
            copy_names(&item),
            found,
        ) {
            Some(x) => {
                out.push(x);
                assert(installed_view(out@) =~= before + here);
            },
            None => {
                assert(installed_view(out@) =~= before + here);
            },
        }
        if descend {
            match installed_dir(package, target, target_components, package_root, &item, out) {
                Ok(()) => {
                    proof {
                        let below = installed_from(pkg, tgt, it, 0)->Some_0;
                        match rest {
                            Some(tail) => {
                                assert((done + (here + below)) + tail =~= done + ((here + below)
                                    + tail));
                            },
                            None => {},
                        }
                        done = done + (here + below);
                        assert(installed_view(out@) =~= installed_view(old(out)@) + done);
                    }
                },
                Err(e) => {
                    return Err(e);
                },
            }
        } else {
            proof {
                match rest {
                    Some(tail) => {
                        assert((done + here) + tail =~= done + (here + tail));
                    },
                    None => {},
                }
                done = done + here;
                assert(installed_view(out@) =~= installed_view(old(out)@) + done);
            }
        }
        i = i + 1;
    }
    proof {
        assert(done + Seq::<InstalledView>::empty() =~= done);
    }
    Ok(())
}

/// Looks in `target` for what stands in the places of the items of
/// `package`, in the order of the listings, a directory before what lies
/// in it: the links that the package owns, and what it does not own.
/// Nothing is changed.
pub fn get_installed_package_contents<T: Target, P: Package>(target: &T, package: &P) -> (r:
    Result<Vec<InstalledItem>, Error>)
    requires
        package.model().bounded(),
    ensures
        !(is_absolute_spec(package.model().root) && is_absolute_spec(target.model().root))
            ==> r matches Err(Error::PathNotAbsolute),
        is_absolute_spec(package.model().root) && is_absolute_spec(target.model().root) ==> (
        match installed_spec(package.model(), target.model()) {
            Some(s) => r is Ok && installed_view(r->Ok_0@) == s,
            None => r matches Err(Error::Io(_)),
        }),
{
    if !is_absolute(package.path()) || !is_absolute(target.path()) {
        return Err(Error::PathNotAbsolute);
    }
    let target_components = path_components(target.path());
    let package_root = resolve_components(&path_components(package.path()));
    let mut out: Vec<InstalledItem> = Vec::new();
    let top: Vec<String> = Vec::new();
    assert(names(top@) =~= Seq::<Seq<char>>::empty());
    assert(installed_view(out@) =~= Seq::<InstalledView>::empty());
    match installed_dir(package, target, &target_components, &package_root, &top, &mut out) {
        Ok(()) => {
            proof {
                let s = installed_spec(package.model(), target.model())->Some_0;
                assert(Seq::<InstalledView>::empty() + s =~= s);
            }
            Ok(out)
        },
        Err(e) => Err(e),
    }
}

/// The links among the findings, in order.
pub open spec fn removals_of(items: Seq<InstalledView>) -> Seq<SymlinkView>
    decreases items.len(),
{
    if items.len() == 0 {
        Seq::empty()
    } else {
        let before = removals_of(items.drop_last());
        match items.last() {
            InstalledView::Item(l) => before.push(l),
            InstalledView::NotOwned(_) => before,
        }
    }
}

/// What stands in the target in the places of the items of `pkg`, or
/// nothing if a path is not absolute or the trees cannot be read.
pub open spec fn found_spec(pkg: PackageView, target: TargetView) -> Option<Seq<InstalledView>> {
    if !(is_absolute_spec(pkg.root) && is_absolute_spec(target.root)) {
        None
    } else {
        installed_spec(pkg, target)
    }
}

/// The links to remove so that `pkg` leaves `target`, or nothing if a
/// path is not absolute or the trees cannot be read.
pub open spec fn unstow_spec(pkg: PackageView, target: TargetView) -> Option<Seq<SymlinkView>> {
    match found_spec(pkg, target) {
        None => None,
        Some(items) => Some(removals_of(items)),
    }
}

/// Tells whether `e` is the error with which the removal of `pkg` from
/// `target` fails before anything is removed.
pub open spec fn is_unstow_failure(e: Error, pkg: PackageView, target: TargetView) -> bool {
    if !(is_absolute_spec(pkg.root) && is_absolute_spec(target.root)) {
        e is PathNotAbsolute
    } else {
        e is Io
    }
}

/// The links among the findings, in order.
pub fn removals(items: &Vec<InstalledItem>) -> (links: Vec<Symlink>)
    ensures
        links_view(links@) == removals_of(installed_view(items@)),
{
    let ghost iv = installed_view(items@);
    let mut links: Vec<Symlink> = Vec::new();
    let mut i: usize = 0;
    proof {
        assert(iv.take(0) =~= Seq::<InstalledView>::empty());
        assert(links_view(links@) =~= removals_of(iv.take(0)));
    }
    while i < items.len()
        invariant
            iv == installed_view(items@),
            0 <= i <= items.len(),
            links_view(links@) == removals_of(iv.take(i as int)),
        decreases items.len() - i,
    {
        proof {
            assert(iv.take(i + 1).drop_last() =~= iv.take(i as int));
            assert(iv.take(i + 1).last() == items@[i as int]@);
        }
        let ghost before = links_view(links@);
        match &items[i] {
            InstalledItem::Item(l) => {
                links.push(
                    Symlink {
                        item: copy_names(&l.item),
                        path: l.path.clone(),
                        target: l.target.clone(),
                    },
                );
                assert(links_view(links@) =~= before.push(l@));
            },
            InstalledItem::NotOwned(_) => {},
        }
        i = i + 1;
    }
    proof {
        assert(iv.take(items.len() as int) =~= iv);
    }
    links
}

/// Finds the links to remove so that `package` leaves `target`: the links
/// in the places of the package's items that the package owns, in the
/// order of the walk. What the package does not own is left out, and is
/// no error. Nothing is changed.
pub fn do_unstow<P: Package, T: Target>(package: &P, target: &T) -> (r: Result<
    Vec<Symlink>,
    Error,
>)
    requires
        package.model().bounded(),
    ensures
        match unstow_spec(package.model(), target.model()) {
            Some(links) => r is Ok && links_view(r->Ok_0@) == links,
            None => r is Err && is_unstow_failure(r->Err_0, package.model(), target.model()),
        },
{
    match get_installed_package_contents(target, package) {
        Ok(items) => Ok(removals(&items)),
        Err(e) => Err(e),
    }
}

/// The line that reports something that the package named `pkg` does not own.
pub open spec fn not_owned_line(path: Seq<char>, pkg: Seq<char>) -> Seq<char> {
    "Link path '"@ + path + "' is not owned by package '"@ + pkg + "'"@
}

/// The line that reports something that the package named `pkg` does not own.
pub fn report_not_owned(path: &str, pkg: &str) -> (out: String)
    ensures
        out@ == not_owned_line(path@, pkg@),
{
    let mut out = String::from_str("Link path '");
    out.append(path);
    out.append("' is not owned by package '");
    out.append(pkg);
    out.append("'");
    out
}

/// One line for each finding that the package does not own, in order.
pub open spec fn notices_of(items: Seq<InstalledView>, pkg: Seq<char>) -> Seq<Seq<char>>
    decreases items.len(),
{
    if items.len() == 0 {
        Seq::empty()
    } else {
        let before = notices_of(items.drop_last(), pkg);
        match items.last() {
            InstalledView::Item(_) => before,
            InstalledView::NotOwned(path) => before.push(not_owned_line(path, pkg)),
        }
    }
}

/// Appends to `report` one line for each finding that the package does not own.
pub fn report_notices(items: &Vec<InstalledItem>, pkg: &str, report: &mut Vec<String>)
    ensures
        names(final(report)@) == names(old(report)@) + notices_of(installed_view(items@), pkg@),
{
    let ghost iv = installed_view(items@);
    let mut i: usize = 0;
    proof {
        assert(iv.take(0) =~= Seq::<InstalledView>::empty());
        assert(names(report@) =~= names(old(report)@) + notices_of(iv.take(0), pkg@));
    }
    while i < items.len()
        invariant
            iv == installed_view(items@),
            0 <= i <= items.len(),
            names(report@) == names(old(report)@) + notices_of(iv.take(i as int), pkg@),
        decreases items.len() - i,
    {
        proof {
            assert(iv.take(i + 1).drop_last() =~= iv.take(i as int));
            assert(iv.take(i + 1).last() == items@[i as int]@);
        }
        let ghost before = names(report@);
        match &items[i] {
            InstalledItem::Item(_) => {},
            InstalledItem::NotOwned(path) => {
                report.push(report_not_owned(path.as_str(), pkg));
                proof {
                    assert(names(report@) =~= before.push(not_owned_line(path@, pkg@)));
                    assert(before.push(not_owned_line(path@, pkg@)) =~= names(old(report)@)
                        + notices_of(iv.take(i + 1), pkg@));
                }
            },
        }
        i = i + 1;
    }
    proof {
        assert(iv.take(items.len() as int) =~= iv);
    }
}

/// The tree after the links have been removed, one after the other.
pub open spec fn remove_links_spec(
    tree: Map<Seq<Seq<char>>, EntryView>,
    links: Seq<SymlinkView>,
) -> Map<Seq<Seq<char>>, EntryView>
    decreases links.len(),
{
    if links.len() == 0 {
        tree
    } else {
        remove_links_spec(tree, links.drop_last()).insert(links.last().item, EntryView::Missing)
    }
}

/// Removes the links from `target`, in order, and stops at the first that
/// cannot be removed.
pub fn remove_links<T: Target>(target: &mut T, links: &Vec<Symlink>) -> (r: Result<(), Error>)
    ensures
        final(target).model().root == old(target).model().root,
        r is Ok ==> final(target).model().tree == remove_links_spec(
            old(target).model().tree,
            links_view(links@),
        ),
        r is Err ==> r->Err_0 is Io && exists|n: int|
            0 <= n < links@.len() && final(target).model().tree == remove_links_spec(
                old(target).model().tree,
                #[trigger] links_view(links@).take(n),
            ),
{
    let ghost lv = links_view(links@);
    let mut i: usize = 0;
    assert(lv.take(0) =~= Seq::<SymlinkView>::empty());
    while i < links.len()
        invariant
            lv == links_view(links@),
            0 <= i <= links.len(),
            target.model().root == old(target).model().root,
            target.model().tree == remove_links_spec(old(target).model().tree, lv.take(i as int)),
        decreases links.len() - i,
    {
        proof {
            assert(lv.take(i + 1).drop_last() =~= lv.take(i as int));
            assert(lv.take(i + 1).last() == links@[i as int]@);
        }
        match target.remove_link(&links[i].item) {
            Ok(()) => {},
            Err(e) => {
                return Err(e);
            },
        }
        i = i + 1;
    }
    assert(lv.take(links.len() as int) =~= lv);
    Ok(())
}

/// The line that reports that a link would be removed.
pub open spec fn removal_line(l: SymlinkView) -> Seq<char> {
    "Would remove symlink: "@ + l.path
}

/// The line that reports that a link would be removed.
pub fn report_removal(link: &Symlink) -> (out: String)
    ensures
        out@ == removal_line(link@),
{
    let mut out = String::from_str("Would remove symlink: ");
    out.append(link.path.as_str());
    out
}

/// The lines that report that the links would be removed, in order.
pub open spec fn removal_lines(links: Seq<SymlinkView>) -> Seq<Seq<char>> {
    links.map_values(|l: SymlinkView| removal_line(l))
}

/// Appends to `report` one line for each link.
pub fn report_removals(links: &Vec<Symlink>, report: &mut Vec<String>)
    ensures
        names(final(report)@) == names(old(report)@) + removal_lines(links_view(links@)),
{
    let ghost lv = links_view(links@);
    let mut i: usize = 0;
    assert(names(report@) =~= names(old(report)@) + removal_lines(lv.take(0)));
    while i < links.len()
        invariant
            lv == links_view(links@),
            0 <= i <= links.len(),
            names(report@) == names(old(report)@) + removal_lines(lv.take(i as int)),
        decreases links.len() - i,
    {
        let ghost before = names(report@);
        report.push(report_removal(&links[i]));
        proof {
            assert(names(report@) =~= before.push(removal_line(lv[i as int])));
            assert(before.push(removal_line(lv[i as int])) =~= names(old(report)@) + removal_lines(
                lv.take(i + 1),
            ));
        }
        i = i + 1;
    }
    assert(lv.take(links.len() as int) =~= lv);
}

/// The lines that the removal of a package reports: one for each finding
/// that the package does not own, and then, in a simulated run, one for
/// each link that would be removed.
pub open spec fn unstow_lines(items: Seq<InstalledView>, pkg: Seq<char>, simulate: bool) -> Seq<
    Seq<char>,
> {
    if simulate {
        notices_of(items, pkg) + removal_lines(removals_of(items))
    } else {
        notices_of(items, pkg)
    }
}

/// Removes one package: finds the links that it owns, reports what stands
/// in the places of its items and is not its own, and then either reports
/// the links that would be removed, when `simulate` is set, or removes
/// them. What the package does not own is never touched.
pub fn unstow_package<P: Package, T: Target>(
    package: &P,
    target: &mut T,
    simulate: bool,
    report: &mut Vec<String>,
) -> (r: Result<(), Error>)
    requires
        package.model().bounded(),
    ensures
        final(target).model().root == old(target).model().root,
        match found_spec(package.model(), old(target).model()) {
            None => r is Err && is_unstow_failure(r->Err_0, package.model(), old(target).model())
                && final(target).model() == old(target).model() && final(report)@ == old(report)@,
            Some(items) => {
                &&& names(final(report)@) == names(old(report)@) + unstow_lines(
                    items,
                    package.model().name,
                    simulate,
                )
                &&& simulate ==> r is Ok && final(target).model() == old(target).model()
                &&& !simulate && r is Ok ==> final(target).model().tree == remove_links_spec(
                    old(target).model().tree,
                    removals_of(items),
                )
                &&& !simulate && r is Err ==> r->Err_0 is Io && exists|n: int|
                    0 <= n < removals_of(items).len() && final(target).model().tree
                        == remove_links_spec(
                        old(target).model().tree,
                        #[trigger] removals_of(items).take(n),
                    )
            },
        },
{
    let items = match get_installed_package_contents(&*target, package) {
        Ok(v) => v,
        Err(e) => {
            return Err(e);
        },
    };
    let links = removals(&items);
    report_notices(&items, package.name(), report);
    if simulate {
        let ghost mid = names(report@);
        report_removals(&links, report);
        proof {
            let iv = installed_view(items@);
            assert(names(report@) =~= names(old(report)@) + (notices_of(
                iv,
                package.model().name,
            ) + removal_lines(removals_of(iv))));
        }
        Ok(())
    } else {
        remove_links(target, &links)
    }
}

/// The target after the first `n` packages have been removed in turn,
/// each of them wholly or, where its links cannot be found, not at all.
pub open spec fn unstowed(pkgs: Seq<PackageView>, target: TargetView, n: int) -> TargetView
    decreases n,
{
    if n <= 0 {
        target
    } else {
        let t = unstowed(pkgs, target, n - 1);
        if n > pkgs.len() {
            t
        } else {
            match unstow_spec(pkgs[n - 1], t) {
                Some(links) => TargetView { root: t.root, tree: remove_links_spec(t.tree, links) },
                None => t,
            }
        }
    }
}

/// The lines that a simulated run reports for the first `n` packages.
pub open spec fn simulated_removals(pkgs: Seq<PackageView>, target: TargetView, n: int) -> Seq<
    Seq<char>,
>
    decreases n,
{
    if n <= 0 || n > pkgs.len() {
        Seq::empty()
    } else {
        let before = simulated_removals(pkgs, target, n - 1);
        match found_spec(pkgs[n - 1], target) {
            Some(items) => before + unstow_lines(items, pkgs[n - 1].name, true),
            None => before,
        }
    }
}

/// The lines that a run reports for the first `n` packages when each of
/// them is removed wholly: for each package what stood in the places of
/// its items, when its turn came, and was not its own.
pub open spec fn noticed(pkgs: Seq<PackageView>, target: TargetView, n: int) -> Seq<Seq<char>>
    decreases n,
{
    if n <= 0 || n > pkgs.len() {
        Seq::empty()
    } else {
        let before = noticed(pkgs, target, n - 1);
        match found_spec(pkgs[n - 1], unstowed(pkgs, target, n - 1)) {
            Some(items) => before + unstow_lines(items, pkgs[n - 1].name, false),
            None => before,
        }
    }
}

/// What the removal of one package makes of a tree and of the report. A
/// package whose links cannot be found leaves both as they were, and is
/// never removed wholly. Another one adds a line for each finding that is
/// not its own, and leaves the tree without its links: without all of them
/// where it is removed wholly, and else without those before the one that
/// could not be removed.
pub open spec fn unstow_step(
    pkg: PackageView,
    root: Seq<char>,
    before: Map<Seq<Seq<char>>, EntryView>,
    after: Map<Seq<Seq<char>>, EntryView>,
    whole: bool,
    said: Seq<Seq<char>>,
    says: Seq<Seq<char>>,
) -> bool {
    match found_spec(pkg, TargetView { root, tree: before }) {
        None => after == before && says == said && !whole,
        Some(items) => {
            &&& says == said + unstow_lines(items, pkg.name, false)
            &&& if whole {
                after == remove_links_spec(before, removals_of(items))
            } else {
                exists|n: int|
                    0 <= n < removals_of(items).len() && after == remove_links_spec(
                        before,
                        #[trigger] removals_of(items).take(n),
                    )
            }
        },
    }
}

/// `trees` and `reports` hold the tree and the report before the first
/// package and after each package, in order; `whole` says of each package
/// whether it was removed wholly.
pub open spec fn unstow_trace(
    pkgs: Seq<PackageView>,
    root: Seq<char>,
    trees: Seq<Map<Seq<Seq<char>>, EntryView>>,
    whole: Seq<bool>,
    reports: Seq<Seq<Seq<char>>>,
) -> bool {
    &&& trees.len() == pkgs.len() + 1
    &&& reports.len() == pkgs.len() + 1
    &&& whole.len() == pkgs.len()
    &&& forall|i: int|
        0 <= i < pkgs.len() ==> unstow_step(
            #[trigger] pkgs[i],
            root,
            trees[i],
            trees[i + 1],
            whole[i],
            reports[i],
            reports[i + 1],
        )
}

/// Removes the packages from `target`, one after the other. A package
/// whose links cannot be found, or cannot all be removed, does not keep the
/// later ones from being tried; the error returned is the first that
/// occurred. `report` receives one line for each thing that stands in the
/// place of an item and is not the package's own. With `args.simulate` set
/// nothing is changed, and `report` also receives one line for each link
/// that would be removed.
pub fn run<P: Package, T: Target>(
    args: &UnstowArgs,
    packages: &Vec<P>,
    target: &mut T,
    report: &mut Vec<String>,
) -> (r: Result<(), Error>)
    requires
        forall|i: int| 0 <= i < packages@.len() ==> (#[trigger] packages@[i]).model().bounded(),
    ensures
        final(target).model().root == old(target).model().root,
        args.packages@.len() == 0 ==> {
            &&& r matches Err(Error::MissingPackages)
            &&& final(target).model() == old(target).model()
            &&& final(report)@ == old(report)@
        },
        args.packages@.len() > 0 && args.simulate ==> {
            &&& final(target).model() == old(target).model()
            &&& names(final(report)@) == names(old(report)@) + simulated_removals(
                models(packages@),
                old(target).model(),
                packages@.len() as int,
            )
            &&& r is Ok <==> forall|i: int|
                0 <= i < packages@.len() ==> unstow_spec(
                    #[trigger] models(packages@)[i],
                    old(target).model(),
                ) is Some
            &&& r is Err ==> exists|k: int|
                {
                    &&& 0 <= k < packages@.len()
                    &&& is_unstow_failure(
                        r->Err_0,
                        #[trigger] models(packages@)[k],
                        old(target).model(),
                    )
                    &&& unstow_spec(models(packages@)[k], old(target).model()) is None
                    &&& forall|j: int|
                        0 <= j < k ==> unstow_spec(
                            #[trigger] models(packages@)[j],
                            old(target).model(),
                        ) is Some
                }
        },
        args.packages@.len() > 0 && !args.simulate ==> {
            &&& exists|
                trees: Seq<Map<Seq<Seq<char>>, EntryView>>,
                whole: Seq<bool>,
                reports: Seq<Seq<Seq<char>>>,
            |
                {
                    &&& #[trigger] unstow_trace(
                        models(packages@),
                        old(target).model().root,
                        trees,
                        whole,
                        reports,
                    )
                    &&& trees[0] == old(target).model().tree
                    &&& trees[packages@.len() as int] == final(target).model().tree
                    &&& reports[0] == names(old(report)@)
                    &&& reports[packages@.len() as int] == names(final(report)@)
                    &&& r is Ok <==> forall|i: int|
                        0 <= i < packages@.len() ==> #[trigger] whole[i]
                    &&& r is Err ==> exists|k: int|
                        {
                            &&& #[trigger] first_partial(whole, k)
                            &&& match unstow_spec(
                                models(packages@)[k],
                                TargetView { root: old(target).model().root, tree: trees[k] },
                            ) {
                                None => is_unstow_failure(
                                    r->Err_0,
                                    models(packages@)[k],
                                    TargetView { root: old(target).model().root, tree: trees[k] },
                                ),
                                Some(_) => r->Err_0 is Io,
                            }
                        }
                }
            &&& r is Ok ==> {
                &&& final(target).model() == unstowed(
                    models(packages@),
                    old(target).model(),
                    packages@.len() as int,
                )
                &&& names(final(report)@) == names(old(report)@) + noticed(
                    models(packages@),
                    old(target).model(),
                    packages@.len() as int,
                )
                &&& forall|i: int|
                    0 <= i < packages@.len() ==> unstow_spec(
                        models(packages@)[i],
                        #[trigger] unstowed(models(packages@), old(target).model(), i),
                    ) is Some
            }
            &&& (forall|i: int|
                0 <= i < packages@.len() ==> unstow_spec(
                    models(packages@)[i],
                    #[trigger] unstowed(models(packages@), old(target).model(), i),
                ) == Some(Seq::<SymlinkView>::empty())) ==> r is Ok
            &&& (forall|i: int|
                0 <= i < packages@.len() ==> unstow_spec(
                    #[trigger] models(packages@)[i],
                    old(target).model(),
                ) is None || unstow_spec(models(packages@)[i], old(target).model()) == Some(
                    Seq::<SymlinkView>::empty(),
                )) ==> final(target).model() == old(target).model()
        },
{
    if args.packages.len() == 0 {
        return Err(Error::MissingPackages);
    }
    let ghost ms = models(packages@);
    let ghost start = target.model();
    let ghost said = names(report@);
    let ghost trees: Seq<Map<Seq<Seq<char>>, EntryView>> = seq![start.tree];
    let ghost reports: Seq<Seq<Seq<char>>> = seq![said];
    let ghost whole: Seq<bool> = Seq::empty();
    let simulate = args.simulate;
    let mut first: Option<Error> = None;
    let mut i: usize = 0;
    assert(names(report@) =~= said + simulated_removals(ms, start, 0));
    assert(names(report@) =~= said + noticed(ms, start, 0));
    while i < packages.len()
        invariant
            ms == models(packages@),
            start == old(target).model(),
            said == names(old(report)@),
            simulate == args.simulate,
            0 <= i <= packages.len(),
            forall|j: int| 0 <= j < packages@.len() ==> (#[trigger] packages@[j]).model().bounded(),
            target.model().root == start.root,
            simulate ==> target.model() == start,
            simulate ==> names(report@) == said + simulated_removals(ms, start, i as int),
            simulate ==> (first is None <==> forall|j: int|
                0 <= j < i ==> unstow_spec(#[trigger] ms[j], start) is Some),
            simulate && first is Some ==> exists|k: int|
                {
                    &&& 0 <= k < i
                    &&& is_unstow_failure(first->Some_0, #[trigger] ms[k], start)
                    &&& unstow_spec(ms[k], start) is None
                    &&& forall|j: int| 0 <= j < k ==> unstow_spec(#[trigger] ms[j], start) is Some
                },
            trees.len() == i + 1,
            reports.len() == i + 1,
            whole.len() == i,
            trees[0] == start.tree,
            reports[0] == said,
            !simulate ==> trees[i as int] == target.model().tree,
            !simulate ==> reports[i as int] == names(report@),
            !simulate ==> forall|j: int|
                0 <= j < i ==> unstow_step(
                    #[trigger] ms[j],
                    start.root,
                    trees[j],
                    trees[j + 1],
                    whole[j],
                    reports[j],
                    reports[j + 1],
                ),
            !simulate ==> (first is None <==> forall|j: int| 0 <= j < i ==> #[trigger] whole[j]),
            !simulate && first is Some ==> exists|k: int|
                {
                    &&& #[trigger] first_partial(whole, k)
                    &&& match unstow_spec(ms[k], TargetView { root: start.root, tree: trees[k] }) {
                        None => is_unstow_failure(
                            first->Some_0,
                            ms[k],
                            TargetView { root: start.root, tree: trees[k] },
                        ),
                        Some(_) => first->Some_0 is Io,
                    }
                },
            !simulate && first is None ==> target.model() == unstowed(ms, start, i as int),
            !simulate && first is None ==> names(report@) == said + noticed(ms, start, i as int),
            !simulate && first is None ==> forall|j: int|
                0 <= j < i ==> unstow_spec(ms[j], #[trigger] unstowed(ms, start, j)) is Some,
            !simulate && first is Some ==> exists|k: int|
                0 <= k < i && unstow_spec(ms[k], #[trigger] unstowed(ms, start, k)) != Some(
                    Seq::<SymlinkView>::empty(),
                ),
            !simulate && (forall|j: int|
                0 <= j < i ==> unstow_spec(#[trigger] ms[j], start) is None || unstow_spec(
                    ms[j],
                    start,
                ) == Some(Seq::<SymlinkView>::empty())) ==> target.model() == start,
        decreases packages.len() - i,
    {
        let ghost here = target.model();
        let ghost heard = names(report@);
        let ghost was_clean = first is None;
        let ghost old_trees = trees;
        let ghost old_whole = whole;
        let ghost old_reports = reports;
        assert(ms[i as int] == packages@[i as int].model());
        assert(!simulate ==> here == (TargetView { root: start.root, tree: trees[i as int] }));
        let outcome = unstow_package(&packages[i], target, simulate, report);
        proof {
            trees = trees.push(target.model().tree);
            reports = reports.push(names(report@));
            whole = whole.push(outcome is Ok);
            if simulate {
                match found_spec(ms[i as int], start) {
                    Some(items) => {
                        assert(names(report@) =~= said + (simulated_removals(ms, start, i as int)
                            + unstow_lines(items, ms[i as int].name, true)));
                    },
                    None => {},
                }
            } else {
                assert forall|j: int| 0 <= j < i + 1 implies unstow_step(
                    #[trigger] ms[j],
                    start.root,
                    trees[j],
                    trees[j + 1],
                    whole[j],
                    reports[j],
                    reports[j + 1],
                ) by {
                    if j < i {
                        assert(trees[j] == old_trees[j]);
                        assert(trees[j + 1] == old_trees[j + 1]);
                        assert(reports[j] == old_reports[j]);
                        assert(reports[j + 1] == old_reports[j + 1]);
                        assert(whole[j] == old_whole[j]);
                        assert(unstow_step(
                            ms[j],
                            start.root,
                            old_trees[j],
                            old_trees[j + 1],
                            old_whole[j],
                            old_reports[j],
                            old_reports[j + 1],
                        ));
                    } else {
                        assert(trees[j] == here.tree);
                        assert(reports[j] == heard);
                    }
                }
                if was_clean {
                    assert(here == unstowed(ms, start, i as int));
                    if outcome is Ok {
                        let items = found_spec(ms[i as int], here)->Some_0;
                        assert(target.model() == (TargetView {
                            root: here.root,
                            tree: remove_links_spec(here.tree, removals_of(items)),
                        }));
                        assert(names(report@) =~= said + (noticed(ms, start, i as int)
                            + unstow_lines(items, ms[i as int].name, false)));
                        assert forall|j: int| 0 <= j < i + 1 implies #[trigger] whole[j] by {
                            if j < i {
                                assert(old_whole[j]);
                            }
                        }
                    } else {
                        assert(!whole[i as int]);
                        assert(first_partial(whole, i as int)) by {
                            assert forall|j: int| 0 <= j < i implies #[trigger] whole[j] by {
                                assert(old_whole[j]);
                            }
                        }
                        if unstow_spec(ms[i as int], here) is Some {
                            let links = unstow_spec(ms[i as int], here)->Some_0;
                            assert(links.len() > 0);
                            assert(links != Seq::<SymlinkView>::empty());
                        }
                    }
                } else {
                    let k = choose|k: int|
                        {
                            &&& #[trigger] first_partial(old_whole, k)
                            &&& match unstow_spec(
                                ms[k],
                                TargetView { root: start.root, tree: old_trees[k] },
                            ) {
                                None => is_unstow_failure(
                                    first->Some_0,
                                    ms[k],
                                    TargetView { root: start.root, tree: old_trees[k] },
                                ),
                                Some(_) => first->Some_0 is Io,
                            }
                        };
                    assert(first_partial(whole, k)) by {
                        assert(whole[k] == old_whole[k]);
                        assert forall|j: int| 0 <= j < k implies #[trigger] whole[j] by {
                            assert(old_whole[j]);
                        }
                    }
                    assert(trees[k] == old_trees[k]);
                    assert(!whole[k]);
                }
            }
        }
        match outcome {
            Ok(()) => {},
            Err(e) => {
                proof {
                    if simulate && was_clean {
                        assert(is_unstow_failure(e, ms[i as int], start));
                    }
                }
                if first.is_none() {
                    first = Some(e);
                }
            },
        }
        i = i + 1;
    }
    proof {
        if !simulate {
            assert(unstow_trace(ms, start.root, trees, whole, reports));
        }
    }
    match first {
        None => Ok(()),
        Some(e) => Err(e),
    }
}

} // verus!
