//! Installing a package: the plan of links to create, and its execution.
//!
//! A plan says what to do about the target as it was when it was inspected.
//! Whoever changes the target between the planning and the creation of the
//! links makes the plan stale; nothing here detects that.

use crate::cli::StowArgs;
use crate::error::Error;
use crate::fs::{components, is_absolute, is_absolute_spec, links_view, SymlinkView};
use crate::fs::{copy_names, join, join_components, join_path, names, parent_dir, path_join};
use crate::fs::{path_components, relative_components, relative_of, ups, Symlink};
use crate::tree::{Entry, EntryView, Package, PackageView, Target, TargetView};
use vstd::prelude::*;
use vstd::string::StringExecFns;

verus! {

/// Why a link cannot be created at a path.
#[derive(Clone, Copy, Debug, PartialEq, Eq, Structural)]
pub enum ConflictReason {
    /// A link stands there that does not point to the package's item.
    ForeignLink,
    /// Something stands there that is neither a directory nor a link.
    Occupied,
}

impl ConflictReason {
    /// The text that `text` returns.
    pub open spec fn text_spec(self) -> Seq<char> {
        match self {
            ConflictReason::ForeignLink => "existing link not owned by this package"@,
            ConflictReason::Occupied => "occupied by a non-link, non-directory entry"@,
        }
    }

    /// The reason in words.
    pub fn text(&self) -> (out: String)
        ensures
            out@ == self.text_spec(),
    {
        match self {
            ConflictReason::ForeignLink => String::from_str(
                "existing link not owned by this package",
            ),
            ConflictReason::Occupied => String::from_str(
                "occupied by a non-link, non-directory entry",
            ),
        }
    }
}

/// One decision of the planner about one item of the package.
#[derive(Debug)]
pub enum LinkAction {
    /// Nothing stands at `link_path`: create a link there to `link_target`.
    Create { item: Vec<String>, link_path: String, link_target: String },
    /// The link at `link_path` already points to the item.
    Skip { item: Vec<String>, link_path: String },
    /// A real directory stands at `dir_path`: the items in it follow.
    Descend { item: Vec<String>, dir_path: String },
    /// The path is taken, and the plan as a whole is refused.
    Conflict { item: Vec<String>, path: String, reason: ConflictReason },
}

/// One decision of the planner, as contracts speak of it.
pub ghost enum ActionView {
    Create { item: Seq<Seq<char>>, link_path: Seq<char>, link_target: Seq<char> },
    Skip { item: Seq<Seq<char>>, link_path: Seq<char> },
    Descend { item: Seq<Seq<char>>, dir_path: Seq<char> },
    Conflict { item: Seq<Seq<char>>, path: Seq<char>, reason: ConflictReason },
}

impl View for LinkAction {
    type V = ActionView;

    open spec fn view(&self) -> ActionView {
        match self {
            LinkAction::Create { item, link_path, link_target } => ActionView::Create {
                item: names(item@),
                link_path: link_path@,
                link_target: link_target@,
            },
            LinkAction::Skip { item, link_path } => ActionView::Skip {
                item: names(item@),
                link_path: link_path@,
            },
            LinkAction::Descend { item, dir_path } => ActionView::Descend {
                item: names(item@),
                dir_path: dir_path@,
            },
            LinkAction::Conflict { item, path, reason } => ActionView::Conflict {
                item: names(item@),
                path: path@,
                reason: *reason,
            },
        }
    }
}

/// The views of the actions of a plan.
pub open spec fn plan_view(plan: Seq<LinkAction>) -> Seq<ActionView> {
    plan.map_values(|a: LinkAction| a@)
}

/// The components of the text that the link for `item` holds: up out of the
/// directory that contains the link to the target's root, along `base` from
/// there to the package's root, and down to the item.
pub open spec fn link_target_components(base: Seq<Seq<char>>, item: Seq<Seq<char>>) -> Seq<
    Seq<char>,
> {
    ups(item.len() - 1) + base + item
}

/// The text that the link for `item` holds.
pub open spec fn link_target_text(base: Seq<Seq<char>>, item: Seq<Seq<char>>) -> Seq<char> {
    join(link_target_components(base, item))
}

/// The path of the link for `item` in a target at `root`.
pub open spec fn link_path_text(root: Seq<char>, item: Seq<Seq<char>>) -> Seq<char> {
    path_join(root, join(item))
}

/// The action for an item at which `found` stands.
pub open spec fn action_for(
    root: Seq<char>,
    base: Seq<Seq<char>>,
    item: Seq<Seq<char>>,
    found: EntryView,
) -> ActionView {
    let link_path = link_path_text(root, item);
    let link_target = link_target_text(base, item);
    match found {
        EntryView::Missing => ActionView::Create { item, link_path, link_target },
        EntryView::Directory => ActionView::Descend { item, dir_path: link_path },
        EntryView::Link(t) => if t == link_target {
            ActionView::Skip { item, link_path }
        } else {
            ActionView::Conflict { item, path: link_path, reason: ConflictReason::ForeignLink }
        },
        _ => ActionView::Conflict { item, path: link_path, reason: ConflictReason::Occupied },
    }
}

/// Two stretches of a plan, one after the other; nothing if either could
/// not be planned.
pub open spec fn chain(a: Option<Seq<ActionView>>, b: Option<Seq<ActionView>>) -> Option<
    Seq<ActionView>,
> {
    match (a, b) {
        (Some(x), Some(y)) => Some(x + y),
        _ => None,
    }
}

/// The plan for the names from index `i` on in the directory `dir` of the
/// package, each followed at once by the plan for what lies below it where
/// the target has a real directory in its place. `None` where a directory of
/// the package cannot be listed or a path of the target cannot be inspected.
pub open spec fn steps_from(
    pkg: PackageView,
    target: TargetView,
    base: Seq<Seq<char>>,
    dir: Seq<Seq<char>>,
    i: int,
) -> Option<Seq<ActionView>>
    decreases pkg.depth - dir.len(), pkg.listing[dir].len() - i,
{
    if !pkg.listing.dom().contains(dir) || dir.len() >= pkg.depth || i < 0 {
        None
    } else if i >= pkg.listing[dir].len() {
        Some(Seq::empty())
    } else {
        let item = dir.push(pkg.listing[dir][i]);
        let found = target.tree[item];
        let here = seq![action_for(target.root, base, item, found)];
        let head = match found {
            EntryView::Unreadable => None,
            EntryView::Directory => chain(Some(here), steps_from(pkg, target, base, item, 0)),
            _ => Some(here),
        };
        chain(head, steps_from(pkg, target, base, dir, i + 1))
    }
}

/// The components of the path from the target to the package.
pub open spec fn base_of(pkg: PackageView, target: TargetView) -> Seq<Seq<char>> {
    relative_components(components(pkg.root), components(target.root))
}

/// The plan for the whole package.
pub open spec fn plan_spec(pkg: PackageView, target: TargetView) -> Option<Seq<ActionView>> {
    steps_from(pkg, target, base_of(pkg, target), Seq::empty(), 0)
}

/// The text that the link for `item` holds.
pub fn link_target_of(base: &Vec<String>, item: &Vec<String>) -> (out: String)
    ensures
        out@ == link_target_text(names(base@), names(item@)),
{
    let mut parts: Vec<String> = Vec::new();
    let mut i: usize = 1;
    assert(names(parts@) =~= ups(0));
    while i < item.len()
        invariant
            1 <= i,
            i <= item.len() || i == 1,
            names(parts@) == ups(i - 1),
        decreases item.len() - i,
    {
        proof {
            reveal_strlit("..");
            assert(".."@ =~= parent_dir());
        }
        let ghost before = names(parts@);
        parts.push(String::from_str(".."));
        assert(names(parts@) =~= before.push(parent_dir()));
        assert(before.push(parent_dir()) =~= ups(i as int));
        i = i + 1;
    }
    assert(names(parts@) =~= ups(item.len() - 1)) by {
        if item.len() == 0 {
            assert(ups(0) =~= ups(-1));
        }
    }
    let mut j: usize = 0;
    while j < base.len()
        invariant
            0 <= j <= base.len(),
            names(parts@) == ups(item.len() - 1) + names(base@).take(j as int),
        decreases base.len() - j,
    {
        let ghost before = names(parts@);
        parts.push(base[j].clone());
        assert(names(parts@) =~= before.push(base@[j as int]@));
        assert(before.push(base@[j as int]@) =~= ups(item.len() - 1) + names(base@).take(j + 1));
        j = j + 1;
    }
    assert(names(base@).take(base.len() as int) =~= names(base@));
    let mut k: usize = 0;
    while k < item.len()
        invariant
            0 <= k <= item.len(),
            names(parts@) == ups(item.len() - 1) + names(base@) + names(item@).take(k as int),
        decreases item.len() - k,
    {
        let ghost before = names(parts@);
        parts.push(item[k].clone());
        assert(names(parts@) =~= before.push(item@[k as int]@));
        assert(before.push(item@[k as int]@) =~= ups(item.len() - 1) + names(base@) + names(
            item@,
        ).take(k + 1));
        k = k + 1;
    }
    assert(names(item@).take(item.len() as int) =~= names(item@));
    join_components(&parts)
}

/// Decides what to do about `item`, at whose path in the target `found` stands.
pub fn make_action(root: &str, base: &Vec<String>, item: Vec<String>, found: &Entry) -> (out:
    LinkAction)
    ensures
        out@ == action_for(root@, names(base@), names(item@), found@),
{
    let rel = join_components(&item);
    let link_path = join_path(root, rel.as_str());
    match found {
        Entry::Missing => {
            let link_target = link_target_of(base, &item);
            LinkAction::Create { item, link_path, link_target }
        },
        Entry::Directory => LinkAction::Descend { item, dir_path: link_path },
        Entry::Link(t) => {
            let link_target = link_target_of(base, &item);
            if *t == link_target {
                LinkAction::Skip { item, link_path }
            } else {
                LinkAction::Conflict { item, path: link_path, reason: ConflictReason::ForeignLink }
            }
        },
        _ => LinkAction::Conflict { item, path: link_path, reason: ConflictReason::Occupied },
    }
}

/// Plans the directory `dir` of the package and appends the actions to `plan`.
fn plan_dir<P: Package, T: Target>(
    package: &P,
    target: &T,
    base: &Vec<String>,
    dir: &Vec<String>,
    plan: &mut Vec<LinkAction>,
) -> (r: Result<(), Error>)
    requires
        is_absolute_spec(package.model().root),
        package.model().bounded(),
    ensures
        match steps_from(package.model(), target.model(), names(base@), names(dir@), 0) {
            Some(s) => r is Ok && plan_view(final(plan)@) == plan_view(old(plan)@) + s,
            None => r matches Err(Error::Io(_)),
        },
    decreases package.model().depth - dir.len(),
{
    let ghost pkg = package.model();
    let ghost tgt = target.model();
    let ghost b = names(base@);
    let ghost d = names(dir@);
    let items = match package.get_package_contents(dir) {
        Ok(v) => v,
        Err(e) => {
            return Err(e);
        },
    };
    let ghost done: Seq<ActionView> = Seq::empty();
    let mut i: usize = 0;
    assert(plan_view(plan@) =~= plan_view(old(plan)@) + done);
    assert(chain(Some(done), steps_from(pkg, tgt, b, d, 0)) == steps_from(pkg, tgt, b, d, 0)) by {
        match steps_from(pkg, tgt, b, d, 0) {
            Some(s) => {
                assert(done + s =~= s);
            },
            None => {},
        }
    }
    while i < items.len()
        invariant
            pkg == package.model(),
            tgt == target.model(),
            b == names(base@),
            d == names(dir@),
            is_absolute_spec(pkg.root),
            pkg.bounded(),
            pkg.listing.dom().contains(d),
            names(items@) == pkg.listing[d],
            0 <= i <= items.len(),
            plan_view(plan@) == plan_view(old(plan)@) + done,
            steps_from(pkg, tgt, b, d, 0) == chain(Some(done), steps_from(pkg, tgt, b, d, i as int)),
        decreases items.len() - i,
    {
        let mut item = copy_names(dir);
        item.push(items[i].clone());
        let ghost it = names(item@);
        assert(it =~= d.push(pkg.listing[d][i as int])) by {
            assert(names(items@)[i as int] == items@[i as int]@);
        }
        let ghost rest = steps_from(pkg, tgt, b, d, i + 1);
        let found = match target.entry(&item) {
            Ok(e) => e,
            Err(e) => {
                return Err(e);
            },
        };
        let descend = match &found {
            Entry::Directory => true,
            _ => false,
        };
        let action = make_action(target.path(), base, copy_names(&item), &found);
        let ghost here = seq![action@];
        let ghost before = plan_view(plan@);
        plan.push(action);
        assert(plan_view(plan@) =~= before.push(here[0]));
        if descend {
            let ghost mid = plan_view(plan@);
            match plan_dir(package, target, base, &item, plan) {
                Ok(()) => {
                    proof {
                        let below = steps_from(pkg, tgt, b, it, 0)->Some_0;
                        match rest {
                            Some(tail) => {
                                assert((done + (here + below)) + tail =~= done + ((here + below)
                                    + tail));
                            },
                            None => {},
                        }
                        done = done + (here + below);
                        assert(plan_view(plan@) =~= plan_view(old(plan)@) + done);
                    }
                },
                Err(e) => {
                    return Err(e);
                },
            }
        } else {
            proof {
                match rest {
                    Some(tail) => {
                        assert((done + here) + tail =~= done + (here + tail));
                    },
                    None => {},
                }
                done = done + here;
                assert(plan_view(plan@) =~= plan_view(old(plan)@) + done);
            }
        }
        i = i + 1;
    }
    proof {
        assert(done + Seq::<ActionView>::empty() =~= done);
    }
    Ok(())
}

/// Plans the installation of `package` into `target`: one action for each
/// item of the package that the walk reaches, in the order of the listings,
/// a directory before what lies in it. Nothing is changed.
pub fn plan_stow<P: Package, T: Target>(package: &P, target: &T) -> (r: Result<
    Vec<LinkAction>,
    Error,
>)
    requires
        package.model().bounded(),
    ensures
        !(is_absolute_spec(package.model().root) && is_absolute_spec(target.model().root))
            ==> r matches Err(Error::PathNotAbsolute),
        is_absolute_spec(package.model().root) && is_absolute_spec(target.model().root) ==> (
        match plan_spec(package.model(), target.model()) {
            Some(s) => r is Ok && plan_view(r->Ok_0@) == s,
            None => r matches Err(Error::Io(_)),
        }),
{
    if !is_absolute(package.path()) || !is_absolute(target.path()) {
        return Err(Error::PathNotAbsolute);
    }
    let package_components = path_components(package.path());
    let target_components = path_components(target.path());
    let base = relative_of(&package_components, &target_components);
    let mut plan: Vec<LinkAction> = Vec::new();
    let top: Vec<String> = Vec::new();
    assert(names(top@) =~= Seq::<Seq<char>>::empty());
    assert(plan_view(plan@) =~= Seq::<ActionView>::empty());
    match plan_dir(package, target, &base, &top, &mut plan) {
        Ok(()) => {
            proof {
                let s = plan_spec(package.model(), target.model())->Some_0;
                assert(Seq::<ActionView>::empty() + s =~= s);
            }
            Ok(plan)
        },
        Err(e) => Err(e),
    }
}

/// The first index at or after `i` that holds a conflict, or the length of the plan.
pub open spec fn conflict_from(plan: Seq<ActionView>, i: int) -> int
    decreases plan.len() - i,
{
    if i < 0 || i >= plan.len() || plan[i] is Conflict {
        i
    } else {
        conflict_from(plan, i + 1)
    }
}

/// The index of the first conflict of the plan, or its length if it has none.
pub open spec fn first_conflict(plan: Seq<ActionView>) -> int {
    conflict_from(plan, 0)
}

/// A plan is accepted when it holds no conflict.
pub open spec fn accepted(plan: Seq<ActionView>) -> bool {
    forall|i: int| 0 <= i < plan.len() ==> !(#[trigger] plan[i] is Conflict)
}

/// The search for a conflict from `i` on stops at the first conflict, or at the end.
pub proof fn lemma_conflict_from(plan: Seq<ActionView>, i: int)
    requires
        0 <= i <= plan.len(),
    ensures
        i <= conflict_from(plan, i) <= plan.len(),
        forall|j: int| i <= j < conflict_from(plan, i) ==> !(#[trigger] plan[j] is Conflict),
        conflict_from(plan, i) < plan.len() ==> plan[conflict_from(plan, i)] is Conflict,
    decreases plan.len() - i,
{
    if i < plan.len() && !(plan[i] is Conflict) {
        lemma_conflict_from(plan, i + 1);
    }
}

/// A plan is accepted exactly when the search for its first conflict runs to its end.
pub proof fn lemma_accepted(plan: Seq<ActionView>)
    ensures
        accepted(plan) <==> first_conflict(plan) == plan.len(),
        0 <= first_conflict(plan) <= plan.len(),
{
    lemma_conflict_from(plan, 0);
}

/// The links that a plan asks for: its `Create` actions, in order.
pub open spec fn links_of(plan: Seq<ActionView>) -> Seq<SymlinkView>
    decreases plan.len(),
{
    if plan.len() == 0 {
        Seq::empty()
    } else {
        let before = links_of(plan.drop_last());
        match plan.last() {
            ActionView::Create { item, link_path, link_target } => before.push(
                SymlinkView { item, path: link_path, target: link_target },
            ),
            _ => before,
        }
    }
}

/// Tells whether `e` is the error that the conflict `a` gives in the package named `pkg`.
pub open spec fn is_conflict_error(e: Error, a: ActionView, pkg: Seq<char>) -> bool {
    match a {
        ActionView::Conflict { item, path, reason } => match reason {
            ConflictReason::Occupied => e matches Error::LinkPathExists(p) && p@ == path,
            ConflictReason::ForeignLink => e matches Error::LinkNotOwnedByPackage(p, n) && p@
                == path && n@ == pkg,
        },
        _ => false,
    }
}

/// Turns a plan into the links to create, or into the error of its first conflict.
pub fn check_plan(plan: &Vec<LinkAction>, pkg: &str) -> (r: Result<Vec<Symlink>, Error>)
    ensures
        accepted(plan_view(plan@)) ==> r is Ok && links_view(r->Ok_0@) == links_of(
            plan_view(plan@),
        ),
        !accepted(plan_view(plan@)) ==> r is Err && is_conflict_error(
            r->Err_0,
            plan_view(plan@)[first_conflict(plan_view(plan@))],
            pkg@,
        ),
{
    let ghost pv = plan_view(plan@);
    let mut links: Vec<Symlink> = Vec::new();
    let mut i: usize = 0;
    proof {
        lemma_accepted(pv);
        assert(pv.take(0) =~= Seq::<ActionView>::empty());
        assert(links_view(links@) =~= links_of(pv.take(0)));
    }
    while i < plan.len()
        invariant
            pv == plan_view(plan@),
            0 <= i <= plan.len(),
            first_conflict(pv) == conflict_from(pv, i as int),
            links_view(links@) == links_of(pv.take(i as int)),
        decreases plan.len() - i,
    {
        proof {
            assert(pv.take(i + 1).drop_last() =~= pv.take(i as int));
            assert(pv.take(i + 1).last() == plan@[i as int]@);
            assert(pv[i as int] == plan@[i as int]@);
        }
        let ghost before = links_view(links@);
        match &plan[i] {
            LinkAction::Create { item, link_path, link_target } => {
                links.push(
                    Symlink {
                        item: copy_names(item),
                        path: link_path.clone(),
                        target: link_target.clone(),
                    },
                );
                assert(links_view(links@) =~= before.push(
                    SymlinkView { item: names(item@), path: link_path@, target: link_target@ },
                ));
            },
            LinkAction::Conflict { item, path, reason } => {
                return match reason {
                    ConflictReason::Occupied => Err(Error::LinkPathExists(path.clone())),
                    ConflictReason::ForeignLink => Err(
                        Error::LinkNotOwnedByPackage(path.clone(), String::from_str(pkg)),
                    ),
                };
            },
            _ => {},
        }
        i = i + 1;
    }
    proof {
        assert(pv.take(plan.len() as int) =~= pv);
    }
    Ok(links)
}

/// Tells whether `e` is the error with which the installation of `pkg`
/// into `target` is refused.
pub open spec fn is_refusal(e: Error, pkg: PackageView, target: TargetView) -> bool {
    if !(is_absolute_spec(pkg.root) && is_absolute_spec(target.root)) {
        e is PathNotAbsolute
    } else {
        match plan_spec(pkg, target) {
            None => e is Io,
            Some(plan) => !accepted(plan) && is_conflict_error(
                e,
                plan[first_conflict(plan)],
                pkg.name,
            ),
        }
    }
}

/// The links that install `pkg` into `target`, or nothing if the
/// installation is refused: a path is not absolute, the trees cannot be
/// read, or the plan holds a conflict.
pub open spec fn stow_spec(pkg: PackageView, target: TargetView) -> Option<Seq<SymlinkView>> {
    if !(is_absolute_spec(pkg.root) && is_absolute_spec(target.root)) {
        None
    } else {
        match plan_spec(pkg, target) {
            None => None,
            Some(plan) => if accepted(plan) {
                Some(links_of(plan))
            } else {
                None
            },
        }
    }
}

/// Plans the installation of `package` into `target` and returns the links
/// to create. One conflict anywhere in the plan refuses the whole of it;
/// the error is that of the first conflict. Nothing is changed.
pub fn do_stow<P: Package, T: Target>(package: &P, target: &T) -> (r: Result<Vec<Symlink>, Error>)
    requires
        package.model().bounded(),
    ensures
        match stow_spec(package.model(), target.model()) {
            Some(links) => r is Ok && links_view(r->Ok_0@) == links,
            None => r is Err && is_refusal(r->Err_0, package.model(), target.model()),
        },
{
    let plan = match plan_stow(package, target) {
        Ok(p) => p,
        Err(e) => {
            return Err(e);
        },
    };
    check_plan(&plan, package.name())
}

/// The tree after the links have been created, one after the other.
pub open spec fn apply_links_spec(
    tree: Map<Seq<Seq<char>>, EntryView>,
    links: Seq<SymlinkView>,
) -> Map<Seq<Seq<char>>, EntryView>
    decreases links.len(),
{
    if links.len() == 0 {
        tree
    } else {
        apply_links_spec(tree, links.drop_last()).insert(
            links.last().item,
            EntryView::Link(links.last().target),
        )
    }
}

/// Creates the links in `target`, in order, and stops at the first that
/// cannot be created.
pub fn apply_links<T: Target>(target: &mut T, links: &Vec<Symlink>) -> (r: Result<(), Error>)
    ensures
        final(target).model().root == old(target).model().root,
        r is Ok ==> final(target).model().tree == apply_links_spec(
            old(target).model().tree,
            links_view(links@),
        ),
        r is Err ==> r->Err_0 is Io && exists|n: int|
            0 <= n < links@.len() && final(target).model().tree == apply_links_spec(
                old(target).model().tree,
                #[trigger] links_view(links@).take(n),
            ),
{
    let ghost lv = links_view(links@);
    let mut i: usize = 0;
    assert(lv.take(0) =~= Seq::<SymlinkView>::empty());
    while i < links.len()
        invariant
            lv == links_view(links@),
            0 <= i <= links.len(),
            target.model().root == old(target).model().root,
            target.model().tree == apply_links_spec(old(target).model().tree, lv.take(i as int)),
        decreases links.len() - i,
    {
        proof {
            assert(lv.take(i + 1).drop_last() =~= lv.take(i as int));
            assert(lv.take(i + 1).last() == links@[i as int]@);
        }
        match target.create_link(&links[i].item, links[i].target.as_str()) {
            Ok(()) => {},
            Err(e) => {
                return Err(e);
            },
        }
        i = i + 1;
    }
    assert(lv.take(links.len() as int) =~= lv);
    Ok(())
}

/// The line that reports the creation of a link.
pub open spec fn symlink_line(l: SymlinkView) -> Seq<char> {
    "symlink("@ + l.path + ", "@ + l.target + ")"@
}

/// The line that reports the creation of a link.
pub fn report_line(link: &Symlink) -> (out: String)
    ensures
        out@ == symlink_line(link@),
{
    let mut out = String::from_str("symlink(");
    out.append(link.path.as_str());
    out.append(", ");
    out.append(link.target.as_str());
    out.append(")");
    out
}

/// The lines that report the creation of the links, in order.
pub open spec fn report_lines(links: Seq<SymlinkView>) -> Seq<Seq<char>> {
    links.map_values(|l: SymlinkView| symlink_line(l))
}

/// Appends to `report` one line for each link.
pub fn report_links(links: &Vec<Symlink>, report: &mut Vec<String>)
    ensures
        names(final(report)@) == names(old(report)@) + report_lines(links_view(links@)),
{
    let ghost lv = links_view(links@);
    let mut i: usize = 0;
    assert(names(report@) =~= names(old(report)@) + report_lines(lv.take(0)));
    while i < links.len()
        invariant
            lv == links_view(links@),
            0 <= i <= links.len(),
            names(report@) == names(old(report)@) + report_lines(lv.take(i as int)),
        decreases links.len() - i,
    {
        let ghost before = names(report@);
        report.push(report_line(&links[i]));
        proof {
            assert(names(report@) =~= before.push(symlink_line(lv[i as int])));
            assert(before.push(symlink_line(lv[i as int])) =~= names(old(report)@) + report_lines(
                lv.take(i + 1),
            ));
        }
        i = i + 1;
    }
    assert(lv.take(links.len() as int) =~= lv);
}

/// Installs one package: plans it, and then either reports the links that
/// would be created, when `simulate` is set, or creates them. A refused
/// plan changes nothing and reports nothing.
pub fn stow_package<P: Package, T: Target>(
    package: &P,
    target: &mut T,
    simulate: bool,
    report: &mut Vec<String>,
) -> (r: Result<(), Error>)
    requires
        package.model().bounded(),
    ensures
        final(target).model().root == old(target).model().root,
        match stow_spec(package.model(), old(target).model()) {
            None => r is Err && is_refusal(r->Err_0, package.model(), old(target).model())
                && final(target).model() == old(target).model() && final(report)@ == old(report)@,
            Some(links) => if simulate {
                r is Ok && final(target).model() == old(target).model() && names(final(report)@)
                    == names(old(report)@) + report_lines(links)
            } else {
                &&& final(report)@ == old(report)@
                &&& r is Ok ==> final(target).model().tree == apply_links_spec(
                    old(target).model().tree,
                    links,
                )
                &&& r is Err ==> r->Err_0 is Io && exists|n: int|
                    0 <= n < links.len() && final(target).model().tree == apply_links_spec(
                        old(target).model().tree,
                        #[trigger] links.take(n),
                    )
            },
        },
{
    let links = match do_stow(package, &*target) {
        Ok(l) => l,
        Err(e) => {
            return Err(e);
        },
    };
    if simulate {
        report_links(&links, report);
        Ok(())
    } else {
        apply_links(target, &links)
    }
}

/// The models of a list of packages.
pub open spec fn models<P: Package>(packages: Seq<P>) -> Seq<PackageView> {
    packages.map_values(|p: P| p.model())
}

/// The target after the first `n` packages have been installed in turn,
/// each of them wholly or, where it is refused, not at all.
pub open spec fn stowed(pkgs: Seq<PackageView>, target: TargetView, n: int) -> TargetView
    decreases n,
{
    if n <= 0 {
        target
    } else {
        let t = stowed(pkgs, target, n - 1);
        if n > pkgs.len() {
            t
        } else {
            match stow_spec(pkgs[n - 1], t) {
                Some(links) => TargetView { root: t.root, tree: apply_links_spec(t.tree, links) },
                None => t,
            }
        }
    }
}

/// The lines that a simulated run reports for the first `n` packages: those
/// of each package that is not refused, in order.
pub open spec fn simulated_report(pkgs: Seq<PackageView>, target: TargetView, n: int) -> Seq<
    Seq<char>,
>
    decreases n,
{
    if n <= 0 || n > pkgs.len() {
        Seq::empty()
    } else {
        let before = simulated_report(pkgs, target, n - 1);
        match stow_spec(pkgs[n - 1], target) {
            Some(links) => before + report_lines(links),
            None => before,
        }
    }
}

/// What the installation of one package makes of a tree. A refused package
/// leaves the tree as it was, and is never installed wholly. Another one
/// leaves the tree with its links created: with all of them where it is
/// installed wholly, and else with those before the one that could not be created.
pub open spec fn stow_step(
    pkg: PackageView,
    root: Seq<char>,
    before: Map<Seq<Seq<char>>, EntryView>,
    after: Map<Seq<Seq<char>>, EntryView>,
    whole: bool,
) -> bool {
    match stow_spec(pkg, TargetView { root, tree: before }) {
        None => after == before && !whole,
        Some(links) => if whole {
            after == apply_links_spec(before, links)
        } else {
            exists|n: int|
                0 <= n < links.len() && after == apply_links_spec(before, #[trigger] links.take(n))
        },
    }
}

/// `trees` holds the tree before the first package and the tree after each
/// package, in order; `whole` says of each package whether it was installed wholly.
pub open spec fn stow_trace(
    pkgs: Seq<PackageView>,
    root: Seq<char>,
    trees: Seq<Map<Seq<Seq<char>>, EntryView>>,
    whole: Seq<bool>,
) -> bool {
    &&& trees.len() == pkgs.len() + 1
    &&& whole.len() == pkgs.len()
    &&& forall|i: int|
        0 <= i < pkgs.len() ==> stow_step(#[trigger] pkgs[i], root, trees[i], trees[i + 1], whole[i])
}

/// `k` is the first package that was not handled wholly.
pub open spec fn first_partial(whole: Seq<bool>, k: int) -> bool {
    &&& 0 <= k < whole.len()
    &&& !whole[k]
    &&& forall|j: int| 0 <= j < k ==> #[trigger] whole[j]
}

/// Installs the packages into `target`, one after the other. A package
/// that is refused, or whose links cannot all be created, does not keep the
/// later ones from being tried; the error returned is the first that
/// occurred. With `args.simulate` set nothing is changed, and `report`
/// receives one line for each link that would be created.
pub fn run<P: Package, T: Target>(
    args: &StowArgs,
    packages: &Vec<P>,
    target: &mut T,
    report: &mut Vec<String>,
) -> (r: Result<(), Error>)
    requires
        forall|i: int| 0 <= i < packages@.len() ==> (#[trigger] packages@[i]).model().bounded(),
    ensures
        final(target).model().root == old(target).model().root,
        args.packages@.len() == 0 ==> {
            &&& r matches Err(Error::MissingPackages)
            &&& final(target).model() == old(target).model()
            &&& final(report)@ == old(report)@
        },
        args.packages@.len() > 0 && args.simulate ==> {
            &&& final(target).model() == old(target).model()
            &&& names(final(report)@) == names(old(report)@) + simulated_report(
                models(packages@),
                old(target).model(),
                packages@.len() as int,
            )
            &&& r is Ok <==> forall|i: int|
                0 <= i < packages@.len() ==> stow_spec(
                    #[trigger] models(packages@)[i],
                    old(target).model(),
                ) is Some
            &&& r is Err ==> exists|k: int|
                {
                    &&& 0 <= k < packages@.len()
                    &&& is_refusal(r->Err_0, #[trigger] models(packages@)[k], old(target).model())
                    &&& stow_spec(models(packages@)[k], old(target).model()) is None
                    &&& forall|j: int|
                        0 <= j < k ==> stow_spec(
                            #[trigger] models(packages@)[j],
                            old(target).model(),
                        ) is Some
                }
        },
        args.packages@.len() > 0 && !args.simulate ==> {
            &&& final(report)@ == old(report)@
            &&& exists|trees: Seq<Map<Seq<Seq<char>>, EntryView>>, whole: Seq<bool>|
                {
                    &&& #[trigger] stow_trace(
                        models(packages@),
                        old(target).model().root,
                        trees,
                        whole,
                    )
                    &&& trees[0] == old(target).model().tree
                    &&& trees[packages@.len() as int] == final(target).model().tree
                    &&& r is Ok <==> forall|i: int|
                        0 <= i < packages@.len() ==> #[trigger] whole[i]
                    &&& r is Err ==> exists|k: int|
                        {
                            &&& #[trigger] first_partial(whole, k)
                            &&& match stow_spec(
                                models(packages@)[k],
                                TargetView { root: old(target).model().root, tree: trees[k] },
                            ) {
                                None => is_refusal(
                                    r->Err_0,
                                    models(packages@)[k],
                                    TargetView { root: old(target).model().root, tree: trees[k] },
                                ),
                                Some(_) => r->Err_0 is Io,
                            }
                        }
                }
            &&& r is Ok ==> {
                &&& final(target).model() == stowed(
                    models(packages@),
                    old(target).model(),
                    packages@.len() as int,
                )
                &&& forall|i: int|
                    0 <= i < packages@.len() ==> stow_spec(
                        models(packages@)[i],
                        #[trigger] stowed(models(packages@), old(target).model(), i),
                    ) is Some
            }
            &&& (forall|i: int|
                0 <= i < packages@.len() ==> stow_spec(
                    models(packages@)[i],
                    #[trigger] stowed(models(packages@), old(target).model(), i),
                ) == Some(Seq::<SymlinkView>::empty())) ==> r is Ok
            &&& (forall|i: int|
                0 <= i < packages@.len() ==> stow_spec(
                    #[trigger] models(packages@)[i],
                    old(target).model(),
                ) is None) ==> final(target).model() == old(target).model()
        },
{
    if args.packages.len() == 0 {
        return Err(Error::MissingPackages);
    }
    let ghost ms = models(packages@);
    let ghost start = target.model();
    let ghost trees: Seq<Map<Seq<Seq<char>>, EntryView>> = seq![start.tree];
    let ghost whole: Seq<bool> = Seq::empty();
    let simulate = args.simulate;
    let mut first: Option<Error> = None;
    let mut i: usize = 0;
    assert(names(report@) =~= names(old(report)@) + simulated_report(ms, start, 0));
    while i < packages.len()
        invariant
            ms == models(packages@),
            start == old(target).model(),
            simulate == args.simulate,
            0 <= i <= packages.len(),
            forall|j: int| 0 <= j < packages@.len() ==> (#[trigger] packages@[j]).model().bounded(),
            target.model().root == start.root,
            simulate ==> target.model() == start,
            simulate ==> names(report@) == names(old(report)@) + simulated_report(
                ms,
                start,
                i as int,
            ),
            simulate ==> (first is None <==> forall|j: int|
                0 <= j < i ==> stow_spec(#[trigger] ms[j], start) is Some),
            simulate && first is Some ==> exists|k: int|
                {
                    &&& 0 <= k < i
                    &&& is_refusal(first->Some_0, #[trigger] ms[k], start)
                    &&& stow_spec(ms[k], start) is None
                    &&& forall|j: int| 0 <= j < k ==> stow_spec(#[trigger] ms[j], start) is Some
                },
            !simulate ==> report@ == old(report)@,
            trees.len() == i + 1,
            whole.len() == i,
            trees[0] == start.tree,
            !simulate ==> trees[i as int] == target.model().tree,
            !simulate ==> forall|j: int|
                0 <= j < i ==> stow_step(#[trigger] ms[j], start.root, trees[j], trees[j + 1], whole[j]),
            !simulate ==> (first is None <==> forall|j: int| 0 <= j < i ==> #[trigger] whole[j]),
            !simulate && first is Some ==> exists|k: int|
                {
                    &&& #[trigger] first_partial(whole, k)
                    &&& match stow_spec(ms[k], TargetView { root: start.root, tree: trees[k] }) {
                        None => is_refusal(
                            first->Some_0,
                            ms[k],
                            TargetView { root: start.root, tree: trees[k] },
                        ),
                        Some(_) => first->Some_0 is Io,
                    }
                },
            !simulate && first is None ==> target.model() == stowed(ms, start, i as int),
            !simulate && first is None ==> forall|j: int|
                0 <= j < i ==> stow_spec(ms[j], #[trigger] stowed(ms, start, j)) is Some,
            !simulate && first is Some ==> exists|k: int|
                0 <= k < i && stow_spec(ms[k], #[trigger] stowed(ms, start, k)) != Some(
                    Seq::<SymlinkView>::empty(),
                ),
            !simulate && (forall|j: int| 0 <= j < i ==> stow_spec(#[trigger] ms[j], start) is None)
                ==> target.model() == start,
        decreases packages.len() - i,
    {
        let ghost here = target.model();
        let ghost was_clean = first is None;
        let ghost old_trees = trees;
        let ghost old_whole = whole;
        assert(ms[i as int] == packages@[i as int].model());
        assert(!simulate ==> here == (TargetView { root: start.root, tree: trees[i as int] }));
        let outcome = stow_package(&packages[i], target, simulate, report);
        proof {
            trees = trees.push(target.model().tree);
            whole = whole.push(outcome is Ok);
            if !simulate {
                assert forall|j: int| 0 <= j < i + 1 implies stow_step(
                    #[trigger] ms[j],
                    start.root,
                    trees[j],
                    trees[j + 1],
                    whole[j],
                ) by {
                    if j < i {
                        assert(trees[j] == old_trees[j]);
                        assert(trees[j + 1] == old_trees[j + 1]);
                        assert(whole[j] == old_whole[j]);
                        assert(stow_step(ms[j], start.root, old_trees[j], old_trees[j + 1], old_whole[j]));
                    } else {
                        assert(trees[j] == here.tree);
                    }
                }
                if was_clean {
                    assert(here == stowed(ms, start, i as int));
                    if outcome is Ok {
                        let links = stow_spec(ms[i as int], here)->Some_0;
                        assert(target.model() == (TargetView {
                            root: here.root,
                            tree: apply_links_spec(here.tree, links),
                        }));
                        assert forall|j: int| 0 <= j < i + 1 implies #[trigger] whole[j] by {
                            if j < i {
                                assert(old_whole[j]);
                            }
                        }
                    } else {
                        assert(!whole[i as int]);
                        assert(first_partial(whole, i as int)) by {
                            assert forall|j: int| 0 <= j < i implies #[trigger] whole[j] by {
                                assert(old_whole[j]);
                            }
                        }
                        if stow_spec(ms[i as int], here) is Some {
                            let links = stow_spec(ms[i as int], here)->Some_0;
                            assert(links.len() > 0);
                            assert(links != Seq::<SymlinkView>::empty());
                        }
                    }
                } else {
                    let k = choose|k: int|
                        {
                            &&& #[trigger] first_partial(old_whole, k)
                            &&& match stow_spec(
                                ms[k],
                                TargetView { root: start.root, tree: old_trees[k] },
                            ) {
                                None => is_refusal(
                                    first->Some_0,
                                    ms[k],
                                    TargetView { root: start.root, tree: old_trees[k] },
                                ),
                                Some(_) => first->Some_0 is Io,
                            }
                        };
                    assert(first_partial(whole, k)) by {
                        assert(whole[k] == old_whole[k]);
                        assert forall|j: int| 0 <= j < k implies #[trigger] whole[j] by {
                            assert(old_whole[j]);
                        }
                    }
                    assert(trees[k] == old_trees[k]);
                    assert(!whole[k]);
                }
            }
        }
        match outcome {
            Ok(()) => {},
            Err(e) => {
                proof {
                    if simulate && was_clean {
                        assert(is_refusal(e, ms[i as int], start));
                    }
                }
                if first.is_none() {
                    first = Some(e);
                }
            },
        }
        i = i + 1;
    }
    proof {
        if !simulate {
            assert(stow_trace(ms, start.root, trees, whole));
        }
    }
    match first {
        None => Ok(()),
        Some(e) => Err(e),
    }
}

} // verus!
