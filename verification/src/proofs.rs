//! Facts about plans that hold of every package and every target.

use crate::commands::stow::{accepted, action_for, apply_links_spec, base_of, links_of};
use crate::commands::stow::{link_path_text, link_target_text, plan_spec, steps_from, stow_spec};
use crate::commands::stow::{ActionView, ConflictReason};
use crate::commands::stow::link_target_components;
use crate::commands::unstow::{installed_for, installed_from, owned_link_spec, owned_spec};
use crate::commands::unstow::{parent_components, remove_links_spec, removals_of, unstow_spec};
use crate::fs::{common_prefix_len, components, is_absolute_spec, join, mismatch_from};
use crate::fs::relative_components;
use crate::fs::{lemma_mismatch_bounds, parent_dir, path_join, relative_path_spec, resolve, ups};
use crate::fs::SymlinkView;
use crate::lexical::{all_proper, clean, lemma_components_join, lemma_components_path_join};
use crate::lexical::lemma_components_proper;
use crate::lexical::{lemma_resolve_append, lemma_resolve_clean, lemma_resolve_ups, lemma_ups};
use crate::lexical::proper;
use crate::tree::{valid_name, InstalledView};
use crate::tree::{EntryView, PackageView, TargetView};
use vstd::prelude::*;

verus! {

/// The item that an action is about.
pub open spec fn item_of(a: ActionView) -> Seq<Seq<char>> {
    match a {
        ActionView::Create { item, .. } => item,
        ActionView::Skip { item, .. } => item,
        ActionView::Descend { item, .. } => item,
        ActionView::Conflict { item, .. } => item,
    }
}

/// Every action of `s` is the one that the state of the target calls for
/// at its item, and the target can be inspected there.
pub open spec fn faithful(s: Seq<ActionView>, target: TargetView, base: Seq<Seq<char>>) -> bool {
    forall|k: int|
        0 <= k < s.len() ==> {
            &&& #[trigger] s[k] == action_for(
                target.root,
                base,
                item_of(s[k]),
                target.tree[item_of(s[k])],
            )
            &&& !(target.tree[item_of(s[k])] is Unreadable)
        }
}

/// Every action of `s` occurs in `whole`.
pub open spec fn within(s: Seq<ActionView>, whole: Seq<ActionView>) -> bool {
    forall|k: int| 0 <= k < s.len() ==> whole.contains(#[trigger] s[k])
}

/// The action for an item is about that item.
pub proof fn lemma_item_of_action_for(
    root: Seq<char>,
    base: Seq<Seq<char>>,
    item: Seq<Seq<char>>,
    found: EntryView,
)
    ensures
        item_of(action_for(root, base, item, found)) == item,
{
}

/// Each action of a plan is the one that the target's state calls for.
pub proof fn lemma_steps_faithful(
    pkg: PackageView,
    target: TargetView,
    base: Seq<Seq<char>>,
    dir: Seq<Seq<char>>,
    i: int,
)
    requires
        steps_from(pkg, target, base, dir, i) is Some,
    ensures
        faithful(steps_from(pkg, target, base, dir, i)->Some_0, target, base),
    decreases pkg.depth - dir.len(), pkg.listing[dir].len() - i,
{
    let s = steps_from(pkg, target, base, dir, i)->Some_0;
    if i < pkg.listing[dir].len() {
        let item = dir.push(pkg.listing[dir][i]);
        let found = target.tree[item];
        let act = action_for(target.root, base, item, found);
        lemma_item_of_action_for(target.root, base, item, found);
        let tail = steps_from(pkg, target, base, dir, i + 1)->Some_0;
        lemma_steps_faithful(pkg, target, base, dir, i + 1);
        if found is Directory {
            let sub = steps_from(pkg, target, base, item, 0)->Some_0;
            lemma_steps_faithful(pkg, target, base, item, 0);
            assert(s =~= (seq![act] + sub) + tail);
            assert forall|k: int| 0 <= k < s.len() implies {
                &&& #[trigger] s[k] == action_for(
                    target.root,
                    base,
                    item_of(s[k]),
                    target.tree[item_of(s[k])],
                )
                &&& !(target.tree[item_of(s[k])] is Unreadable)
            } by {
                if k == 0 {
                } else if k < 1 + sub.len() {
                    assert(s[k] == sub[k - 1]);
                } else {
                    assert(s[k] == tail[k - 1 - sub.len()]);
                }
            }
        } else {
            assert(s =~= seq![act] + tail);
            assert forall|k: int| 0 <= k < s.len() implies {
                &&& #[trigger] s[k] == action_for(
                    target.root,
                    base,
                    item_of(s[k]),
                    target.tree[item_of(s[k])],
                )
                &&& !(target.tree[item_of(s[k])] is Unreadable)
            } by {
                if k > 0 {
                    assert(s[k] == tail[k - 1]);
                }
            }
        }
    }
}

/// A path has a link among `links` exactly when the plan has a `Create`
/// for it, and each link holds the text of the action it comes from.
pub proof fn lemma_links_of(plan: Seq<ActionView>)
    ensures
        forall|k: int|
            0 <= k < links_of(plan).len() ==> plan.contains(
                ActionView::Create {
                    item: (#[trigger] links_of(plan)[k]).item,
                    link_path: links_of(plan)[k].path,
                    link_target: links_of(plan)[k].target,
                },
            ),
        forall|i: int|
            0 <= i < plan.len() && (#[trigger] plan[i]) is Create ==> links_of(plan).contains(
                SymlinkView {
                    item: plan[i]->Create_item,
                    path: plan[i]->Create_link_path,
                    target: plan[i]->Create_link_target,
                },
            ),
    decreases plan.len(),
{
    if plan.len() > 0 {
        let init = plan.drop_last();
        lemma_links_of(init);
        let ls = links_of(plan);
        let li = links_of(init);
        assert forall|k: int| 0 <= k < ls.len() implies plan.contains(
            ActionView::Create {
                item: (#[trigger] ls[k]).item,
                link_path: ls[k].path,
                link_target: ls[k].target,
            },
        ) by {
            if k < li.len() {
                assert(ls[k] == li[k]);
                let a = ActionView::Create {
                    item: li[k].item,
                    link_path: li[k].path,
                    link_target: li[k].target,
                };
                let idx = choose|idx: int| 0 <= idx < init.len() && init[idx] == a;
                assert(plan[idx] == a);
            } else {
                assert(plan[plan.len() - 1] == plan.last());
            }
        }
        assert forall|i: int| 0 <= i < plan.len() && (#[trigger] plan[i]) is Create implies ls.contains(
            SymlinkView {
                item: plan[i]->Create_item,
                path: plan[i]->Create_link_path,
                target: plan[i]->Create_link_target,
            },
        ) by {
            let l = SymlinkView {
                item: plan[i]->Create_item,
                path: plan[i]->Create_link_path,
                target: plan[i]->Create_link_target,
            };
            if i < init.len() {
                assert(init[i] == plan[i]);
                let idx = choose|idx: int| 0 <= idx < li.len() && li[idx] == l;
                assert(ls[idx] == l);
            } else {
                assert(ls[ls.len() - 1] == l);
            }
        }
    }
}

/// Where each of the links points to the text that belongs to its path,
/// creating them puts that text at the paths of the links and leaves every
/// other path as it was.
pub proof fn lemma_apply_links(
    tree: Map<Seq<Seq<char>>, EntryView>,
    links: Seq<SymlinkView>,
    base: Seq<Seq<char>>,
    r: Seq<Seq<char>>,
)
    requires
        forall|k: int|
            0 <= k < links.len() ==> (#[trigger] links[k]).target == link_target_text(
                base,
                links[k].item,
            ),
    ensures
        (exists|k: int| 0 <= k < links.len() && (#[trigger] links[k]).item == r) ==> apply_links_spec(
            tree,
            links,
        )[r] == EntryView::Link(link_target_text(base, r)),
        !(exists|k: int| 0 <= k < links.len() && (#[trigger] links[k]).item == r)
            ==> apply_links_spec(tree, links)[r] == tree[r],
        tree.dom().contains(r) ==> apply_links_spec(tree, links).dom().contains(r),
    decreases links.len(),
{
    if links.len() > 0 {
        let init = links.drop_last();
        lemma_apply_links(tree, init, base, r);
        if links.last().item == r {
            assert(links[links.len() - 1].item == r);
        } else {
            if exists|k: int| 0 <= k < links.len() && (#[trigger] links[k]).item == r {
                let k = choose|k: int| 0 <= k < links.len() && (#[trigger] links[k]).item == r;
                assert(init[k].item == r);
            }
            if exists|k: int| 0 <= k < init.len() && (#[trigger] init[k]).item == r {
                let k = choose|k: int| 0 <= k < init.len() && (#[trigger] init[k]).item == r;
                assert(links[k].item == r);
            }
        }
    }
}

/// What an action becomes once the links of its plan exist: a `Create`
/// turns into a `Skip`, the others stay.
pub open spec fn settle(a: ActionView) -> ActionView {
    match a {
        ActionView::Create { item, link_path, link_target } => ActionView::Skip { item, link_path },
        _ => a,
    }
}

/// The target after the links of `plan` have been created.
pub open spec fn after(target: TargetView, plan: Seq<ActionView>) -> TargetView {
    TargetView { root: target.root, tree: apply_links_spec(target.tree, links_of(plan)) }
}

/// After the links of a faithful plan exist, a path that was free and for
/// which the plan has a `Create` holds the link for it, and a path that was
/// taken holds what it held.
pub proof fn lemma_after_plan(
    whole: Seq<ActionView>,
    target: TargetView,
    base: Seq<Seq<char>>,
    item: Seq<Seq<char>>,
)
    requires
        faithful(whole, target, base),
    ensures
        target.tree[item] is Missing && whole.contains(
            action_for(target.root, base, item, EntryView::Missing),
        ) ==> after(target, whole).tree[item] == EntryView::Link(link_target_text(base, item)),
        !(target.tree[item] is Missing) ==> after(target, whole).tree[item] == target.tree[item],
{
    let links = links_of(whole);
    lemma_links_of(whole);
    assert forall|k: int| 0 <= k < links.len() implies (#[trigger] links[k]).target
        == link_target_text(base, links[k].item) && target.tree[links[k].item] is Missing by {
        let a = ActionView::Create {
            item: links[k].item,
            link_path: links[k].path,
            link_target: links[k].target,
        };
        let idx = choose|idx: int| 0 <= idx < whole.len() && whole[idx] == a;
        assert(whole[idx] == action_for(
            target.root,
            base,
            item_of(whole[idx]),
            target.tree[item_of(whole[idx])],
        ));
    }
    lemma_apply_links(target.tree, links, base, item);
    if target.tree[item] is Missing && whole.contains(
        action_for(target.root, base, item, EntryView::Missing),
    ) {
        let a = action_for(target.root, base, item, EntryView::Missing);
        let idx = choose|idx: int| 0 <= idx < whole.len() && whole[idx] == a;
        assert(whole[idx] is Create);
        let l = SymlinkView {
            item: whole[idx]->Create_item,
            path: whole[idx]->Create_link_path,
            target: whole[idx]->Create_link_target,
        };
        let k = choose|k: int| 0 <= k < links.len() && links[k] == l;
        assert(links[k].item == item);
    }
}

/// Planning again after the links of an accepted plan exist walks the same
/// items and finds each of them settled.
pub proof fn lemma_restow_steps(
    pkg: PackageView,
    target: TargetView,
    base: Seq<Seq<char>>,
    dir: Seq<Seq<char>>,
    i: int,
    whole: Seq<ActionView>,
)
    requires
        accepted(whole),
        faithful(whole, target, base),
        steps_from(pkg, target, base, dir, i) is Some,
        within(steps_from(pkg, target, base, dir, i)->Some_0, whole),
    ensures
        steps_from(pkg, after(target, whole), base, dir, i) == Some(
            steps_from(pkg, target, base, dir, i)->Some_0.map_values(|a: ActionView| settle(a)),
        ),
    decreases pkg.depth - dir.len(), pkg.listing[dir].len() - i,
{
    let t2 = after(target, whole);
    let f = |a: ActionView| settle(a);
    let s = steps_from(pkg, target, base, dir, i)->Some_0;
    if i >= pkg.listing[dir].len() {
        assert(s.map_values(f) =~= Seq::<ActionView>::empty());
    } else {
        let item = dir.push(pkg.listing[dir][i]);
        let found = target.tree[item];
        let act = action_for(target.root, base, item, found);
        let tail = steps_from(pkg, target, base, dir, i + 1)->Some_0;
        lemma_after_plan(whole, target, base, item);
        if found is Directory {
            let sub = steps_from(pkg, target, base, item, 0)->Some_0;
            assert(s =~= (seq![act] + sub) + tail);
            assert(within(sub, whole)) by {
                assert forall|k: int| 0 <= k < sub.len() implies whole.contains(
                    #[trigger] sub[k],
                ) by {
                    assert(s[k + 1] == sub[k]);
                }
            }
            assert(within(tail, whole)) by {
                assert forall|k: int| 0 <= k < tail.len() implies whole.contains(
                    #[trigger] tail[k],
                ) by {
                    assert(s[k + 1 + sub.len()] == tail[k]);
                }
            }
            lemma_restow_steps(pkg, target, base, item, 0, whole);
            lemma_restow_steps(pkg, target, base, dir, i + 1, whole);
            assert(s.map_values(f) =~= (seq![settle(act)] + sub.map_values(f)) + tail.map_values(
                f,
            ));
        } else {
            assert(s =~= seq![act] + tail);
            assert(s[0] == act);
            assert(whole.contains(act));
            let idx = choose|idx: int| 0 <= idx < whole.len() && whole[idx] == act;
            assert(!(whole[idx] is Conflict));
            assert(within(tail, whole)) by {
                assert forall|k: int| 0 <= k < tail.len() implies whole.contains(
                    #[trigger] tail[k],
                ) by {
                    assert(s[k + 1] == tail[k]);
                }
            }
            lemma_restow_steps(pkg, target, base, dir, i + 1, whole);
            assert(s.map_values(f) =~= seq![settle(act)] + tail.map_values(f));
        }
    }
}

/// Installing a package twice in a row creates nothing the second time:
/// once the links of an accepted plan exist, the plan for the same package
/// is the first plan with each `Create` turned into a `Skip`. It holds no
/// `Create` and no `Conflict`, and asks for no link.
pub proof fn lemma_restow_is_settled(pkg: PackageView, target: TargetView)
    requires
        stow_spec(pkg, target) is Some,
    ensures
        plan_spec(pkg, after(target, plan_spec(pkg, target)->Some_0)) == Some(
            plan_spec(pkg, target)->Some_0.map_values(|a: ActionView| settle(a)),
        ),
        forall|k: int|
            0 <= k < plan_spec(pkg, target)->Some_0.len() ==> {
                let again = #[trigger] plan_spec(
                    pkg,
                    after(target, plan_spec(pkg, target)->Some_0),
                )->Some_0[k];
                again is Skip || again is Descend
            },
        stow_spec(pkg, after(target, plan_spec(pkg, target)->Some_0)) == Some(
            Seq::<SymlinkView>::empty(),
        ),
{
    let base = base_of(pkg, target);
    let plan = plan_spec(pkg, target)->Some_0;
    let t2 = after(target, plan);
    lemma_steps_faithful(pkg, target, base, Seq::empty(), 0);
    assert(within(plan, plan)) by {
        assert forall|k: int| 0 <= k < plan.len() implies plan.contains(#[trigger] plan[k]) by {
        }
    }
    lemma_restow_steps(pkg, target, base, Seq::empty(), 0, plan);
    assert(base_of(pkg, t2) == base);
    let again = plan.map_values(|a: ActionView| settle(a));
    assert forall|k: int| 0 <= k < again.len() implies (#[trigger] again[k]) is Skip
        || again[k] is Descend by {
        assert(!(plan[k] is Conflict));
    }
    lemma_no_create_no_links(again);
}

/// A plan without a `Create` asks for no link.
pub proof fn lemma_no_create_no_links(plan: Seq<ActionView>)
    requires
        forall|k: int| 0 <= k < plan.len() ==> !((#[trigger] plan[k]) is Create),
    ensures
        links_of(plan) == Seq::<SymlinkView>::empty(),
    decreases plan.len(),
{
    if plan.len() > 0 {
        let init = plan.drop_last();
        assert forall|k: int| 0 <= k < init.len() implies !((#[trigger] init[k]) is Create) by {
            assert(init[k] == plan[k]);
        }
        lemma_no_create_no_links(init);
        assert(!(plan[plan.len() - 1] is Create));
    }
}

/// The walk comes to `item`: each directory above it in the package can
/// be listed and lists the next component, and in the target a real
/// directory stands at each path strictly between the root and the item.
pub open spec fn reached(pkg: PackageView, target: TargetView, item: Seq<Seq<char>>) -> bool {
    &&& item.len() >= 1
    &&& forall|k: int|
        0 <= k < item.len() ==> pkg.listing.dom().contains(#[trigger] item.take(k))
            && pkg.listing[item.take(k)].contains(item[k])
    &&& forall|k: int| 1 <= k < item.len() ==> target.tree[#[trigger] item.take(k)] is Directory
}

/// The plan for a directory holds the action for each name that it lists,
/// and, where the target has a real directory for the name, the plan for
/// what lies below it.
pub proof fn lemma_child_in_steps(
    pkg: PackageView,
    target: TargetView,
    base: Seq<Seq<char>>,
    dir: Seq<Seq<char>>,
    i: int,
    j: int,
)
    requires
        steps_from(pkg, target, base, dir, i) is Some,
        0 <= i <= j < pkg.listing[dir].len(),
    ensures
        steps_from(pkg, target, base, dir, i)->Some_0.contains(
            action_for(
                target.root,
                base,
                dir.push(pkg.listing[dir][j]),
                target.tree[dir.push(pkg.listing[dir][j])],
            ),
        ),
        target.tree[dir.push(pkg.listing[dir][j])] is Directory ==> steps_from(
            pkg,
            target,
            base,
            dir.push(pkg.listing[dir][j]),
            0,
        ) is Some && within(
            steps_from(pkg, target, base, dir.push(pkg.listing[dir][j]), 0)->Some_0,
            steps_from(pkg, target, base, dir, i)->Some_0,
        ),
    decreases j - i,
{
    let s = steps_from(pkg, target, base, dir, i)->Some_0;
    let item = dir.push(pkg.listing[dir][i]);
    let found = target.tree[item];
    let act = action_for(target.root, base, item, found);
    let tail = steps_from(pkg, target, base, dir, i + 1)->Some_0;
    let sub = if found is Directory {
        steps_from(pkg, target, base, item, 0)->Some_0
    } else {
        Seq::<ActionView>::empty()
    };
    assert(s =~= (seq![act] + sub) + tail);
    if i == j {
        assert(s[0] == act);
        if found is Directory {
            assert forall|k: int| 0 <= k < sub.len() implies s.contains(#[trigger] sub[k]) by {
                assert(s[k + 1] == sub[k]);
            }
        }
    } else {
        lemma_child_in_steps(pkg, target, base, dir, i + 1, j);
        let wanted = dir.push(pkg.listing[dir][j]);
        let a = action_for(target.root, base, wanted, target.tree[wanted]);
        let idx = choose|idx: int| 0 <= idx < tail.len() && tail[idx] == a;
        assert(s[idx + 1 + sub.len()] == a);
        if target.tree[wanted] is Directory {
            let below = steps_from(pkg, target, base, wanted, 0)->Some_0;
            assert forall|k: int| 0 <= k < below.len() implies s.contains(#[trigger] below[k]) by {
                let at = choose|at: int| 0 <= at < tail.len() && tail[at] == below[k];
                assert(s[at + 1 + sub.len()] == below[k]);
            }
        }
    }
}

/// The plan for a package holds the action for each item that the walk
/// comes to, and the plan for what lies below it where the walk goes on.
pub proof fn lemma_reached_in_plan(
    pkg: PackageView,
    target: TargetView,
    base: Seq<Seq<char>>,
    item: Seq<Seq<char>>,
)
    requires
        reached(pkg, target, item),
        steps_from(pkg, target, base, Seq::empty(), 0) is Some,
    ensures
        steps_from(pkg, target, base, Seq::empty(), 0)->Some_0.contains(
            action_for(target.root, base, item, target.tree[item]),
        ),
        target.tree[item] is Directory ==> steps_from(pkg, target, base, item, 0) is Some
            && within(
            steps_from(pkg, target, base, item, 0)->Some_0,
            steps_from(pkg, target, base, Seq::empty(), 0)->Some_0,
        ),
    decreases item.len(),
{
    let plan = steps_from(pkg, target, base, Seq::empty(), 0)->Some_0;
    let parent = item.take(item.len() - 1);
    let last = item[item.len() - 1];
    assert(item =~= parent.push(last));
    assert(pkg.listing[parent].contains(last));
    let j = choose|j: int| 0 <= j < pkg.listing[parent].len() && pkg.listing[parent][j] == last;
    if item.len() == 1 {
        assert(parent =~= Seq::<Seq<char>>::empty());
        lemma_child_in_steps(pkg, target, base, parent, 0, j);
    } else {
        assert(reached(pkg, target, parent)) by {
            assert forall|k: int| 0 <= k < parent.len() implies pkg.listing.dom().contains(
                #[trigger] parent.take(k),
            ) && pkg.listing[parent.take(k)].contains(parent[k]) by {
                assert(parent.take(k) =~= item.take(k));
            }
            assert forall|k: int| 1 <= k < parent.len() implies target.tree[#[trigger] parent.take(
                k,
            )] is Directory by {
                assert(parent.take(k) =~= item.take(k));
            }
        }
        lemma_reached_in_plan(pkg, target, base, parent);
        let above = steps_from(pkg, target, base, parent, 0)->Some_0;
        lemma_child_in_steps(pkg, target, base, parent, 0, j);
        let a = action_for(target.root, base, item, target.tree[item]);
        let idx = choose|idx: int| 0 <= idx < above.len() && above[idx] == a;
        assert(plan.contains(above[idx]));
        if target.tree[item] is Directory {
            let below = steps_from(pkg, target, base, item, 0)->Some_0;
            assert forall|k: int| 0 <= k < below.len() implies plan.contains(#[trigger] below[k]) by {
                let at = choose|at: int| 0 <= at < above.len() && above[at] == below[k];
                assert(plan.contains(above[at]));
            }
        }
    }
}

/// Where something that is neither a directory nor a link stands at the
/// path of an item that the walk comes to, the plan holds a conflict for
/// the item, and the installation of the package is refused as a whole.
pub proof fn lemma_occupied_path_refuses(
    pkg: PackageView,
    target: TargetView,
    item: Seq<Seq<char>>,
)
    requires
        reached(pkg, target, item),
        target.tree[item] is Other,
    ensures
        stow_spec(pkg, target) is None,
        plan_spec(pkg, target) is Some ==> plan_spec(pkg, target)->Some_0.contains(
            ActionView::Conflict {
                item,
                path: link_path_text(target.root, item),
                reason: ConflictReason::Occupied,
            },
        ),
{
    if plan_spec(pkg, target) is Some {
        let plan = plan_spec(pkg, target)->Some_0;
        lemma_reached_in_plan(pkg, target, base_of(pkg, target), item);
        let a = action_for(target.root, base_of(pkg, target), item, target.tree[item]);
        let idx = choose|idx: int| 0 <= idx < plan.len() && plan[idx] == a;
        assert(plan[idx] is Conflict);
    }
}

/// Where a link stands at the path of an item that the walk comes to, and
/// its text is not the one that leads to the item in this package, the
/// plan holds a conflict for the item, and the installation of the package
/// is refused as a whole.
pub proof fn lemma_foreign_link_refuses(
    pkg: PackageView,
    target: TargetView,
    item: Seq<Seq<char>>,
)
    requires
        reached(pkg, target, item),
        target.tree[item] is Link,
        target.tree[item]->Link_0 != link_target_text(base_of(pkg, target), item),
    ensures
        stow_spec(pkg, target) is None,
        plan_spec(pkg, target) is Some ==> plan_spec(pkg, target)->Some_0.contains(
            ActionView::Conflict {
                item,
                path: link_path_text(target.root, item),
                reason: ConflictReason::ForeignLink,
            },
        ),
{
    if plan_spec(pkg, target) is Some {
        let plan = plan_spec(pkg, target)->Some_0;
        lemma_reached_in_plan(pkg, target, base_of(pkg, target), item);
        let a = action_for(target.root, base_of(pkg, target), item, target.tree[item]);
        let idx = choose|idx: int| 0 <= idx < plan.len() && plan[idx] == a;
        assert(plan[idx] is Conflict);
    }
}

/// Where the target has a real directory in the place of a name that a
/// directory of the package lists, the plan descends into it: a `Descend`
/// for the name, then at once the plan for what lies below it, and only
/// then the plan for the names that follow. No link takes the directory's place.
pub proof fn lemma_directory_is_folded(
    pkg: PackageView,
    target: TargetView,
    base: Seq<Seq<char>>,
    dir: Seq<Seq<char>>,
    i: int,
)
    requires
        steps_from(pkg, target, base, dir, i) is Some,
        0 <= i < pkg.listing[dir].len(),
        target.tree[dir.push(pkg.listing[dir][i])] is Directory,
    ensures
        steps_from(pkg, target, base, dir.push(pkg.listing[dir][i]), 0) is Some,
        steps_from(pkg, target, base, dir, i + 1) is Some,
        steps_from(pkg, target, base, dir, i)->Some_0 == seq![
            ActionView::Descend {
                item: dir.push(pkg.listing[dir][i]),
                dir_path: link_path_text(target.root, dir.push(pkg.listing[dir][i])),
            },
        ] + steps_from(pkg, target, base, dir.push(pkg.listing[dir][i]), 0)->Some_0 + steps_from(
            pkg,
            target,
            base,
            dir,
            i + 1,
        )->Some_0,
{
}

/// Each component of the path is a name that a directory can list.
pub open spec fn valid_path(item: Seq<Seq<char>>) -> bool {
    forall|k: int| 0 <= k < item.len() ==> valid_name(#[trigger] item[k])
}

/// Joined components begin as the first of them begins.
pub proof fn lemma_join_first(cs: Seq<Seq<char>>)
    requires
        cs.len() >= 1,
        cs[0].len() >= 1,
    ensures
        join(cs).len() >= 1,
        join(cs)[0] == cs[0][0],
    decreases cs.len(),
{
    if cs.len() >= 2 {
        lemma_join_first(cs.drop_last());
        assert(cs.drop_last()[0] == cs[0]);
    }
}

/// The link that a plan creates for an item leads to the item in the
/// package: read from the directory that contains the link, its text ends
/// at the package's root followed by the item, so the package owns it.
pub proof fn lemma_created_link_is_owned(
    pkg: PackageView,
    target: TargetView,
    item: Seq<Seq<char>>,
)
    requires
        pkg.wf(),
        target.wf(),
        item.len() >= 1,
        valid_path(item),
    ensures
        owned_spec(
            components(target.root) + parent_components(item),
            EntryView::Link(link_target_text(base_of(pkg, target), item)),
            resolve(components(pkg.root)),
        ),
{
    let pc = components(pkg.root);
    let tc = components(target.root);
    lemma_mismatch_bounds(pc, tc, 0);
    let k = common_prefix_len(pc, tc);
    let base = base_of(pkg, target);
    let d = item.len() - 1;
    let dir = item.drop_last();
    let parts = link_target_components(base, item);
    let text = join(parts);
    let n = d + (tc.len() - k);
    lemma_ups(d, tc.len() - k);
    lemma_ups(0, n);
    lemma_components_proper(pkg.root, 0);
    assert(parts =~= ups(n) + (pc.skip(k) + item));
    assert(all_proper(parts)) by {
        assert forall|i: int| 0 <= i < parts.len() implies proper(#[trigger] parts[i]) by {
            if i < n {
                assert(parts[i] == ups(n)[i]);
            } else if i < n + (pc.len() - k) {
                assert(parts[i] == pc[i - n + k]);
            } else {
                assert(parts[i] == item[i - n - (pc.len() - k)]);
                assert(valid_name(item[i - n - (pc.len() - k)]));
            }
        }
    }
    lemma_components_join(parts);
    lemma_join_first(parts);
    assert(!is_absolute_spec(text));
    let x = tc + dir;
    assert(clean(x)) by {
        assert forall|i: int| 0 <= i < x.len() implies #[trigger] x[i] != parent_dir() by {
            if i >= tc.len() {
                assert(x[i] == item[i - tc.len()]);
                assert(valid_name(item[i - tc.len()]));
            }
        }
    }
    let rest = pc.skip(k) + item;
    assert(x + parts =~= (x + ups(n)) + rest);
    lemma_resolve_ups(x, n);
    lemma_resolve_append(x + ups(n), rest);
    assert(x.take(x.len() - n) =~= pc.take(k));
    assert(pc.take(k) + rest =~= pc + item);
    lemma_resolve_append(pc.take(k), rest);
    assert(clean(pc.take(k))) by {
        assert forall|i: int| 0 <= i < k implies #[trigger] pc.take(k)[i] != parent_dir() by {
            assert(pc.take(k)[i] == pc[i]);
        }
    }
    lemma_resolve_clean(pc.take(k));
    assert(clean(pc + item)) by {
        assert forall|i: int| 0 <= i < (pc + item).len() implies #[trigger] (pc + item)[i]
            != parent_dir() by {
            if i >= pc.len() {
                assert((pc + item)[i] == item[i - pc.len()]);
                assert(valid_name(item[i - pc.len()]));
            }
        }
    }
    lemma_resolve_clean(pc + item);
    lemma_resolve_clean(pc);
    assert((pc + item).take(pc.len() as int) =~= pc);
}

/// An item that the walk comes to in a well-formed package has a valid path.
pub proof fn lemma_reached_is_valid(pkg: PackageView, target: TargetView, item: Seq<Seq<char>>)
    requires
        pkg.wf(),
        reached(pkg, target, item),
    ensures
        valid_path(item),
{
    assert forall|k: int| 0 <= k < item.len() implies valid_name(#[trigger] item[k]) by {
        let d = item.take(k);
        assert(pkg.listing.dom().contains(d));
        assert(pkg.listing[d].contains(item[k]));
        let j = choose|j: int| 0 <= j < pkg.listing[d].len() && pkg.listing[d][j] == item[k];
        assert(valid_name(pkg.listing[d][j]));
    }
}

/// Where a link that the package does not own stands at the path of an
/// item that the walk comes to, the installation of the package is refused
/// as a whole.
pub proof fn lemma_unowned_link_refuses(pkg: PackageView, target: TargetView, item: Seq<Seq<char>>)
    requires
        pkg.wf(),
        target.wf(),
        reached(pkg, target, item),
        target.tree[item] is Link,
        !owned_spec(
            components(target.root) + parent_components(item),
            target.tree[item],
            resolve(components(pkg.root)),
        ),
    ensures
        stow_spec(pkg, target) is None,
        plan_spec(pkg, target) is Some ==> plan_spec(pkg, target)->Some_0.contains(
            ActionView::Conflict {
                item,
                path: link_path_text(target.root, item),
                reason: ConflictReason::ForeignLink,
            },
        ),
{
    lemma_reached_is_valid(pkg, target, item);
    lemma_created_link_is_owned(pkg, target, item);
    lemma_foreign_link_refuses(pkg, target, item);
}

/// Removing links empties their paths and leaves every other path as it was.
pub proof fn lemma_remove_links(
    tree: Map<Seq<Seq<char>>, EntryView>,
    links: Seq<SymlinkView>,
    r: Seq<Seq<char>>,
)
    ensures
        (exists|k: int| 0 <= k < links.len() && (#[trigger] links[k]).item == r)
            ==> remove_links_spec(tree, links)[r] == EntryView::Missing,
        !(exists|k: int| 0 <= k < links.len() && (#[trigger] links[k]).item == r)
            ==> remove_links_spec(tree, links)[r] == tree[r],
        tree.dom().contains(r) ==> remove_links_spec(tree, links).dom().contains(r),
    decreases links.len(),
{
    if links.len() > 0 {
        let init = links.drop_last();
        lemma_remove_links(tree, init, r);
        if links.last().item == r {
            assert(links[links.len() - 1].item == r);
        } else {
            if exists|k: int| 0 <= k < links.len() && (#[trigger] links[k]).item == r {
                let k = choose|k: int| 0 <= k < links.len() && (#[trigger] links[k]).item == r;
                assert(init[k].item == r);
            }
            if exists|k: int| 0 <= k < init.len() && (#[trigger] init[k]).item == r {
                let k = choose|k: int| 0 <= k < init.len() && (#[trigger] init[k]).item == r;
                assert(links[k].item == r);
            }
        }
    }
}

/// What is found, after the links of a plan exist, in the place of the
/// item of an action: the link of a `Create`, and otherwise something that
/// the package does not own.
pub open spec fn mirror(a: ActionView) -> InstalledView {
    match a {
        ActionView::Create { item, link_path, link_target } => InstalledView::Item(
            SymlinkView { item, path: link_path, target: link_target },
        ),
        ActionView::Skip { item, link_path } => InstalledView::NotOwned(link_path),
        ActionView::Descend { item, dir_path } => InstalledView::NotOwned(dir_path),
        ActionView::Conflict { item, path, reason } => InstalledView::NotOwned(path),
    }
}

/// Every action of the plan is a `Create` or a `Descend`: the plan is
/// accepted, and no link of the package was there before.
pub open spec fn fresh(plan: Seq<ActionView>) -> bool {
    forall|k: int| 0 <= k < plan.len() ==> (#[trigger] plan[k]) is Create || plan[k] is Descend
}

/// After the links of a fresh plan exist, the walk for the removal finds,
/// item by item, what the plan made of it.
pub proof fn lemma_unstow_steps(
    pkg: PackageView,
    target: TargetView,
    dir: Seq<Seq<char>>,
    i: int,
    whole: Seq<ActionView>,
)
    requires
        pkg.wf(),
        target.wf(),
        valid_path(dir),
        fresh(whole),
        faithful(whole, target, base_of(pkg, target)),
        steps_from(pkg, target, base_of(pkg, target), dir, i) is Some,
        within(steps_from(pkg, target, base_of(pkg, target), dir, i)->Some_0, whole),
    ensures
        installed_from(pkg, after(target, whole), dir, i) == Some(
            steps_from(pkg, target, base_of(pkg, target), dir, i)->Some_0.map_values(
                |a: ActionView| mirror(a),
            ),
        ),
    decreases pkg.depth - dir.len(), pkg.listing[dir].len() - i,
{
    let base = base_of(pkg, target);
    let t2 = after(target, whole);
    let f = |a: ActionView| mirror(a);
    let s = steps_from(pkg, target, base, dir, i)->Some_0;
    if i >= pkg.listing[dir].len() {
        assert(s.map_values(f) =~= Seq::<InstalledView>::empty());
    } else {
        let item = dir.push(pkg.listing[dir][i]);
        let found = target.tree[item];
        let act = action_for(target.root, base, item, found);
        let tail = steps_from(pkg, target, base, dir, i + 1)->Some_0;
        assert(valid_path(item)) by {
            assert(valid_name(pkg.listing[dir][i]));
            assert forall|k: int| 0 <= k < item.len() implies valid_name(#[trigger] item[k]) by {
                if k < dir.len() {
                    assert(item[k] == dir[k]);
                }
            }
        }
        assert(parent_components(item) =~= dir);
        lemma_after_plan(whole, target, base, item);
        lemma_created_link_is_owned(pkg, target, item);
        let here = installed_for(t2.root, resolve(components(pkg.root)), item, t2.tree[item]);
        if found is Directory {
            let sub = steps_from(pkg, target, base, item, 0)->Some_0;
            assert(s =~= (seq![act] + sub) + tail);
            assert(within(sub, whole)) by {
                assert forall|k: int| 0 <= k < sub.len() implies whole.contains(
                    #[trigger] sub[k],
                ) by {
                    assert(s[k + 1] == sub[k]);
                }
            }
            assert(within(tail, whole)) by {
                assert forall|k: int| 0 <= k < tail.len() implies whole.contains(
                    #[trigger] tail[k],
                ) by {
                    assert(s[k + 1 + sub.len()] == tail[k]);
                }
            }
            lemma_unstow_steps(pkg, target, item, 0, whole);
            lemma_unstow_steps(pkg, target, dir, i + 1, whole);
            assert(here =~= seq![mirror(act)]);
            assert(s.map_values(f) =~= (seq![mirror(act)] + sub.map_values(f)) + tail.map_values(
                f,
            ));
        } else {
            assert(s =~= seq![act] + tail);
            assert(s[0] == act);
            assert(whole.contains(act));
            let idx = choose|idx: int| 0 <= idx < whole.len() && whole[idx] == act;
            assert(whole[idx] is Create || whole[idx] is Descend);
            assert(found is Missing);
            assert(within(tail, whole)) by {
                assert forall|k: int| 0 <= k < tail.len() implies whole.contains(
                    #[trigger] tail[k],
                ) by {
                    assert(s[k + 1] == tail[k]);
                }
            }
            lemma_unstow_steps(pkg, target, dir, i + 1, whole);
            assert(here =~= seq![mirror(act)]);
            assert(s.map_values(f) =~= seq![mirror(act)] + tail.map_values(f));
        }
    }
}

/// The links among what mirrors a plan are the links that the plan asks for.
pub proof fn lemma_removals_mirror(plan: Seq<ActionView>)
    ensures
        removals_of(plan.map_values(|a: ActionView| mirror(a))) == links_of(plan),
    decreases plan.len(),
{
    let f = |a: ActionView| mirror(a);
    if plan.len() > 0 {
        lemma_removals_mirror(plan.drop_last());
        assert(plan.map_values(f).drop_last() =~= plan.drop_last().map_values(f));
        assert(plan.map_values(f).last() == mirror(plan.last()));
    } else {
        assert(plan.map_values(f) =~= Seq::<InstalledView>::empty());
    }
}

/// Removing a package right after installing it removes every link that
/// the installation created and leaves the target as it was before. The
/// plan of the installation is fresh: it is accepted, and no link of the
/// package stood in the target before.
pub proof fn lemma_unstow_undoes_stow(pkg: PackageView, target: TargetView)
    requires
        pkg.wf(),
        target.wf(),
        plan_spec(pkg, target) is Some,
        fresh(plan_spec(pkg, target)->Some_0),
    ensures
        stow_spec(pkg, target) == Some(links_of(plan_spec(pkg, target)->Some_0)),
        unstow_spec(pkg, after(target, plan_spec(pkg, target)->Some_0)) == Some(
            links_of(plan_spec(pkg, target)->Some_0),
        ),
        remove_links_spec(
            after(target, plan_spec(pkg, target)->Some_0).tree,
            links_of(plan_spec(pkg, target)->Some_0),
        ) == target.tree,
{
    let base = base_of(pkg, target);
    let plan = plan_spec(pkg, target)->Some_0;
    let t2 = after(target, plan);
    let links = links_of(plan);
    assert(accepted(plan));
    lemma_steps_faithful(pkg, target, base, Seq::empty(), 0);
    assert(within(plan, plan)) by {
        assert forall|k: int| 0 <= k < plan.len() implies plan.contains(#[trigger] plan[k]) by {
        }
    }
    lemma_unstow_steps(pkg, target, Seq::empty(), 0, plan);
    lemma_removals_mirror(plan);
    lemma_links_of(plan);
    assert forall|k: int| 0 <= k < links.len() implies (#[trigger] links[k]).target
        == link_target_text(base, links[k].item) && target.tree[links[k].item] is Missing by {
        let a = ActionView::Create {
            item: links[k].item,
            link_path: links[k].path,
            link_target: links[k].target,
        };
        let idx = choose|idx: int| 0 <= idx < plan.len() && plan[idx] == a;
        assert(plan[idx] == action_for(
            target.root,
            base,
            item_of(plan[idx]),
            target.tree[item_of(plan[idx])],
        ));
    }
    let back = remove_links_spec(t2.tree, links);
    assert forall|r: Seq<Seq<char>>| #[trigger] back.dom().contains(r) by {
        lemma_apply_links(target.tree, links, base, r);
        lemma_remove_links(t2.tree, links, r);
        assert(target.tree.dom().contains(r));
    }
    assert forall|r: Seq<Seq<char>>| #[trigger] back[r] == target.tree[r] by {
        lemma_apply_links(target.tree, links, base, r);
        lemma_remove_links(t2.tree, links, r);
        if exists|k: int| 0 <= k < links.len() && (#[trigger] links[k]).item == r {
            let k = choose|k: int| 0 <= k < links.len() && (#[trigger] links[k]).item == r;
            assert(target.tree[links[k].item] is Missing);
        }
    }
    assert(back =~= target.tree);
}

/// The walk for the removal judges a link as the ownership test judges
/// it at the link's path: for an item with a valid path in a target at an
/// absolute path, both ask whether the link, read from the directory that
/// contains it, leads into the package.
pub proof fn lemma_walk_agrees_with_ownership(
    pkg: PackageView,
    target: TargetView,
    item: Seq<Seq<char>>,
    found: EntryView,
)
    requires
        is_absolute_spec(pkg.root),
        is_absolute_spec(target.root),
        item.len() >= 1,
        valid_path(item),
    ensures
        owned_link_spec(link_path_text(target.root, item), found, pkg.root) == owned_spec(
            components(target.root) + parent_components(item),
            found,
            resolve(components(pkg.root)),
        ),
{
    assert(all_proper(item)) by {
        assert forall|i: int| 0 <= i < item.len() implies proper(#[trigger] item[i]) by {
            assert(valid_name(item[i]));
        }
    }
    lemma_components_join(item);
    lemma_components_path_join(target.root, join(item));
    let tc = components(target.root);
    assert((tc + item).drop_last() =~= tc + item.drop_last());
    assert(link_path_text(target.root, item)[0] == '/');
}

/// The link for an item at the top of the package holds the relative path
/// from the target to the package with the item's name appended.
pub proof fn lemma_top_level_link_target(pkg: PackageView, target: TargetView, name: Seq<char>)
    ensures
        link_target_text(base_of(pkg, target), seq![name]) == path_join(
            relative_path_spec(pkg.root, target.root),
            name,
        ),
{
    let pc = components(pkg.root);
    let tc = components(target.root);
    let base = base_of(pkg, target);
    lemma_mismatch_bounds(pc, tc, 0);
    let k = common_prefix_len(pc, tc);
    lemma_components_proper(pkg.root, 0);
    lemma_ups(0, tc.len() - k);
    let parts = link_target_components(base, seq![name]);
    assert(ups(0) + base =~= base);
    assert(parts =~= base.push(name));
    if base.len() > 0 {
        assert(parts.drop_last() =~= base);
        let last = base[base.len() - 1];
        assert(proper(last)) by {
            if base.len() - 1 < tc.len() - k {
                assert(last == ups(tc.len() - k)[base.len() - 1]);
            } else {
                assert(last == pc[base.len() - 1 - (tc.len() - k) + k]);
            }
        }
        if base.len() == 1 {
            assert(join(base) == last);
        } else {
            assert(join(base) == join(base.drop_last()) + seq!['/'] + last);
        }
        assert(join(base).last() == last[last.len() - 1]);
    }
}

/// Two lists that agree below `k`, and at `k` differ or end, share exactly `k` components.
pub proof fn lemma_common_prefix_is(a: Seq<Seq<char>>, b: Seq<Seq<char>>, k: int)
    requires
        0 <= k <= a.len(),
        k <= b.len(),
        forall|j: int| 0 <= j < k ==> a[j] == b[j],
        k == a.len() || k == b.len() || a[k] != b[k],
    ensures
        common_prefix_len(a, b) == k,
{
    lemma_mismatch_bounds(a, b, 0);
    let m = mismatch_from(a, b, 0);
    if m < k {
        assert(a[m] == b[m]);
    } else if m > k {
        assert(a[k] == b[k]);
    }
}

/// The text of a link is the relative path from the directory that
/// contains the link to the item in the package, computed from the two
/// absolute paths. This holds where the package does not lie above the
/// target, and where, if the target lies above the package, the first
/// component of the item differs from the component of the package's path
/// that follows the target's path.
pub proof fn lemma_link_target_is_relative_path(
    pkg: PackageView,
    target: TargetView,
    item: Seq<Seq<char>>,
)
    requires
        item.len() >= 1,
        valid_path(item),
        common_prefix_len(components(pkg.root), components(target.root)) < components(
            pkg.root,
        ).len(),
        common_prefix_len(components(pkg.root), components(target.root)) < components(
            target.root,
        ).len() || item.len() == 1 || components(pkg.root)[common_prefix_len(
            components(pkg.root),
            components(target.root),
        )] != item[0],
    ensures
        link_target_text(base_of(pkg, target), item) == relative_path_spec(
            link_path_text(pkg.root, item),
            link_path_text(target.root, item.drop_last()),
        ),
{
    let pc = components(pkg.root);
    let tc = components(target.root);
    let dir = item.drop_last();
    let d = dir.len();
    lemma_mismatch_bounds(pc, tc, 0);
    let k = common_prefix_len(pc, tc);
    assert(all_proper(item)) by {
        assert forall|i: int| 0 <= i < item.len() implies proper(#[trigger] item[i]) by {
            assert(valid_name(item[i]));
        }
    }
    assert(all_proper(dir)) by {
        assert forall|i: int| 0 <= i < dir.len() implies proper(#[trigger] dir[i]) by {
            assert(dir[i] == item[i]);
        }
    }
    lemma_components_join(item);
    lemma_components_join(dir);
    lemma_components_path_join(pkg.root, join(item));
    lemma_components_path_join(target.root, join(dir));
    let a = pc + item;
    let b = tc + dir;
    assert forall|j: int| 0 <= j < k implies a[j] == b[j] by {
        assert(a[j] == pc[j]);
        assert(b[j] == tc[j]);
    }
    assert(a[k] == pc[k]);
    if k < tc.len() {
        assert(b[k] == tc[k]);
    } else if d > 0 {
        assert(b[k] == dir[0]);
        assert(dir[0] == item[0]);
    }
    lemma_common_prefix_is(a, b, k);
    lemma_ups(d as int, tc.len() - k);
    assert(a.skip(k) =~= pc.skip(k) + item);
    assert(link_target_components(base_of(pkg, target), item) =~= relative_components(a, b));
}

} // verus!
