use symfarm::commands::stow::{link_target_of, make_action, ConflictReason, LinkAction};
use symfarm::fs::{
    concat_names, copy_names, has_prefix, is_absolute, is_parent_dir, join_components, join_path,
    normalize_path, path_components, relative_of, relative_path, resolve_components, same_names,
    BasePath, TargetPath,
};
use symfarm::memory::{copy_entry, is_listing_ok, is_valid_name, PackageImpl};
use symfarm::order::{comes_before, sort_names};
use symfarm::error::Error;
use symfarm::fs::require_absolute;
use symfarm::tree::Entry;

fn v(parts: &[&str]) -> Vec<String> {
    parts.iter().map(|s| s.to_string()).collect()
}

#[test]
fn components_drop_empty_and_dot_segments() {
    assert_eq!(path_components("/a//b/./c/"), v(&["a", "b", "c"]));
    assert_eq!(path_components("a/../b"), v(&["a", "..", "b"]));
    assert_eq!(path_components("/"), v(&[]));
    assert_eq!(path_components(""), v(&[]));
    assert_eq!(path_components("./.x/..y"), v(&[".x", "..y"]));
}

#[test]
fn joining_puts_one_separator_between_components() {
    assert_eq!(join_components(&v(&[])), "");
    assert_eq!(join_components(&v(&["a"])), "a");
    assert_eq!(join_components(&v(&["..", "a", "b"])), "../a/b");
    assert_eq!(join_path("/a", "b/c"), "/a/b/c");
    assert_eq!(join_path("/", "b"), "/b");
    assert_eq!(join_path("", "b"), "b");
    assert_eq!(join_path("/a/", "b"), "/a/b");
}

#[test]
fn splitting_undoes_joining() {
    let parts = v(&["..", "..", "pkgs", "vim", ".vimrc"]);
    assert_eq!(path_components(&join_components(&parts)), parts);
}

#[test]
fn absolute_paths_start_at_the_root() {
    assert!(is_absolute("/"));
    assert!(is_absolute("/a"));
    assert!(!is_absolute(""));
    assert!(!is_absolute("a/b"));
    assert!(!is_absolute("./a"));
}

#[test]
fn parent_directory_component_is_recognised() {
    assert!(is_parent_dir(".."));
    assert!(!is_parent_dir("."));
    assert!(!is_parent_dir("..."));
    assert!(!is_parent_dir("a."));
}

#[test]
fn resolution_never_leaves_the_root() {
    assert_eq!(resolve_components(&v(&["..", "..", "a"])), v(&["a"]));
    assert_eq!(resolve_components(&v(&["a", "b", "..", "c"])), v(&["a", "c"]));
    assert_eq!(resolve_components(&v(&["a", ".."])), v(&[]));
}

#[test]
fn relative_components_go_up_then_down() {
    assert_eq!(relative_of(&v(&["a", "b", "c"]), &v(&["a", "x"])), v(&["..", "b", "c"]));
    assert_eq!(relative_of(&v(&["a"]), &v(&["a"])), v(&[]));
    assert_eq!(relative_of(&v(&[]), &v(&["a", "b"])), v(&["..", ".."]));
}

#[test]
fn relative_path_leads_back_to_the_target() {
    let cases = [
        ("/home/user/project/src", "/home/user/docs"),
        ("/a/b/c", "/x/y/z"),
        ("/a/b", "/a/b/c/d"),
        ("/a/b/c/d", "/a/b"),
        ("/same/path", "/same/path"),
        ("/a/../b/c", "/b/d"),
        ("/", "/a"),
    ];
    for (target, base) in cases {
        let rel = relative_path(TargetPath(target), BasePath(base)).unwrap();
        assert_eq!(normalize_path(&join_path(base, &rel)), normalize_path(target));
    }
}

#[test]
fn normalizing_twice_changes_nothing() {
    for p in ["/abc/def/../../../../qwe", "/a/./b//c/..", "/", "a/../../b", ""] {
        let once = normalize_path(p);
        assert_eq!(normalize_path(&once), once);
    }
}

#[test]
fn name_lists_compare_by_content() {
    assert!(same_names(&v(&["a", "b"]), &v(&["a", "b"])));
    assert!(!same_names(&v(&["a", "b"]), &v(&["a"])));
    assert!(!same_names(&v(&["a", "b"]), &v(&["a", "c"])));
    assert!(same_names(&v(&[]), &v(&[])));
    assert!(has_prefix(&v(&["a"]), &v(&["a", "b"])));
    assert!(has_prefix(&v(&[]), &v(&["a"])));
    assert!(has_prefix(&v(&["a", "b"]), &v(&["a", "b"])));
    assert!(!has_prefix(&v(&["a", "b"]), &v(&["a"])));
    assert!(!has_prefix(&v(&["b"]), &v(&["a", "b"])));
    assert_eq!(copy_names(&v(&["a", "b"])), v(&["a", "b"]));
    assert_eq!(concat_names(&v(&["a"]), &v(&["b", "c"])), v(&["a", "b", "c"]));
}

#[test]
fn valid_names_are_single_components() {
    assert!(is_valid_name("a"));
    assert!(is_valid_name(".vimrc"));
    assert!(is_valid_name("..."));
    assert!(!is_valid_name(""));
    assert!(!is_valid_name("."));
    assert!(!is_valid_name(".."));
    assert!(!is_valid_name("a/b"));
    assert!(!is_valid_name("/"));
    assert!(is_listing_ok(&v(&["a", "b", "c"])));
    assert!(is_listing_ok(&v(&[])));
    assert!(!is_listing_ok(&v(&["a", "b", "a"])));
    assert!(!is_listing_ok(&v(&["a", ".."])));
}

#[test]
fn link_text_climbs_out_of_each_folded_directory() {
    let base = v(&["..", "..", "pkgs", "vim"]);
    assert_eq!(link_target_of(&base, &v(&["x"])), "../../pkgs/vim/x");
    assert_eq!(link_target_of(&base, &v(&["d", "x"])), "../../../pkgs/vim/d/x");
    assert_eq!(link_target_of(&base, &v(&["d", "e", "x"])), "../../../../pkgs/vim/d/e/x");
    assert_eq!(link_target_of(&v(&[]), &v(&["x"])), "x");
}

#[test]
fn each_state_of_a_path_has_its_action() {
    let base = v(&["..", "p"]);
    match make_action("/t", &base, v(&["x"]), &Entry::Missing) {
        LinkAction::Create { link_path, link_target, .. } => {
            assert_eq!(link_path, "/t/x");
            assert_eq!(link_target, "../p/x");
        }
        other => panic!("unexpected action {:?}", other),
    }
    assert!(matches!(
        make_action("/t", &base, v(&["x"]), &Entry::Link("../p/x".to_string())),
        LinkAction::Skip { .. }
    ));
    assert!(matches!(
        make_action("/t", &base, v(&["x"]), &Entry::Link("/p/x".to_string())),
        LinkAction::Conflict { reason: ConflictReason::ForeignLink, .. }
    ));
    assert!(matches!(
        make_action("/t", &base, v(&["x"]), &Entry::Directory),
        LinkAction::Descend { .. }
    ));
    assert!(matches!(
        make_action("/t", &base, v(&["x"]), &Entry::Other),
        LinkAction::Conflict { reason: ConflictReason::Occupied, .. }
    ));
}

#[test]
fn entries_can_be_copied() {
    assert!(matches!(copy_entry(&Entry::Missing), Entry::Missing));
    assert!(matches!(copy_entry(&Entry::Directory), Entry::Directory));
    assert!(matches!(copy_entry(&Entry::Other), Entry::Other));
    assert!(matches!(copy_entry(&Entry::Unreadable), Entry::Unreadable));
    match copy_entry(&Entry::Link("a/b".to_string())) {
        Entry::Link(t) => assert_eq!(t, "a/b"),
        _ => panic!("expected a link"),
    }
}

#[test]
fn names_are_sorted_by_their_characters() {
    assert_eq!(sort_names(v(&["b", "a", "c"])), v(&["a", "b", "c"]));
    assert_eq!(sort_names(v(&["b", "B", "a", "ab", "", "a"])), v(&["", "B", "a", "a", "ab", "b"]));
    assert_eq!(sort_names(v(&[".vimrc", "sub", ".config"])), v(&[".config", ".vimrc", "sub"]));
    assert_eq!(sort_names(v(&[])), v(&[]));
    let mut expected = v(&["zeta", "\u{e9}t\u{e9}", "eta", "Eta", "e"]);
    let sorted = sort_names(expected.clone());
    expected.sort();
    assert_eq!(sorted, expected);
}

#[test]
fn order_is_lexicographic() {
    assert!(comes_before("", "a"));
    assert!(comes_before("a", "a"));
    assert!(comes_before("a", "ab"));
    assert!(comes_before("ab", "b"));
    assert!(!comes_before("b", "ab"));
    assert!(!comes_before("ab", "a"));
    assert!(comes_before("Z", "a"));
}

#[test]
fn relative_paths_are_refused_where_absolute_ones_are_required() {
    assert!(require_absolute("/a").is_ok());
    assert!(matches!(require_absolute("a"), Err(Error::PathNotAbsolute)));
    assert!(matches!(require_absolute(""), Err(Error::PathNotAbsolute)));
}

#[test]
fn package_is_looked_for_below_the_package_directory() {
    assert_eq!(PackageImpl::location("/pkgs", "vim").unwrap(), "/pkgs/vim");
    assert_eq!(PackageImpl::location("/", "vim").unwrap(), "/vim");
    assert!(matches!(PackageImpl::location("pkgs", "vim"), Err(Error::PathNotAbsolute)));
}
