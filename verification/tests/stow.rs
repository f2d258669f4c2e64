use symfarm::cli::StowArgs;
use symfarm::commands::stow::{
    check_plan, do_stow, plan_stow, report_line, run, stow_package, ConflictReason, LinkAction,
};
use symfarm::error::Error;
use symfarm::fs::{relative_path, BasePath, TargetPath};
use symfarm::memory::{PackageImpl, TargetImpl};
use symfarm::tree::{Entry, Package, Target};

fn v(parts: &[&str]) -> Vec<String> {
    parts.iter().map(|s| s.to_string()).collect()
}

fn vim() -> PackageImpl {
    let mut p = PackageImpl::new("/pkgs", "vim", Some("/pkgs/vim")).unwrap();
    assert!(p.set_listing(v(&[]), v(&[".vimrc", "sub"])));
    assert!(p.set_listing(v(&["sub"]), v(&["file"])));
    p
}

fn home() -> TargetImpl {
    TargetImpl::new("/home/u", Some("/home/u")).unwrap()
}

fn args(simulate: bool) -> StowArgs {
    StowArgs {
        package_dir: None,
        target_dir: None,
        packages: v(&["vim"]),
        verbose: false,
        simulate,
    }
}

#[test]
fn empty_target_gets_one_link_per_top_level_item() {
    let plan = plan_stow(&vim(), &home()).unwrap();
    assert_eq!(plan.len(), 2);
    match &plan[0] {
        LinkAction::Create { item, link_path, link_target } => {
            assert_eq!(item, &v(&[".vimrc"]));
            assert_eq!(link_path, "/home/u/.vimrc");
            assert_eq!(link_target, "../../pkgs/vim/.vimrc");
        }
        other => panic!("unexpected action {:?}", other),
    }
    match &plan[1] {
        LinkAction::Create { item, link_path, link_target } => {
            assert_eq!(item, &v(&["sub"]));
            assert_eq!(link_path, "/home/u/sub");
            assert_eq!(link_target, "../../pkgs/vim/sub");
        }
        other => panic!("unexpected action {:?}", other),
    }
}

#[test]
fn existing_directory_is_folded() {
    let mut t = home();
    t.set_entry(v(&["sub"]), Entry::Directory);
    let plan = plan_stow(&vim(), &t).unwrap();
    assert_eq!(plan.len(), 3);
    assert!(matches!(&plan[0], LinkAction::Create { .. }));
    match &plan[1] {
        LinkAction::Descend { item, dir_path } => {
            assert_eq!(item, &v(&["sub"]));
            assert_eq!(dir_path, "/home/u/sub");
        }
        other => panic!("unexpected action {:?}", other),
    }
    match &plan[2] {
        LinkAction::Create { item, link_path, link_target } => {
            assert_eq!(item, &v(&["sub", "file"]));
            assert_eq!(link_path, "/home/u/sub/file");
            assert_eq!(link_target, "../../../pkgs/vim/sub/file");
        }
        other => panic!("unexpected action {:?}", other),
    }
}

#[test]
fn plain_file_in_the_way_is_a_conflict() {
    let mut t = home();
    t.set_entry(v(&[".vimrc"]), Entry::Other);
    let plan = plan_stow(&vim(), &t).unwrap();
    assert_eq!(plan.len(), 2);
    match &plan[0] {
        LinkAction::Conflict { path, reason, .. } => {
            assert_eq!(path, "/home/u/.vimrc");
            assert_eq!(*reason, ConflictReason::Occupied);
        }
        other => panic!("unexpected action {:?}", other),
    }
    assert!(matches!(&plan[1], LinkAction::Create { .. }));
    match do_stow(&vim(), &t) {
        Err(Error::LinkPathExists(p)) => assert_eq!(p, "/home/u/.vimrc"),
        other => panic!("unexpected result {:?}", other.map(|l| l.len())),
    }
    let mut report = Vec::new();
    let r = stow_package(&vim(), &mut t, false, &mut report);
    assert!(matches!(r, Err(Error::LinkPathExists(_))));
    assert!(report.is_empty());
    assert!(matches!(t.entry(&v(&["sub"])), Ok(Entry::Missing)));
    assert!(matches!(t.entry(&v(&[".vimrc"])), Ok(Entry::Other)));
}

#[test]
fn foreign_link_rejects_the_whole_package() {
    let mut t = home();
    t.set_entry(v(&["sub"]), Entry::Link("/somewhere/else".to_string()));
    let plan = plan_stow(&vim(), &t).unwrap();
    match &plan[1] {
        LinkAction::Conflict { path, reason, .. } => {
            assert_eq!(path, "/home/u/sub");
            assert_eq!(*reason, ConflictReason::ForeignLink);
        }
        other => panic!("unexpected action {:?}", other),
    }
    match check_plan(&plan, "vim") {
        Err(Error::LinkNotOwnedByPackage(p, n)) => {
            assert_eq!(p, "/home/u/sub");
            assert_eq!(n, "vim");
        }
        other => panic!("unexpected result {:?}", other.map(|l| l.len())),
    }
    let mut report = Vec::new();
    let r = stow_package(&vim(), &mut t, false, &mut report);
    assert!(matches!(r, Err(Error::LinkNotOwnedByPackage(_, _))));
    assert!(matches!(t.entry(&v(&[".vimrc"])), Ok(Entry::Missing)));
}

#[test]
fn all_conflicts_are_listed_and_the_first_is_the_error() {
    let mut t = home();
    t.set_entry(v(&[".vimrc"]), Entry::Link("elsewhere".to_string()));
    t.set_entry(v(&["sub"]), Entry::Other);
    let plan = plan_stow(&vim(), &t).unwrap();
    assert!(matches!(
        &plan[0],
        LinkAction::Conflict { reason: ConflictReason::ForeignLink, .. }
    ));
    assert!(matches!(&plan[1], LinkAction::Conflict { reason: ConflictReason::Occupied, .. }));
    assert!(matches!(do_stow(&vim(), &t), Err(Error::LinkNotOwnedByPackage(_, _))));
}

#[test]
fn stowing_twice_skips_everything() {
    let mut t = home();
    let mut report = Vec::new();
    stow_package(&vim(), &mut t, false, &mut report).unwrap();
    assert!(report.is_empty());
    let plan = plan_stow(&vim(), &t).unwrap();
    assert_eq!(plan.len(), 2);
    for a in &plan {
        assert!(matches!(a, LinkAction::Skip { .. }));
    }
    assert!(do_stow(&vim(), &t).unwrap().is_empty());
}

#[test]
fn stowing_twice_into_a_folded_directory_creates_nothing() {
    let mut t = home();
    t.set_entry(v(&["sub"]), Entry::Directory);
    let mut report = Vec::new();
    stow_package(&vim(), &mut t, false, &mut report).unwrap();
    match t.entry(&v(&["sub", "file"])) {
        Ok(Entry::Link(text)) => assert_eq!(text, "../../../pkgs/vim/sub/file"),
        other => panic!("unexpected entry {:?}", other.is_ok()),
    }
    let plan = plan_stow(&vim(), &t).unwrap();
    assert_eq!(plan.len(), 3);
    assert!(matches!(&plan[0], LinkAction::Skip { .. }));
    assert!(matches!(&plan[1], LinkAction::Descend { .. }));
    assert!(matches!(&plan[2], LinkAction::Skip { .. }));
}

#[test]
fn simulation_reports_and_changes_nothing() {
    let mut t = home();
    let mut report = Vec::new();
    let r = run(&args(true), &vec![vim()], &mut t, &mut report);
    assert!(r.is_ok());
    assert_eq!(
        report,
        vec![
            "symlink(/home/u/.vimrc, ../../pkgs/vim/.vimrc)".to_string(),
            "symlink(/home/u/sub, ../../pkgs/vim/sub)".to_string(),
        ]
    );
    assert!(matches!(t.entry(&v(&[".vimrc"])), Ok(Entry::Missing)));
    assert!(matches!(t.entry(&v(&["sub"])), Ok(Entry::Missing)));
}

#[test]
fn run_creates_the_links() {
    let mut t = home();
    let mut report = Vec::new();
    let r = run(&args(false), &vec![vim()], &mut t, &mut report);
    assert!(r.is_ok());
    assert!(report.is_empty());
    match t.entry(&v(&[".vimrc"])) {
        Ok(Entry::Link(text)) => assert_eq!(text, "../../pkgs/vim/.vimrc"),
        other => panic!("unexpected entry {:?}", other.is_ok()),
    }
}

#[test]
fn run_without_packages_fails() {
    let mut a = args(false);
    a.packages = Vec::new();
    let mut t = home();
    let mut report = Vec::new();
    let none: Vec<PackageImpl> = Vec::new();
    assert!(matches!(run(&a, &none, &mut t, &mut report), Err(Error::MissingPackages)));
}

#[test]
fn a_refused_package_does_not_stop_the_next() {
    let mut t = home();
    t.set_entry(v(&[".vimrc"]), Entry::Other);
    let mut git = PackageImpl::new("/pkgs", "git", Some("/pkgs/git")).unwrap();
    assert!(git.set_listing(v(&[]), v(&[".gitconfig"])));
    let mut a = args(false);
    a.packages = v(&["vim", "git"]);
    let mut report = Vec::new();
    let r = run(&a, &vec![vim(), git], &mut t, &mut report);
    assert!(matches!(r, Err(Error::LinkPathExists(_))));
    assert!(matches!(t.entry(&v(&["sub"])), Ok(Entry::Missing)));
    match t.entry(&v(&[".gitconfig"])) {
        Ok(Entry::Link(text)) => assert_eq!(text, "../../pkgs/git/.gitconfig"),
        other => panic!("unexpected entry {:?}", other.is_ok()),
    }
}

#[test]
fn unreadable_entry_is_an_io_error() {
    let mut t = home();
    t.set_entry(v(&["sub"]), Entry::Unreadable);
    assert!(matches!(plan_stow(&vim(), &t), Err(Error::Io(_))));
}

#[test]
fn directory_over_a_package_file_cannot_be_listed() {
    let mut t = home();
    t.set_entry(v(&[".vimrc"]), Entry::Directory);
    assert!(matches!(plan_stow(&vim(), &t), Err(Error::Io(_))));
}

#[test]
fn report_line_has_the_literal_form() {
    let links = do_stow(&vim(), &home()).unwrap();
    assert_eq!(report_line(&links[0]), "symlink(/home/u/.vimrc, ../../pkgs/vim/.vimrc)");
}

#[test]
fn package_constructor_checks_its_arguments() {
    assert!(matches!(
        PackageImpl::new("pkgs", "vim", Some("/pkgs/vim")),
        Err(Error::PathNotAbsolute)
    ));
    match PackageImpl::new("/pkgs", "vim", None) {
        Err(Error::PackageNotFound(n, d)) => {
            assert_eq!(n, "vim");
            assert_eq!(d, "/pkgs");
        }
        _ => panic!("expected PackageNotFound"),
    }
    assert!(matches!(
        PackageImpl::new("/pkgs", "vim", Some("pkgs/vim")),
        Err(Error::PathNotAbsolute)
    ));
    let p = PackageImpl::new("/pkgs", "vim", Some("/pkgs/./x/../vim/")).unwrap();
    assert_eq!(p.path(), "/pkgs/vim");
    assert_eq!(p.name(), "vim");
    assert!(matches!(p.get_package_contents(&v(&[])), Err(Error::Io(_))));
}

#[test]
fn listing_refuses_bad_names() {
    let mut p = PackageImpl::new("/pkgs", "vim", Some("/pkgs/vim")).unwrap();
    assert!(!p.set_listing(v(&[]), v(&["a", "a"])));
    assert!(!p.set_listing(v(&[]), v(&["a/b"])));
    assert!(!p.set_listing(v(&[]), v(&[".."])));
    assert!(!p.set_listing(v(&[]), v(&["."])));
    assert!(!p.set_listing(v(&[]), v(&[""])));
    assert!(p.get_package_contents(&v(&[])).is_err());
    assert!(p.set_listing(v(&[]), v(&["a", "b"])));
    assert_eq!(p.get_package_contents(&v(&[])).unwrap(), v(&["a", "b"]));
    assert!(p.set_listing(v(&[]), v(&["c"])));
    assert_eq!(p.get_package_contents(&v(&[])).unwrap(), v(&["c"]));
}

#[test]
fn target_constructor_checks_its_argument() {
    assert!(matches!(
        TargetImpl::new("home/u", Some("/home/u")),
        Err(Error::PathNotAbsolute)
    ));
    assert!(matches!(TargetImpl::new("/home/u", Some("home/u")), Err(Error::PathNotAbsolute)));
    match TargetImpl::new("/home/u", None) {
        Err(Error::Io(m)) => assert_eq!(m, "No such directory: /home/u"),
        _ => panic!("expected an I/O error"),
    }
    let t = TargetImpl::new("/home/link", Some("/home//u/")).unwrap();
    assert_eq!(t.path(), "/home/u");
    assert_eq!(t.relative_path_to_package(&vim()).unwrap(), "../../pkgs/vim");
}

#[test]
fn in_memory_links_can_be_made_once_and_removed_once() {
    let mut t = home();
    assert!(t.create_link(&v(&["x"]), "y").is_ok());
    assert!(matches!(t.create_link(&v(&["x"]), "z"), Err(Error::Io(_))));
    match t.entry(&v(&["x"])) {
        Ok(Entry::Link(text)) => assert_eq!(text, "y"),
        other => panic!("unexpected entry {:?}", other.is_ok()),
    }
    assert!(t.remove_link(&v(&["x"])).is_ok());
    assert!(matches!(t.remove_link(&v(&["x"])), Err(Error::Io(_))));
    assert!(matches!(t.entry(&v(&["x"])), Ok(Entry::Missing)));
}

#[test]
fn conflict_reasons_read_in_words() {
    assert_eq!(ConflictReason::ForeignLink.text(), "existing link not owned by this package");
    assert_eq!(ConflictReason::Occupied.text(), "occupied by a non-link, non-directory entry");
}

#[test]
fn link_text_is_the_relative_path_from_the_links_directory() {
    let mut t = home();
    t.set_entry(v(&["sub"]), Entry::Directory);
    let links = do_stow(&vim(), &t).unwrap();
    assert_eq!(links.len(), 2);
    assert_eq!(
        links[0].target,
        relative_path(TargetPath("/pkgs/vim/.vimrc"), BasePath("/home/u")).unwrap()
    );
    assert_eq!(
        links[1].target,
        relative_path(TargetPath("/pkgs/vim/sub/file"), BasePath("/home/u/sub")).unwrap()
    );
}

#[test]
fn package_below_the_target_is_linked_downwards() {
    let mut p = PackageImpl::new("/home/u/dotfiles", "vim", Some("/home/u/dotfiles/vim")).unwrap();
    assert!(p.set_listing(v(&[]), v(&["sub"])));
    assert!(p.set_listing(v(&["sub"]), v(&["file"])));
    let mut t = home();
    let links = do_stow(&p, &t).unwrap();
    assert_eq!(links[0].target, "dotfiles/vim/sub");
    t.set_entry(v(&["sub"]), Entry::Directory);
    let links = do_stow(&p, &t).unwrap();
    assert_eq!(links[0].path, "/home/u/sub/file");
    assert_eq!(links[0].target, "../dotfiles/vim/sub/file");
}
