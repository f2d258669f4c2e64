use symfarm::cli::StowArgs;
use symfarm::commands::stow::stow_package;
use symfarm::commands::unstow::{
    do_unstow, get_installed_package_contents, is_owned_by_package, removals, report_not_owned,
    run, unstow_package,
};
use symfarm::error::Error;
use symfarm::memory::{PackageImpl, TargetImpl};
use symfarm::tree::{Entry, InstalledItem, Target};

fn v(parts: &[&str]) -> Vec<String> {
    parts.iter().map(|s| s.to_string()).collect()
}

fn vim() -> PackageImpl {
    let mut p = PackageImpl::new("/pkgs", "vim", Some("/pkgs/vim")).unwrap();
    assert!(p.set_listing(v(&[]), v(&[".vimrc", "sub"])));
    assert!(p.set_listing(v(&["sub"]), v(&["file"])));
    p
}

fn home() -> TargetImpl {
    TargetImpl::new("/home/u", Some("/home/u")).unwrap()
}

fn link(text: &str) -> Entry {
    Entry::Link(text.to_string())
}

fn args(simulate: bool) -> StowArgs {
    StowArgs {
        package_dir: None,
        target_dir: None,
        packages: v(&["vim"]),
        verbose: false,
        simulate,
    }
}

#[test]
fn link_into_the_package_is_owned() {
    let p = vim();
    assert!(is_owned_by_package("/home/u/.vimrc", &link("../../pkgs/vim/.vimrc"), &p));
    assert!(is_owned_by_package("/home/u/sub/file", &link("../../../pkgs/vim/sub/file"), &p));
    assert!(is_owned_by_package("/home/u/x", &link("/pkgs/vim"), &p));
    assert!(is_owned_by_package("/home/u/x", &link("/pkgs/vim/a/../b"), &p));
}

#[test]
fn other_things_are_not_owned() {
    let p = vim();
    assert!(!is_owned_by_package("/home/u/.vimrc", &link("../../pkgs/git/.vimrc"), &p));
    assert!(!is_owned_by_package("/home/u/.vimrc", &link("../../pkgs/vimx"), &p));
    assert!(!is_owned_by_package("/home/u/.vimrc", &link("../../pkgs"), &p));
    assert!(!is_owned_by_package("/home/u/.vimrc", &link("/pkgs/vim/../git"), &p));
    assert!(!is_owned_by_package("/home/u/sub/file", &link("../../pkgs/vim/sub/file"), &p));
    assert!(!is_owned_by_package("/home/u/.vimrc", &Entry::Directory, &p));
    assert!(!is_owned_by_package("/home/u/.vimrc", &Entry::Other, &p));
    assert!(!is_owned_by_package("/home/u/.vimrc", &Entry::Missing, &p));
    assert!(!is_owned_by_package("home/u/.vimrc", &link("/pkgs/vim/.vimrc"), &p));
}

#[test]
fn unstow_after_stow_restores_the_target() {
    let mut t = home();
    t.set_entry(v(&["sub"]), Entry::Directory);
    t.set_entry(v(&["sub", "mine"]), Entry::Other);
    let mut report = Vec::new();
    stow_package(&vim(), &mut t, false, &mut report).unwrap();
    assert!(matches!(t.entry(&v(&[".vimrc"])), Ok(Entry::Link(_))));
    assert!(matches!(t.entry(&v(&["sub", "file"])), Ok(Entry::Link(_))));
    let links = do_unstow(&vim(), &t).unwrap();
    assert_eq!(links.len(), 2);
    assert_eq!(links[0].path, "/home/u/.vimrc");
    assert_eq!(links[0].target, "../../pkgs/vim/.vimrc");
    assert_eq!(links[1].path, "/home/u/sub/file");
    assert_eq!(links[1].item, v(&["sub", "file"]));
    unstow_package(&vim(), &mut t, false, &mut report).unwrap();
    assert_eq!(report, vec!["Link path '/home/u/sub' is not owned by package 'vim'".to_string()]);
    assert!(matches!(t.entry(&v(&[".vimrc"])), Ok(Entry::Missing)));
    assert!(matches!(t.entry(&v(&["sub", "file"])), Ok(Entry::Missing)));
    assert!(matches!(t.entry(&v(&["sub"])), Ok(Entry::Directory)));
    assert!(matches!(t.entry(&v(&["sub", "mine"])), Ok(Entry::Other)));
    assert!(do_unstow(&vim(), &t).unwrap().is_empty());
}

#[test]
fn what_is_not_owned_is_named_and_left_alone() {
    let mut t = home();
    t.set_entry(v(&[".vimrc"]), link("../../pkgs/git/.vimrc"));
    t.set_entry(v(&["sub"]), Entry::Directory);
    t.set_entry(v(&["sub", "file"]), Entry::Other);
    let found = get_installed_package_contents(&t, &vim()).unwrap();
    assert_eq!(found.len(), 3);
    match &found[0] {
        InstalledItem::NotOwned(p) => assert_eq!(p, "/home/u/.vimrc"),
        InstalledItem::Item(_) => panic!("a foreign link was taken for the package's"),
    }
    match &found[1] {
        InstalledItem::NotOwned(p) => assert_eq!(p, "/home/u/sub"),
        InstalledItem::Item(_) => panic!("a directory was taken for a link"),
    }
    match &found[2] {
        InstalledItem::NotOwned(p) => assert_eq!(p, "/home/u/sub/file"),
        InstalledItem::Item(_) => panic!("a file was taken for a link"),
    }
    let mut report = Vec::new();
    assert!(unstow_package(&vim(), &mut t, false, &mut report).is_ok());
    assert_eq!(
        report,
        vec![
            "Link path '/home/u/.vimrc' is not owned by package 'vim'".to_string(),
            "Link path '/home/u/sub' is not owned by package 'vim'".to_string(),
            "Link path '/home/u/sub/file' is not owned by package 'vim'".to_string(),
        ]
    );
    assert!(matches!(t.entry(&v(&[".vimrc"])), Ok(Entry::Link(_))));
    assert!(matches!(t.entry(&v(&["sub", "file"])), Ok(Entry::Other)));
    assert_eq!(t.get_installed_package_contents(&vim()).unwrap().len(), 3);
}

#[test]
fn simulated_unstow_reports_and_changes_nothing() {
    let mut t = home();
    let mut report = Vec::new();
    stow_package(&vim(), &mut t, false, &mut report).unwrap();
    let r = run(&args(true), &vec![vim()], &mut t, &mut report);
    assert!(r.is_ok());
    assert_eq!(
        report,
        vec![
            "Would remove symlink: /home/u/.vimrc".to_string(),
            "Would remove symlink: /home/u/sub".to_string(),
        ]
    );
    assert!(matches!(t.entry(&v(&[".vimrc"])), Ok(Entry::Link(_))));
}

#[test]
fn unstow_run_removes_the_links() {
    let mut t = home();
    let mut report = Vec::new();
    stow_package(&vim(), &mut t, false, &mut report).unwrap();
    let r = run(&args(false), &vec![vim()], &mut t, &mut report);
    assert!(r.is_ok());
    assert!(report.is_empty());
    assert!(matches!(t.entry(&v(&[".vimrc"])), Ok(Entry::Missing)));
    assert!(matches!(t.entry(&v(&["sub"])), Ok(Entry::Missing)));
}

#[test]
fn unstow_run_without_packages_fails() {
    let mut a = args(false);
    a.packages = Vec::new();
    let mut t = home();
    let mut report = Vec::new();
    let none: Vec<PackageImpl> = Vec::new();
    assert!(matches!(run(&a, &none, &mut t, &mut report), Err(Error::MissingPackages)));
}

#[test]
fn unstow_meets_an_unreadable_entry() {
    let mut t = home();
    t.set_entry(v(&[".vimrc"]), Entry::Unreadable);
    assert!(matches!(do_unstow(&vim(), &t), Err(Error::Io(_))));
}

#[test]
fn owned_goes_and_not_owned_stays_and_is_reported() {
    let mut t = home();
    t.set_entry(v(&[".vimrc"]), link("/somewhere/else"));
    t.set_entry(v(&["sub"]), link("../../pkgs/vim/sub"));
    let mut report = Vec::new();
    let r = run(&args(false), &vec![vim()], &mut t, &mut report);
    assert!(r.is_ok());
    assert_eq!(
        report,
        vec!["Link path '/home/u/.vimrc' is not owned by package 'vim'".to_string()]
    );
    match t.entry(&v(&[".vimrc"])) {
        Ok(Entry::Link(text)) => assert_eq!(text, "/somewhere/else"),
        _ => panic!("the foreign link was touched"),
    }
    assert!(matches!(t.entry(&v(&["sub"])), Ok(Entry::Missing)));
}

#[test]
fn simulated_unstow_reports_what_is_not_owned_first() {
    let mut t = home();
    t.set_entry(v(&[".vimrc"]), Entry::Other);
    t.set_entry(v(&["sub"]), link("../../pkgs/vim/sub"));
    let mut report = Vec::new();
    let r = run(&args(true), &vec![vim()], &mut t, &mut report);
    assert!(r.is_ok());
    assert_eq!(
        report,
        vec![
            "Link path '/home/u/.vimrc' is not owned by package 'vim'".to_string(),
            "Would remove symlink: /home/u/sub".to_string(),
        ]
    );
    assert!(matches!(t.entry(&v(&["sub"])), Ok(Entry::Link(_))));
}

#[test]
fn a_package_that_cannot_be_read_does_not_stop_the_next() {
    let mut t = home();
    t.set_entry(v(&[".gitconfig"]), link("../../pkgs/git/.gitconfig"));
    let unlisted = PackageImpl::new("/pkgs", "vim", Some("/pkgs/vim")).unwrap();
    let mut git = PackageImpl::new("/pkgs", "git", Some("/pkgs/git")).unwrap();
    assert!(git.set_listing(v(&[]), v(&[".gitconfig"])));
    let mut a = args(false);
    a.packages = v(&["vim", "git"]);
    let mut report = Vec::new();
    let r = run(&a, &vec![unlisted, git], &mut t, &mut report);
    assert!(matches!(r, Err(Error::Io(_))));
    assert!(matches!(t.entry(&v(&[".gitconfig"])), Ok(Entry::Missing)));
}

#[test]
fn removals_are_the_owned_links() {
    let mut t = home();
    t.set_entry(v(&[".vimrc"]), Entry::Directory);
    t.set_entry(v(&["sub"]), link("../../pkgs/vim/sub"));
    let mut p = PackageImpl::new("/pkgs", "vim", Some("/pkgs/vim")).unwrap();
    assert!(p.set_listing(v(&[]), v(&[".vimrc", "sub"])));
    assert!(p.set_listing(v(&[".vimrc"]), v(&[])));
    let found = get_installed_package_contents(&t, &p).unwrap();
    let links = removals(&found);
    assert_eq!(links.len(), 1);
    assert_eq!(links[0].path, "/home/u/sub");
    assert_eq!(report_not_owned("/t/x", "vim"), "Link path '/t/x' is not owned by package 'vim'");
}
