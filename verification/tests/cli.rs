use symfarm::cli::{check_packages, choose_dirs, parent_path, Cli, Commands, StowArgs};
use symfarm::error::Error;

fn args(package_dir: Option<&str>, target_dir: Option<&str>, packages: &[&str]) -> StowArgs {
    StowArgs {
        package_dir: package_dir.map(|s| s.to_string()),
        target_dir: target_dir.map(|s| s.to_string()),
        packages: packages.iter().map(|s| s.to_string()).collect(),
        verbose: false,
        simulate: true,
    }
}

#[test]
fn directories_default_to_cwd_and_its_parent() {
    let (p, t) = choose_dirs(&args(None, None, &["vim"]), "/home/u/dotfiles").unwrap();
    assert_eq!(p, "/home/u/dotfiles");
    assert_eq!(t, "/home/u");
}

#[test]
fn given_directories_are_read_from_cwd() {
    let (p, t) = choose_dirs(&args(Some("pkgs"), Some("/opt/t"), &["vim"]), "/home/u").unwrap();
    assert_eq!(p, "/home/u/pkgs");
    assert_eq!(t, "/opt/t");
    let (p, t) = choose_dirs(&args(Some("/pkgs"), Some("t"), &["vim"]), "/").unwrap();
    assert_eq!(p, "/pkgs");
    assert_eq!(t, "/t");
}

#[test]
fn no_packages_is_an_error() {
    assert!(matches!(
        choose_dirs(&args(None, None, &[]), "/home/u"),
        Err(Error::MissingPackages)
    ));
}

#[test]
fn root_has_no_default_target() {
    assert!(matches!(
        choose_dirs(&args(None, None, &["vim"]), "/"),
        Err(Error::DefaultTargetNotAvailable)
    ));
    assert!(choose_dirs(&args(None, Some("/t"), &["vim"]), "/").is_ok());
}

#[test]
fn parent_is_lexical() {
    assert_eq!(parent_path("/a/b"), Some("/a".to_string()));
    assert_eq!(parent_path("/a"), Some("/".to_string()));
    assert_eq!(parent_path("/"), None);
    assert_eq!(parent_path("a"), Some("".to_string()));
    assert_eq!(parent_path(""), None);
    assert_eq!(parent_path("/a//b/"), Some("/a".to_string()));
}

#[test]
fn commands_carry_their_arguments() {
    let cli = Cli { command: Commands::Stow(args(None, None, &["vim"])) };
    match cli.command {
        Commands::Stow(a) => assert_eq!(a.packages, vec!["vim".to_string()]),
        Commands::Unstow(_) => panic!("expected stow"),
    }
}

#[test]
fn packages_are_checked_before_anything_else() {
    assert!(matches!(check_packages(&args(None, None, &[])), Err(Error::MissingPackages)));
    assert!(check_packages(&args(None, None, &["vim"])).is_ok());
}
