use std::path::PathBuf;

use symfarm::error::Error;
use symfarm::fs::{normalize_path, relative_path, BasePath, TargetPath};

#[test]
fn test_common_prefix() {
    let target = "/home/user/project/src";
    let base = "/home/user/docs";
    assert_eq!(
        PathBuf::from(relative_path(TargetPath(target), BasePath(base)).unwrap()),
        PathBuf::from("../project/src")
    );
}

#[test]
fn test_no_common_prefix() {
    let target = "/a/b/c";
    let base = "/x/y/z";
    assert_eq!(
        PathBuf::from(relative_path(TargetPath(target), BasePath(base)).unwrap()),
        PathBuf::from("../../../a/b/c")
    );
}

#[test]
fn test_identical_paths() {
    let target = "/same/path";
    let base = "/same/path";
    assert_eq!(
        PathBuf::from(relative_path(TargetPath(target), BasePath(base)).unwrap()),
        PathBuf::from("")
    );
}

#[test]
fn test_target_inside_base() {
    let target = "/a/b/c/d";
    let base = "/a/b";
    assert_eq!(
        PathBuf::from(relative_path(TargetPath(target), BasePath(base)).unwrap()),
        PathBuf::from("c/d")
    );
}

#[test]
fn test_base_inside_target() {
    let target = "/a/b";
    let base = "/a/b/c/d";
    assert_eq!(
        PathBuf::from(relative_path(TargetPath(target), BasePath(base)).unwrap()),
        PathBuf::from("../../")
    );
}

#[test]
fn test_error_on_relative_target() {
    let target = "a/b/c";
    let base = "/a/b";
    match relative_path(TargetPath(target), BasePath(base)) {
        Err(Error::PathNotAbsolute) => (),
        _ => assert!(false, "Expected PathNotAbsolute error"),
    }
}

#[test]
fn test_error_on_relative_base() {
    let target = "/a/b/c";
    let base = "a/b";
    match relative_path(TargetPath(target), BasePath(base)) {
        Err(Error::PathNotAbsolute) => (),
        _ => assert!(false, "Expected PathNotAbsolute error"),
    }
}

#[test]
fn test_normalize_path1() {
    let normalized = normalize_path("/");
    assert_eq!(PathBuf::from(normalized), PathBuf::from("/"));
}

#[test]
fn test_normalize_path2() {
    let normalized = normalize_path("/abc");
    assert_eq!(PathBuf::from(normalized), PathBuf::from("/abc"));
}

#[test]
fn test_normalize_path3() {
    let normalized = normalize_path("/abc/..");
    assert_eq!(PathBuf::from(normalized), PathBuf::from("/"));
}

#[test]
fn test_normalize_path4() {
    let normalized = normalize_path("/abc/.");
    assert_eq!(PathBuf::from(normalized), PathBuf::from("/abc"));
}

#[test]
fn test_normalize_path5() {
    let normalized = normalize_path("/abc///def");
    assert_eq!(PathBuf::from(normalized), PathBuf::from("/abc/def"));
}

#[test]
fn test_normalize_path6() {
    let normalized = normalize_path("/abc/def/../../../../qwe");
    assert_eq!(PathBuf::from(normalized), PathBuf::from("/qwe"));
}

#[test]
fn relative_path_gives_exact_text() {
    assert_eq!(relative_path(TargetPath("/a/b"), BasePath("/a/b/c/d")).unwrap(), "../..");
    assert_eq!(relative_path(TargetPath("/a//b/./c"), BasePath("/a/x/")).unwrap(), "../b/c");
    assert_eq!(relative_path(TargetPath("/"), BasePath("/")).unwrap(), "");
    assert_eq!(relative_path(TargetPath("/a/../b"), BasePath("/a")).unwrap(), "../b");
}

#[test]
fn relative_path_refuses_two_relative_paths() {
    assert!(matches!(
        relative_path(TargetPath("a"), BasePath("")),
        Err(Error::PathNotAbsolute)
    ));
}

#[test]
fn normalize_path_gives_exact_text() {
    assert_eq!(normalize_path(""), "");
    assert_eq!(normalize_path("a/../.."), "");
    assert_eq!(normalize_path("./a/b/../c/"), "a/c");
    assert_eq!(normalize_path("/.."), "/");
    assert_eq!(normalize_path("//x/./y/.."), "/x");
}

#[test]
fn error_messages() {
    assert_eq!(Error::PathNotAbsolute.message(), "Path is not absolute");
    assert_eq!(Error::MissingPackages.message(), "At least one package is required");
    assert_eq!(
        Error::DefaultTargetNotAvailable.message(),
        "Default target directory is not available"
    );
    assert_eq!(Error::Io("denied".to_string()).message(), "IO error: denied");
    assert_eq!(
        Error::PackageNotFound("vim".to_string(), "/pkgs".to_string()).message(),
        "Package 'vim' not found in '/pkgs'"
    );
    assert_eq!(
        Error::LinkPathExists("/t/x".to_string()).message(),
        "Link path already exists: /t/x"
    );
    assert_eq!(
        Error::LinkNotOwnedByPackage("/t/x".to_string(), "vim".to_string()).message(),
        "Link path '/t/x' is not owned by package 'vim'"
    );
}
