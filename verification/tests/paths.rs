use zec::paths::{components, is_absolute, portable_path, Component, HostPart};
use zec::project_panel::{relative_host_path, validate_relative_path, PanelError};

fn name(text: &str) -> HostPart {
    HostPart::Name(text.to_owned())
}

fn prefix(text: &str) -> HostPart {
    HostPart::Prefix(text.to_owned())
}

#[test]
fn host_paths_have_slashes() {
    assert_eq!(portable_path(&vec![name("a"), name("b")], false).as_deref(), Some("a/b"));
    assert_eq!(portable_path(&vec![HostPart::Current, HostPart::Parent, name("b")], false).as_deref(), Some("./../b"));
    assert_eq!(portable_path(&Vec::new(), false).as_deref(), Some(""));
    assert_eq!(portable_path(&vec![HostPart::Root], true).as_deref(), Some("/"));
    assert_eq!(portable_path(&vec![HostPart::Root, name("a")], true).as_deref(), Some("/a"));
    assert_eq!(portable_path(&vec![prefix("C:"), HostPart::Root, name("x")], true).as_deref(), Some("/C:/x"));
    assert_eq!(
        portable_path(&vec![prefix(r"\\?\C:"), HostPart::Root, name("x")], true).as_deref(),
        Some(r"/\\?\C:/x")
    );
}

#[test]
fn odd_host_paths_have_none() {
    assert_eq!(portable_path(&vec![prefix("C:"), name("x")], false), None);
    assert_eq!(portable_path(&vec![HostPart::Root, name("x")], false), None);
    assert_eq!(portable_path(&vec![name("a/b")], false), None);
    assert_eq!(portable_path(&vec![name("..")], false), None);
    assert_eq!(portable_path(&vec![name("")], false), None);
    assert_eq!(portable_path(&vec![name("a"), HostPart::Current], false), None);
    assert_eq!(portable_path(&vec![name("a"), HostPart::Root], true), None);
    assert_eq!(portable_path(&vec![prefix("C:"), name("x")], true), None);
    assert_eq!(portable_path(&vec![HostPart::Root, HostPart::Root], false), None);
}

#[test]
fn host_paths_keep_their_components() {
    let path = portable_path(&vec![prefix("C:"), HostPart::Root, HostPart::Parent, name("x")], true).unwrap();
    assert!(is_absolute(&path));
    let normal = |text: &str| Component::Normal(text.to_owned());
    assert_eq!(components(&path), vec![Component::RootDir, normal("C:"), Component::ParentDir, normal("x")]);
    let path = portable_path(&vec![HostPart::Current, name("x")], false).unwrap();
    assert_eq!(components(&path), vec![Component::CurDir, normal("x")]);
}

#[test]
fn entry_paths_follow_the_host() {
    let two = vec![name("a"), name("b")];
    assert_eq!(relative_host_path(&two, false, false), Ok("a/b".to_owned()));
    assert_eq!(validate_relative_path("a/b", false), Ok(()));
    let drive = vec![prefix("C:"), HostPart::Root, name("x")];
    assert_eq!(relative_host_path(&drive, true, false), Err(PanelError::PathIsAbsolute));
    let beside = vec![prefix("C:"), name("x")];
    assert_eq!(relative_host_path(&beside, false, false), Err(PanelError::OddComponent));
    assert_eq!(relative_host_path(&vec![HostPart::Root, name("x")], false, false), Err(PanelError::OddComponent));
    assert_eq!(relative_host_path(&vec![HostPart::Parent], false, true), Err(PanelError::OddComponent));
    assert_eq!(relative_host_path(&Vec::new(), false, false), Err(PanelError::PathIsEmpty));
    assert_eq!(relative_host_path(&Vec::new(), false, true), Ok(String::new()));
    assert_eq!(relative_host_path(&vec![HostPart::Current], false, false), Err(PanelError::OddComponent));
    assert_eq!(relative_host_path(&vec![HostPart::Current], false, true), Ok(".".to_owned()));
}
