use zec::geometry::Rect;
use zec::input::{KeyCode, KeyEvent, KeyModifiers};
use zec::remote_session::{
    archive_name, archive_source, bounded_line, draw_connection_screen, expected_extension, parse_remote_command, parse_u16,
    prompt_should_be_masked, render_auth_overlay, resolve_remote_server_archive, try_auth_overlay,
    try_connection_screen, validate_archive_extension,
    validate_remote_server_archive, ArchiveSource, RemoteConnectionOptions, RemoteError, RemoteUiState,
};

fn args(values: &[&str]) -> Vec<Option<String>> {
    values.iter().map(|value| Some(value.to_string())).collect()
}

#[test]
fn parses_ssh_without_a_cli_password() {
    let request = parse_remote_command(&args(&[
        "ssh",
        "host.example",
        "--user",
        "dev",
        "--port",
        "2222",
        "--arg",
        "-oStrictHostKeyChecking=yes",
        "/srv/project",
        "/srv/project/README.md",
    ]))
    .unwrap();
    assert_eq!(request.paths[0], "/srv/project");
    let RemoteConnectionOptions::Ssh(options) = request.options else {
        panic!("expected SSH options")
    };
    assert_eq!(options.host.to_string(), "host.example");
    assert_eq!(options.username.as_deref(), Some("dev"));
    assert_eq!(options.port, Some(2222));
    assert_eq!(options.password, None);
    assert_eq!(options.port_forwards, None);
    assert!(options.upload_binary_over_ssh);
}

#[test]
fn rejects_password_and_relative_remote_paths() {
    assert!(
        parse_remote_command(&args(&["ssh", "host", "--password", "secret", "/x"]))
            .unwrap_err()
            .message()
            .contains("never accepted")
    );
    assert!(parse_remote_command(&args(&["wsl", "Ubuntu", "relative"])).is_err());
}

#[test]
fn parses_container_identity_environment_and_podman() {
    let request = parse_remote_command(&args(&[
        "container",
        "web",
        "--id",
        "deadbeef",
        "--user",
        "app",
        "--podman",
        "--env",
        "RUST_LOG=debug",
        "/workspace",
    ]))
    .unwrap();
    let RemoteConnectionOptions::Docker(options) = request.options else {
        panic!("expected container options")
    };
    assert_eq!(options.container_id, "deadbeef");
    assert_eq!(options.remote_user, "app");
    assert!(options.use_podman);
    assert!(options.remote_env.contains(&("RUST_LOG".to_string(), "debug".to_string())));
}

#[test]
fn recognizes_unmasked_confirmation_prompts() {
    assert!(!prompt_should_be_masked(
        "Are you sure you want to continue connecting (yes/no/[fingerprint])?"
    ));
    assert!(prompt_should_be_masked("dev@host's password:"));
}

fn refused(values: &[&str]) -> String {
    parse_remote_command(&args(values)).unwrap_err().message()
}

#[test]
fn tells_what_is_wrong_with_a_remote_command() {
    assert_eq!(refused(&[]), "remote requires one of: ssh, wsl, container");
    assert_eq!(refused(&["ftp"]), "unknown remote transport: ftp");
    assert_eq!(
        parse_remote_command(&vec![Some("ssh".to_owned()), None]).unwrap_err().message(),
        "remote arguments must be UTF-8"
    );
    assert_eq!(refused(&["ssh", "host"]), "remote ssh requires HOST PATH [PATH ...]");
    assert_eq!(refused(&["ssh", "", "/x"]), "SSH host cannot be empty");
    assert_eq!(refused(&["ssh", "h", "--port", "x", "/x"]), "--port must be an integer from 1 through 65535");
    assert_eq!(refused(&["ssh", "h", "--port", "0", "/x"]), "--port must be greater than zero");
    assert_eq!(refused(&["ssh", "h", "--timeout", "x", "/x"]), "--timeout must be an integer number of seconds");
    assert_eq!(refused(&["ssh", "h", "--timeout", "0", "/x"]), "--timeout must be greater than zero");
    assert_eq!(refused(&["ssh", "h", "/x", "--port"]), "--port requires a value");
    assert_eq!(refused(&["ssh", "h", "/x", "--nope"]), "unknown ssh remote option: --nope");
    assert_eq!(refused(&["wsl", "Ubuntu"]), "remote wsl requires DISTRO PATH [PATH ...]");
    assert_eq!(refused(&["wsl", "", "/x"]), "WSL distribution cannot be empty");
    assert_eq!(refused(&["wsl", "Ubuntu", "/x", "--nope"]), "unknown WSL remote option: --nope");
    assert_eq!(refused(&["container", "web"]), "remote container requires NAME PATH [PATH ...]");
    assert_eq!(refused(&["container", "", "/x"]), "container name cannot be empty");
    assert_eq!(refused(&["container", "web", "/x", "--nope"]), "unknown container remote option: --nope");
    assert_eq!(refused(&["container", "web", "--env", "X", "/x"]), "--env requires NAME=VALUE");
    assert_eq!(refused(&["container", "web", "--env", "1=2", "/x"]), "invalid environment name: 1");
    assert_eq!(
        refused(&["container", "web", "--env", "A=1", "--env", "A=2", "/x"]),
        "duplicate remote environment name: A"
    );
    assert_eq!(refused(&["ssh", "h", "x"]), "remote path must be absolute: x");
    assert_eq!(refused(&["ssh", "h", "/x\0"]), "remote path contains NUL");
}

#[test]
fn reads_ports_as_numbers() {
    assert_eq!(parse_u16("+22"), Some(22));
    assert_eq!(parse_u16("65535"), Some(65535));
    assert_eq!(parse_u16("65536"), None);
    assert_eq!(parse_u16(""), None);
    assert_eq!(parse_u16("-1"), None);
}

#[test]
fn masked_answers_are_not_shown() {
    let mut ui = RemoteUiState::default();
    let generation = ui.ask_password("password:".to_owned());
    for character in ['s', 'e', 'c'] {
        ui.handle_key(&KeyEvent::new(KeyCode::Char(character), KeyModifiers::none())).unwrap();
    }
    let shown = ui.snapshot().prompt.unwrap();
    assert!(shown.masked);
    assert_eq!(shown.display_input, "•••");
    let key = ui.handle_key(&KeyEvent::new(KeyCode::Enter, KeyModifiers::none())).unwrap();
    assert_eq!(key.submitted.as_deref(), Some("sec"));
    assert!(!ui.has_prompt());
    assert!(!ui.cancel_generation(generation));
    ui.ask_password("continue connecting (yes/no)?".to_owned());
    assert_eq!(ui.handle_paste("yes\n"), Ok(true));
    assert_eq!(ui.snapshot().prompt.unwrap().display_input, "yes");
    assert!(ui.cancel_prompt());
    assert!(!ui.cancel_prompt());
    ui.ask_password("again".to_owned());
    assert_eq!(ui.handle_paste(&"x".repeat(70_000)), Err(RemoteError::ResponseTooLarge));
    ui.set_status(Some("connecting".to_owned()));
    assert_eq!(ui.snapshot().status.as_deref(), Some("connecting"));
}

#[test]
fn archives_are_checked_before_they_are_used() {
    assert_eq!(expected_extension(true), "zip");
    assert_eq!(archive_name("linux", "x86_64", "gz"), "zec-remote-server-linux-x86_64.gz");
    assert_eq!(
        resolve_remote_server_archive(None, "/opt", "linux", "x86_64", false),
        "/opt/zec-remote-server-linux-x86_64.gz"
    );
    assert_eq!(
        resolve_remote_server_archive(Some("/a.gz".to_owned()), "/opt", "linux", "x86_64", false),
        "/a.gz"
    );
    assert_eq!(validate_archive_extension(Some("gz"), "gz", "/a.gz"), Ok(()));
    assert_eq!(
        validate_archive_extension(None, "gz", "/a").unwrap_err().message(),
        "remote server archive must use .gz: /a"
    );
    assert_eq!(validate_remote_server_archive(true, 10), Ok(()));
    assert_eq!(validate_remote_server_archive(false, 10), Err(RemoteError::ArchiveIsNotRegular));
    assert_eq!(validate_remote_server_archive(true, 0), Err(RemoteError::ArchiveIsEmpty));
    assert_eq!(validate_remote_server_archive(true, u64::MAX), Err(RemoteError::ArchiveTooLarge));
    assert_eq!(archive_source(true, true, false), ArchiveSource::Local);
    assert_eq!(archive_source(false, true, true), ArchiveSource::Refused);
    assert_eq!(archive_source(false, false, true), ArchiveSource::Download);
    assert_eq!(archive_source(false, false, false), ArchiveSource::NeedsArchive);
}

#[test]
fn prompts_are_shown_on_one_short_line() {
    assert_eq!(bounded_line("password:", 40), "password:");
    assert!(bounded_line("a\nb", 40).chars().all(|character| character != '\n'));
}

fn row(buffer: &ratatui::buffer::Buffer, y: u16) -> String {
    (buffer.area.x..buffer.area.right()).map(|x| buffer.cell((x, y)).unwrap().symbol()).collect()
}

#[test]
fn the_screen_shows_what_the_transport_asks() {
    let mut ui = RemoteUiState::default();
    let area = Rect::new(0, 0, 60, 12);
    let blank = || ratatui::buffer::Buffer::empty(ratatui::layout::Rect::new(0, 0, 60, 12));
    let mut buffer = blank();
    assert_eq!(draw_connection_screen(area, &mut buffer, "host", &ui.snapshot()), None);
    assert!(row(&buffer, 0).contains(" zec remote "), "{}", row(&buffer, 0));
    assert!(row(&buffer, 2).contains("Connecting to host"), "{}", row(&buffer, 2));
    assert!(row(&buffer, 3).contains("Starting transport…"), "{}", row(&buffer, 3));
    assert!(row(&buffer, 5).contains("Ctrl-Q or Esc cancels"), "{}", row(&buffer, 5));
    assert_eq!(render_auth_overlay(&mut buffer, &ui.snapshot(), area), None);

    ui.ask_password("password:".to_owned());
    ui.handle_paste("ab").unwrap();
    let mut buffer = blank();
    let cursor = draw_connection_screen(area, &mut buffer, "host", &ui.snapshot()).unwrap();
    assert!(row(&buffer, 5).contains("password:"), "{}", row(&buffer, 5));
    assert!(row(&buffer, 6).contains("> ••"), "{}", row(&buffer, 6));
    assert!(row(&buffer, 7).contains("input is masked"), "{}", row(&buffer, 7));
    assert_eq!((cursor.x, cursor.y), (6, 6));

    let mut buffer = blank();
    let cursor = render_auth_overlay(&mut buffer, &ui.snapshot(), area).unwrap();
    assert!((0..12).any(|y| row(&buffer, y).contains("> ••")));
    assert!((0..12).any(|y| row(&buffer, y).contains("masked")));
    assert!(row(&buffer, cursor.y).contains("> ••"));
}

#[test]
fn variables_come_in_the_order_of_their_names() {
    let request = parse_remote_command(&args(&[
        "docker", "--env", "B=2", "--env", "A=1=1", "web", "/w", "--env", "AB=",
    ]))
    .unwrap();
    let RemoteConnectionOptions::Docker(options) = request.options else {
        panic!("expected container options")
    };
    let pair = |name: &str, value: &str| (name.to_string(), value.to_string());
    assert_eq!(options.remote_env, vec![pair("A", "1=1"), pair("AB", ""), pair("B", "2")]);
    assert!(!options.use_podman);
}

#[test]
fn text_that_would_leave_the_screen_is_not_drawn() {
    let buffer = |width: u16| ratatui::buffer::Buffer::empty(ratatui::layout::Rect::new(0, 0, width, 10));
    let mut ui = RemoteUiState::default();
    ui.set_status(Some("a\u{3042}\u{3042}".to_owned()));
    let mut narrow = buffer(4);
    let before = narrow.clone();
    assert_eq!(try_connection_screen(Rect::new(0, 0, 6, 10), &mut narrow, "h", &ui.snapshot()), None);
    assert_eq!(narrow, before);
    let mut wide = buffer(6);
    assert_eq!(try_connection_screen(Rect::new(0, 0, 6, 10), &mut wide, "h", &ui.snapshot()), Some(None));
    assert_ne!(wide, buffer(6));

    ui.set_status(Some("a\u{200b}bbbbbbbb\u{1100}\u{1100}\u{1100}\u{1100}\u{1100}x".to_owned()));
    assert_eq!(try_connection_screen(Rect::new(0, 0, 14, 10), &mut buffer(14), "h", &ui.snapshot()), None);
    assert_eq!(try_connection_screen(Rect::new(0, 0, 14, 10), &mut buffer(24), "h", &ui.snapshot()), Some(None));

    assert_eq!(try_auth_overlay(&mut buffer(12), &ui.snapshot(), Rect::new(0, 0, 12, 10)), Some(None));
    ui.ask_password("a\u{200b}\u{3042}\u{3042}\u{3042}\u{3042}\u{3042}\u{3042}\u{3042}".to_owned());
    let mut narrow = buffer(12);
    assert_eq!(try_auth_overlay(&mut narrow, &ui.snapshot(), Rect::new(0, 0, 12, 10)), None);
    assert_eq!(narrow, buffer(12));
    let cursor = try_auth_overlay(&mut buffer(40), &ui.snapshot(), Rect::new(0, 0, 40, 10)).unwrap();
    assert!(cursor.is_some());
}

#[test]
fn the_last_character_of_an_answer_can_be_taken_back() {
    let mut ui = RemoteUiState::default();
    ui.ask_password("yes/no".to_owned());
    ui.handle_paste("a\u{3042}").unwrap();
    let key = |code: KeyCode| KeyEvent::new(code, KeyModifiers::none());
    ui.handle_key(&key(KeyCode::Backspace)).unwrap();
    assert_eq!(ui.snapshot().prompt.unwrap().display_input, "a");
    ui.handle_key(&key(KeyCode::Backspace)).unwrap();
    ui.handle_key(&key(KeyCode::Backspace)).unwrap();
    assert_eq!(ui.snapshot().prompt.unwrap().display_input, "");
    assert_eq!(ui.handle_key(&key(KeyCode::Enter)).unwrap().submitted.as_deref(), Some(""));
}
