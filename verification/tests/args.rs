use std::path::PathBuf;

use clap::{Arg, ArgAction, Command};
use fdrive::args::{asks_password, setup, tray_setup, Args, Setup, TrayArgs};
use fdrive::gui::Credentials;

fn try_parse(argv: &[&str]) -> Option<Args<PathBuf>> {
    let word = |name: &'static str| Arg::new(name).long(name);
    let command = Command::new("fdrive")
        .arg(Arg::new("mount").value_name("MOUNT").required(true))
        .arg(word("server").value_name("URL"))
        .arg(word("token"))
        .arg(word("user"))
        .arg(word("password"))
        .arg(word("storage"))
        .arg(word("data"))
        .arg(word("insecure").action(ArgAction::SetTrue));
    let found = command.try_get_matches_from(argv).ok()?;
    let text = |name: &str| found.get_one::<String>(name).cloned();
    Some(Args {
        mount: text("mount").map(PathBuf::from)?,
        server: text("server"),
        token: text("token"),
        user: text("user"),
        password: text("password"),
        storage: text("storage"),
        data: text("data").map(PathBuf::from),
        insecure: found.get_flag("insecure"),
    })
}

fn parse(argv: &[&str]) -> Args<PathBuf> {
    try_parse(&[&["fdrive", "/tmp/mnt"], argv].concat()).unwrap()
}

fn set_up(
    args: Args<PathBuf>,
    stored: Option<Credentials>,
) -> Result<Setup<PathBuf>, String> {
    setup(args, stored, PathBuf::from("/tmp/data"))
}

fn recalls_a_token() {
    let s = set_up(
        parse(&["--server", "localhost:8334", "--token", "t0k"]),
        None,
    )
    .unwrap();
    let creds = s.credentials.unwrap();
    assert_eq!(creds.url, "https://localhost:8334");
    assert_eq!(creds.token, "t0k");
    assert!(!s.prompt_login);
}

fn takes_a_password() {
    let mut args = parse(&[
        "--server",
        "http://x/",
        "--user",
        "joe",
        "--storage",
        "docs",
    ]);
    args.password = Some("s3cret".into());
    let creds = set_up(args, None).unwrap().credentials.unwrap();
    assert_eq!(creds.url, "http://x");
    assert_eq!(creds.user, "joe");
    assert_eq!(creds.password, "s3cret");
    assert_eq!(creds.storage, "docs");
    assert!(creds.token.is_empty());
}

fn prompts_for_a_login() {
    let s = set_up(parse(&["--server", "http://x"]), None).unwrap();
    assert!(s.credentials.is_none());
    assert!(s.prompt_login);
    assert_eq!(s.prefill.url, "http://x");
}

fn session(url: &str) -> Credentials {
    Credentials {
        url: url.into(),
        token: "t0k".into(),
        ..Default::default()
    }
}

fn recalls_the_session() {
    let s = set_up(parse(&[]), Some(session("http://x"))).unwrap();
    assert!(s.stored);
    assert_eq!(s.credentials.unwrap().token, "t0k");
    assert_eq!(s.mount, PathBuf::from("/tmp/mnt"));
}

fn ignores_the_session() {
    let stored = session("http://old");
    let s = set_up(parse(&["--server", "http://new"]), Some(stored)).unwrap();
    assert!(s.credentials.is_none());
    assert!(s.prompt_login);
}

fn rejects_flags() {
    let mut args = parse(&["--server", "http://x", "--user", "joe"]);
    args.token = Some("t0k".into());
    assert!(set_up(args, None).is_err());
    assert!(set_up(parse(&["--user", "joe"]), None).is_err());
    assert!(try_parse(&["fdrive"]).is_none());
}

#[test]
fn args_token_mode() {
    recalls_a_token();
}

#[test]
fn args_password_mode() {
    takes_a_password();
}

#[test]
fn args_server_alone_prompts_login() {
    prompts_for_a_login();
}

#[test]
fn args_no_args_recalls_stored_session() {
    recalls_the_session();
}

#[test]
fn args_explicit_server_ignores_stored_session() {
    ignores_the_session();
}

#[test]
fn args_conflicting_and_orphan_flags_are_rejected() {
    rejects_flags();
}

#[test]
fn args_test_token_mode() {
    recalls_a_token();
}

#[test]
fn args_test_password_mode() {
    takes_a_password();
}

#[test]
fn args_test_server_alone_prompts_login() {
    prompts_for_a_login();
}

#[test]
fn args_test_no_args_recalls_stored_session() {
    recalls_the_session();
}

#[test]
fn args_test_explicit_server_ignores_stored_session() {
    ignores_the_session();
}

#[test]
fn args_test_conflicting_and_orphan_flags_are_rejected() {
    rejects_flags();
}

#[test]
fn what_is_wrong_is_said() {
    let why = set_up(parse(&["--user", "joe"]), None).err().unwrap();
    assert_eq!(why, "--token and --user need --server");
    let mut args = parse(&["--server", "http://x", "--user", "joe"]);
    args.token = Some("t".into());
    let why = set_up(args, None).err().unwrap();
    assert_eq!(why, "--token and --user cannot be combined");
}

#[test]
fn a_place_for_the_data_can_be_named() {
    let s = set_up(parse(&["--data", "/d"]), None).unwrap();
    assert_eq!(s.data, PathBuf::from("/d"));
    let s = set_up(parse(&[]), None).unwrap();
    assert_eq!(s.data, PathBuf::from("/tmp/data"));
    assert!(!s.stored);
    assert!(!s.prompt_login);
}

fn tray(server: Option<&str>, user: Option<&str>, password: Option<&str>) -> TrayArgs<u8> {
    TrayArgs {
        server: server.map(String::from),
        token: None,
        user: user.map(String::from),
        password: password.map(String::from),
        storage: None,
        config: None,
        insecure: false,
        unregister: false,
    }
}

#[test]
fn nobody_can_be_asked_at_a_tray() {
    let why = tray_setup(tray(Some("x"), Some("joe"), None), None, 1, 2, 3);
    assert_eq!(
        why.err().unwrap(),
        "--user needs --password (or FILESTASH_PASSWORD)"
    );
    let s = tray_setup(tray(Some("x"), Some("joe"), Some("pw")), None, 1, 2, 3).unwrap();
    assert_eq!((s.root, s.data, s.config_path), (1, 2, 3));
    assert_eq!(s.credentials.unwrap().url, "https://x");
    assert!(!s.prompt_login);
    let s = tray_setup(tray(None, None, None), Some(session("http://x")), 1, 2, 3).unwrap();
    assert_eq!(s.credentials.unwrap().token, "t0k");
}

#[test]
fn a_password_is_asked_for_only_with_a_user() {
    assert!(asks_password(&Some("joe".to_string()), &None));
    assert!(!asks_password(&None, &None));
    assert!(!asks_password(
        &Some("joe".to_string()),
        &Some("pw".to_string())
    ));
}
