use fdrive::config::Session;
use fdrive::gui::{
    file_manager, form_credentials, form_server, is_noise, menu, not_a_server, paint_svg, picked,
    repaint, tray_menu, Credentials, Hung, Item, Manager, Pick, Status, TrayEvent,
};
use fdrive::login::{Ask, Browser, DialogState, Login};

#[test]
fn a_session_becomes_credentials() {
    let creds = Credentials::of(Session {
        url: "http://x".to_string(),
        token: "t".to_string(),
        insecure: true,
    });
    assert_eq!(creds.url, "http://x");
    assert_eq!(creds.token, "t");
    assert!(creds.insecure);
    assert!(creds.user.is_empty());
    assert_eq!(creds.clone().token, "t");
}

#[test]
fn the_tray_tells_how_it_stands() {
    assert_eq!(Status::default(), Status::LoggedOut);
    assert_eq!(Status::LoggedOut.tip(), "Filestash — not signed in");
    assert_eq!(Status::Synced.tip(), "Filestash");
    assert_eq!(Status::Syncing.tip(), "Filestash — syncing");
    assert_eq!(Status::Error.tip(), "Filestash — sync error");
    assert_eq!(Status::LoggedOut.icon_name(), "icon-base");
    assert_eq!(Status::Synced.icon_name(), "icon-ok");
    assert_eq!(Status::Syncing.icon_name(), "icon-sync");
    assert_eq!(Status::Error.icon_name(), "icon-error");
}

#[test]
fn the_menu_follows_the_session() {
    assert_eq!(
        menu(false, true),
        [Item::Login, Item::Separator, Item::Quit]
    );
    assert_eq!(menu(true, true)[0], Item::Browse);
    assert_eq!(menu(true, false)[0], Item::Logout);
    assert_eq!(
        tray_menu(Status::LoggedOut),
        [Item::Login, Item::Autostart, Item::Quit]
    );
    assert_eq!(tray_menu(Status::Error).len(), 7);
}

#[test]
fn a_form_names_a_server_or_nothing() {
    assert_eq!(form_server(true, " x/ "), Some("https://x".to_string()));
    assert_eq!(form_server(true, "  "), None);
    assert_eq!(form_server(false, "x"), None);
    assert!(form_credentials("u".to_string(), None, false).is_none());
    let creds = form_credentials("u".to_string(), Some("t".to_string()), true).unwrap();
    assert_eq!((creds.url.as_str(), creds.token.as_str()), ("u", "t"));
    assert_eq!(
        not_a_server("http://x", "not a Filestash server"),
        "http://x does not look like a Filestash server.\n\nnot a Filestash server"
    );
}

#[test]
fn an_icon_is_painted_for_a_dark_panel() {
    assert_eq!(repaint("stroke", "123456"), "stroke:#ffffff");
    assert_eq!(repaint("fill", "FfF"), "fill:#FfF");
    assert_eq!(repaint("fill", "ffff"), "fill:none");
    assert_eq!(
        paint_svg("<path style=\"fill:#466372;stroke:#000\"/><g style=\"fill:#ffffff\"/>"),
        "<path style=\"fill:none;stroke:#ffffff\"/><g style=\"fill:#ffffff\"/>"
    );
    assert_eq!(paint_svg("<svg/>"), "<svg/>");
    assert_eq!(paint_svg("fill:#1234567fill:#FFF"), "fill:none7fill:#FFF");
    assert_eq!(paint_svg("fill:#12 Fill:#123 fill:123"), "fill:#12 Fill:#123 fill:123");
    assert_eq!(paint_svg("\u{e9}stroke:#abc\u{e9}"), "\u{e9}stroke:#ffffff\u{e9}");
    assert_eq!(paint_svg("stroke:#stroke:#0f0"), "stroke:#stroke:#ffffff");
}

#[test]
fn a_login_goes_from_form_to_browser() {
    let mut login = Login::new(true, Browser::WebKit);
    assert!(matches!(login.submitted(false, "x"), Ask::End(None)));
    assert!(matches!(login.submitted(true, " \t"), Ask::End(None)));
    match login.submitted(true, "x/") {
        Ask::Probe(url) => assert_eq!(url, "https://x"),
        other => panic!("{other:?}"),
    }
    match login.probed(Some("refused".to_string())) {
        Ask::Alert(text) => assert_eq!(
            text,
            "https://x does not look like a Filestash server.\n\nrefused"
        ),
        other => panic!("{other:?}"),
    }
    match login.probed(None) {
        Ask::Browse(url) => assert_eq!(url, "https://x"),
        other => panic!("{other:?}"),
    }
    assert!(matches!(login.browsed(Ok(None)), Ask::End(None)));
    match login.browsed(Ok(Some("t".to_string()))) {
        Ask::End(Some(creds)) => {
            assert_eq!((creds.url.as_str(), creds.token.as_str()), ("https://x", "t"));
            assert!(creds.insecure);
        }
        other => panic!("{other:?}"),
    }
    match login.browsed(Err("no window".to_string())) {
        Ask::Alert(text) => assert_eq!(
            text,
            "no window\n\nInstall webkit2gtk, or use --token / --user from the command line."
        ),
        other => panic!("{other:?}"),
    }
    match Login::new(false, Browser::WebView).browsed(Err("no window".to_string())) {
        Ask::Alert(text) => assert_eq!(
            text,
            "no window\n\nInstall the WebView2 runtime, or use --token / --user from the command line."
        ),
        other => panic!("{other:?}"),
    }
}

#[test]
fn a_form_is_submitted_or_cancelled() {
    assert_eq!(DialogState::Open.outcome(), None);
    assert_eq!(DialogState::Open.command(0x1_0001).outcome(), Some(true));
    assert_eq!(DialogState::Open.command(2).outcome(), Some(false));
    assert_eq!(DialogState::Open.command(101), DialogState::Open);
    assert_eq!(DialogState::Closed.outcome(), Some(false));
}

#[test]
fn a_picked_entry_does_what_it_says() {
    assert_eq!(picked(Item::Browse.command(), false), Pick::Send(TrayEvent::Browse));
    assert_eq!(picked(Item::Login.command(), false), Pick::Prompt);
    assert_eq!(picked(Item::Logout.command(), false), Pick::Send(TrayEvent::Logout));
    assert_eq!(picked(Item::Logs.command(), false), Pick::ShowLog);
    assert_eq!(
        picked(Item::Autostart.command(), true),
        Pick::Autostart { start: false, opt_out: true }
    );
    assert_eq!(
        picked(Item::Autostart.command(), false),
        Pick::Autostart { start: true, opt_out: false }
    );
    assert_eq!(picked(Item::Restart.command(), true), Pick::Send(TrayEvent::Restart));
    assert_eq!(picked(Item::Quit.command(), true), Pick::Send(TrayEvent::Quit));
    assert_eq!(picked(Item::Separator.command(), true), Pick::Nothing);
    assert_eq!(picked(99, true), Pick::Nothing);
}

#[test]
fn the_menu_is_replaced_only_when_the_session_changes() {
    let mut hung = Hung::new();
    assert!(!hung.set(false));
    assert!(hung.set(true));
    assert!(!hung.set(true));
    assert!(hung.set(false));
}

#[test]
fn folders_open_in_a_file_manager() {
    let files = Some("System;FileManager;".to_string());
    let editor = Some("Utility;TextEditor".to_string());
    let near = Some("FileManagers".to_string());
    assert_eq!(file_manager(&Some(files.clone()), &vec![]), Manager::Usual);
    assert_eq!(
        file_manager(&Some(editor.clone()), &vec![None, near.clone(), files.clone(), files]),
        Manager::Other(2)
    );
    assert_eq!(file_manager(&None, &vec![editor, near]), Manager::Missing);
}

#[test]
fn the_trays_own_noise_is_left_out() {
    assert!(is_noise(Some("libayatana-appindicator"), None));
    assert!(is_noise(None, Some("gdk: thaw_toplevel_updates failed")));
    assert!(!is_noise(Some("Gtk"), Some("something else")));
}
