use fdrive::app_config::{AppConfig, WindowsConfig};
use fdrive::config::{
    forget, ignore, recall, recall_server, remember, ConfigFile, Ignore, Session, Update,
};
use fdrive::path::RelPath;

#[derive(Default)]
struct Data {
    text: Option<String>,
    writes: usize,
}

impl Data {
    fn of(text: &str) -> Data {
        Data {
            text: Some(text.to_string()),
            writes: 0,
        }
    }

    fn load(&self) -> ConfigFile<toml::Table> {
        let text = self.text.clone().unwrap_or_default();
        let mut rest: toml::Table = toml::from_str(&text).unwrap();
        let session = rest.remove("session").map(|s| Session {
            url: s["url"].as_str().unwrap().to_string(),
            token: s["token"].as_str().unwrap().to_string(),
            insecure: s.get("insecure").is_some_and(|i| i.as_bool().unwrap()),
        });
        ConfigFile { session, rest }
    }

    fn apply(&mut self, update: Update<toml::Table>) {
        match update {
            Update::Keep => {}
            Update::Delete => self.text = None,
            Update::Replace(config) => {
                let mut table = config.rest;
                if let Some(s) = config.session {
                    let mut session = toml::Table::new();
                    session.insert("url".to_string(), toml::Value::String(s.url));
                    session.insert("token".to_string(), toml::Value::String(s.token));
                    session.insert("insecure".to_string(), toml::Value::Boolean(s.insecure));
                    table.insert("session".to_string(), toml::Value::Table(session));
                }
                self.text = Some(toml::to_string_pretty(&table).unwrap());
                self.writes += 1;
            }
        }
    }

    fn remember(&mut self, url: &str, token: &str, insecure: bool) {
        let config = self.load();
        let bare = config.rest.is_empty();
        self.apply(remember(config, bare, url, token, insecure));
    }

    fn forget(&mut self) {
        let config = self.load();
        let bare = config.rest.is_empty();
        self.apply(forget(config, bare));
    }

    fn recall(&self) -> Option<Session> {
        recall(&self.load())
    }

    fn recall_server(&self) -> Option<String> {
        recall_server(&self.load())
    }

    fn ignore(&self) -> Ignore {
        let config = self.load();
        let set = config.rest.get("sync").and_then(|s| s.get("ignore"));
        ignore(set.map(|names| {
            let names = names.as_array().unwrap();
            names
                .iter()
                .map(|n| n.as_str().unwrap().to_string())
                .collect()
        }))
    }
}

#[test]
fn session_round_trip() {
    let mut data = Data::default();
    assert!(data.recall().is_none());
    data.remember("https://demo.filestash.app", "TOKEN", false);
    let session = data.recall().unwrap();
    assert_eq!(session.url, "https://demo.filestash.app");
    assert_eq!(session.token, "TOKEN");
    assert!(!session.insecure);
    data.forget();
    assert!(data.recall().is_none());
    assert_eq!(
        data.recall_server().as_deref(),
        Some("https://demo.filestash.app"),
        "logout keeps the server url for the next login"
    );
}

#[test]
fn forget_without_a_session_removes_an_empty_config() {
    let mut data = Data::default();
    data.forget();
    assert!(data.recall_server().is_none());
    assert!(data.text.is_none(), "empty config is removed");
}

#[test]
fn login_and_logout_leave_the_rest_of_the_config_alone() {
    let mut data = Data::of("[sync]\nignore = [\"node_modules\"]\n");
    data.remember("https://x", "T", true);
    assert!(data.recall().unwrap().insecure);
    data.forget();
    let text = data.text.clone().unwrap();
    assert!(
        text.contains("node_modules"),
        "foreign table survives: {text}"
    );
    assert!(!text.contains("\"T\""), "token is gone: {text}");
    assert!(data.recall().is_none(), "no usable session remains");
    assert_eq!(data.recall_server().as_deref(), Some("https://x"));
}

#[test]
fn ignore_defaults_cover_the_usual_junk() {
    let ignore = Data::default().ignore();
    assert!(ignore.matches(&RelPath::new("a/node_modules/b/c.js")));
    assert!(ignore.matches(&RelPath::new(".DS_Store")));
    assert!(!ignore.matches(&RelPath::new("src/main.rs")));
    assert!(!ignore.matches(&RelPath::new("")));
}

#[test]
fn ignore_is_configurable_and_an_empty_list_disables_it() {
    let ignore = Data::of("[sync]\nignore = [\"target\"]\n").ignore();
    assert!(ignore.matches(&RelPath::new("target/debug")));
    assert!(!ignore.matches(&RelPath::new(".DS_Store")));

    let none = Data::of("[sync]\nignore = []\n").ignore();
    assert!(!none.matches(&RelPath::new(".DS_Store")));
}

#[test]
fn login_leaves_the_ignore_rules_alone() {
    let mut data = Data::of("[sync]\nignore = [\"target\"]\n");
    data.remember("https://x", "T", false);
    assert!(data.ignore().matches(&RelPath::new("target")));
    assert_eq!(data.recall().unwrap().token, "T");
}

#[test]
fn an_unchanged_login_does_not_rewrite_the_file() {
    let mut data = Data::default();
    data.remember("https://x", "T", false);
    let annotated = format!("# user note\n{}", data.text.clone().unwrap());
    data.text = Some(annotated.clone());
    data.remember("https://x", "T", false);
    assert_eq!(data.text.unwrap(), annotated);
    assert_eq!(data.writes, 1);
}

#[test]
fn a_login_without_a_token_is_not_kept() {
    let mut data = Data::default();
    data.remember("https://x", "", false);
    data.remember("", "T", false);
    assert!(data.text.is_none());
}

fn app_config(text: &str) -> AppConfig {
    let table: toml::Table = toml::from_str(text).unwrap();
    AppConfig::of(table.get("windows").map(|w| {
        WindowsConfig::of(
            w.get("provider_name")
                .map(|v| v.as_str().unwrap().to_string()),
            w.get("allow_pinning").map(|v| v.as_bool().unwrap()),
            w.get("refresh_secs")
                .map(|v| v.as_integer().unwrap() as u64),
            w.get("icon").map(|v| v.as_str().unwrap().to_string()),
        )
    }))
}

#[test]
fn empty_toml_is_a_valid_config() {
    let config = app_config("");
    assert_eq!(config.windows.provider_name, "Filestash");
}

#[test]
fn provider_name_can_be_set() {
    let config = app_config("[windows]\nprovider_name = \"Custom\"");
    assert_eq!(config.windows.provider_name, "Custom");
    assert!(config.windows.allow_pinning);
    assert_eq!(config.windows.refresh_secs, 10);
    assert!(config.windows.icon.is_none());
}
