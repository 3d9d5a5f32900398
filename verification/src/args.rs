//! What the command line comes to.
use crate::gui::{blank, credentials_view, Credentials, CredentialsView};
use crate::sdk::{normalize_server, server_url};
use crate::text::chars_of;
use vstd::prelude::*;

verus! {

/// What stands on the command line. `P` is what names a place on disk.
pub struct Args<P> {
    pub mount: P,
    pub server: Option<String>,
    pub token: Option<String>,
    pub user: Option<String>,
    pub password: Option<String>,
    pub storage: Option<String>,
    pub data: Option<P>,
    pub insecure: bool,
}

/// What the command line comes to.
pub struct Setup<P> {
    pub mount: P,
    pub data: P,
    pub prefill: Credentials,
    pub credentials: Option<Credentials>,
    pub stored: bool,
    pub prompt_login: bool,
}

/// An optional text by its characters.
pub open spec fn text_view(s: Option<String>) -> Option<Seq<char>> {
    match s {
        Some(s) => Some(s@),
        None => None,
    }
}

/// A text, or nothing.
pub open spec fn or_blank(s: Option<Seq<char>>) -> Seq<char> {
    match s {
        Some(s) => s,
        None => Seq::empty(),
    }
}

/// What is wrong with the command line, if anything is.
pub open spec fn misuse(server: bool, token: bool, user: bool) -> Option<Seq<char>> {
    if token && user {
        Some("--token and --user cannot be combined"@)
    } else if !server && (token || user) {
        Some("--token and --user need --server"@)
    } else {
        None
    }
}

/// The credentials to log in with: those of the command line, or those that were
/// stored if it names no server.
pub open spec fn chosen(
    server: Option<Seq<char>>,
    token: Option<Seq<char>>,
    user: Option<Seq<char>>,
    password: Option<Seq<char>>,
    storage: Option<Seq<char>>,
    insecure: bool,
    stored: Option<CredentialsView>,
) -> Option<CredentialsView> {
    match (server, token, user) {
        (Some(url), Some(token), _) => Some(CredentialsView { url, token, insecure, ..blank() }),
        (Some(url), None, Some(user)) => Some(
            CredentialsView {
                url,
                user,
                password: or_blank(password),
                storage: or_blank(storage),
                insecure,
                ..blank()
            },
        ),
        (Some(_), None, None) => None,
        (None, _, _) => stored,
    }
}

/// The server of the command line as a URL.
pub open spec fn server_of(server: Option<String>) -> Option<Seq<char>> {
    match server {
        Some(s) => Some(server_url(s@)),
        None => None,
    }
}

fn or_default(s: Option<String>) -> (r: String)
    ensures
        r@ == or_blank(text_view(s)),
{
    match s {
        Some(s) => s,
        None => {
            let r = String::new();
            proof {
                assert(r@ =~= Seq::empty());
            }
            r
        },
    }
}

fn check(server: bool, token: bool, user: bool) -> (r: Option<String>)
    ensures
        text_view(r) == misuse(server, token, user),
{
    if token && user {
        Some("--token and --user cannot be combined".to_owned())
    } else if !server && (token || user) {
        Some("--token and --user need --server".to_owned())
    } else {
        None
    }
}

fn choose_credentials(
    server: Option<String>,
    token: Option<String>,
    user: Option<String>,
    password: Option<String>,
    storage: Option<String>,
    insecure: bool,
    stored: Option<Credentials>,
) -> (r: Option<Credentials>)
    ensures
        credentials_view(r) == chosen(
            text_view(server),
            text_view(token),
            text_view(user),
            text_view(password),
            text_view(storage),
            insecure,
            credentials_view(stored),
        ),
{
    match (server, token, user) {
        (Some(url), Some(token), _) => Some(
            Credentials { url, token, insecure, ..Credentials::default() },
        ),
        (Some(url), None, Some(user)) => Some(
            Credentials {
                url,
                user,
                password: or_default(password),
                storage: or_default(storage),
                insecure,
                ..Credentials::default()
            },
        ),
        (Some(_), None, None) => None,
        (None, _, _) => stored,
    }
}

fn to_url(server: &Option<String>) -> (r: Option<String>)
    ensures
        text_view(r) == server_of(*server),
{
    match server {
        Some(s) => Some(normalize_server(s.as_str())),
        None => None,
    }
}

/// What the command line comes to. `stored` are the credentials of the last
/// session, `default_data` is where data is kept if nothing else is said.
pub fn setup<P>(args: Args<P>, stored: Option<Credentials>, default_data: P) -> (r: Result<
    Setup<P>,
    String,
>)
    ensures
        match misuse(args.server is Some, args.token is Some, args.user is Some) {
            Some(text) => r matches Err(e) && e@ == text,
            None => {
                let server = server_of(args.server);
                let credentials = chosen(
                    server,
                    text_view(args.token),
                    text_view(args.user),
                    text_view(args.password),
                    text_view(args.storage),
                    args.insecure,
                    credentials_view(stored),
                );
                &&& r matches Ok(s)
                &&& s.mount == args.mount
                &&& s.data == match args.data {
                    Some(d) => d,
                    None => default_data,
                }
                &&& credentials_view(s.credentials) == credentials
                &&& s.stored == (server is None && credentials is Some)
                &&& s.prompt_login == (server is Some && credentials is None)
                &&& s.prefill@ == (CredentialsView {
                    url: or_blank(server),
                    insecure: args.insecure,
                    ..blank()
                })
            },
        },
{
    match check(args.server.is_some(), args.token.is_some(), args.user.is_some()) {
        Some(e) => {
            return Err(e);
        },
        None => {},
    }
    let server = to_url(&args.server);
    let named = server.is_some();
    let credentials = choose_credentials(
        to_url(&args.server),
        args.token,
        args.user,
        args.password,
        args.storage,
        args.insecure,
        stored,
    );
    let found = credentials.is_some();
    Ok(
        Setup {
            mount: args.mount,
            data: match args.data {
                Some(d) => d,
                None => default_data,
            },
            prefill: Credentials {
                url: or_default(server),
                insecure: args.insecure,
                ..Credentials::default()
            },
            credentials,
            stored: !named && found,
            prompt_login: named && !found,
        },
    )
}

/// What stands on the command line of the client that lives in a tray.
pub struct TrayArgs<P> {
    pub server: Option<String>,
    pub token: Option<String>,
    pub user: Option<String>,
    pub password: Option<String>,
    pub storage: Option<String>,
    pub config: Option<P>,
    pub insecure: bool,
    pub unregister: bool,
}

/// What that command line comes to.
pub struct TraySetup<P> {
    pub root: P,
    pub data: P,
    pub config_path: P,
    pub unregister: bool,
    pub prefill_url: Option<String>,
    pub credentials: Option<Credentials>,
    pub prompt_login: bool,
}

/// A password is missing.
pub open spec fn lacks_password(user: bool, password: Option<Seq<char>>) -> bool {
    user && or_blank(password).len() == 0
}

/// What the command line of the client that lives in a tray comes to. Nobody can
/// be asked for a password there.
pub fn tray_setup<P>(
    args: TrayArgs<P>,
    stored: Option<Credentials>,
    root: P,
    data: P,
    default_config: P,
) -> (r: Result<TraySetup<P>, String>)
    ensures
        match misuse(args.server is Some, args.token is Some, args.user is Some) {
            Some(text) => r matches Err(e) && e@ == text,
            None => if lacks_password(args.user is Some, text_view(args.password)) {
                r matches Err(e) && e@ == "--user needs --password (or FILESTASH_PASSWORD)"@
            } else {
                let server = server_of(args.server);
                let credentials = chosen(
                    server,
                    text_view(args.token),
                    text_view(args.user),
                    text_view(args.password),
                    text_view(args.storage),
                    args.insecure,
                    credentials_view(stored),
                );
                &&& r matches Ok(s)
                &&& s.root == root
                &&& s.data == data
                &&& s.config_path == match args.config {
                    Some(c) => c,
                    None => default_config,
                }
                &&& s.unregister == args.unregister
                &&& text_view(s.prefill_url) == server
                &&& credentials_view(s.credentials) == credentials
                &&& s.prompt_login == (server is Some && credentials is None)
            },
        },
{
    match check(args.server.is_some(), args.token.is_some(), args.user.is_some()) {
        Some(e) => {
            return Err(e);
        },
        None => {},
    }
    let blank_password = match &args.password {
        Some(p) => {
            let cs = chars_of(p.as_str());
            cs.len() == 0
        },
        None => true,
    };
    if args.user.is_some() && blank_password {
        return Err("--user needs --password (or FILESTASH_PASSWORD)".to_owned());
    }
    let server = to_url(&args.server);
    let credentials = choose_credentials(
        to_url(&args.server),
        args.token,
        args.user,
        args.password,
        args.storage,
        args.insecure,
        stored,
    );
    let prompt_login = server.is_some() && credentials.is_none();
    Ok(
        TraySetup {
            root,
            data,
            config_path: match args.config {
                Some(c) => c,
                None => default_config,
            },
            unregister: args.unregister,
            prefill_url: server,
            credentials,
            prompt_login,
        },
    )
}

/// Whether somebody has to be asked for a password.
pub fn asks_password(user: &Option<String>, password: &Option<String>) -> (r: bool)
    ensures
        r == lacks_password(user is Some, text_view(*password)),
{
    let blank_password = match password {
        Some(p) => {
            let cs = chars_of(p.as_str());
            cs.len() == 0
        },
        None => true,
    };
    user.is_some() && blank_password
}

/// A server on the command line always wins over a stored session: what was
/// stored decides nothing.
pub proof fn law_a_named_server_ignores_the_stored_session(
    url: Seq<char>,
    token: Option<Seq<char>>,
    user: Option<Seq<char>>,
    password: Option<Seq<char>>,
    storage: Option<Seq<char>>,
    insecure: bool,
    a: Option<CredentialsView>,
    b: Option<CredentialsView>,
)
    ensures
        chosen(Some(url), token, user, password, storage, insecure, a) == chosen(
            Some(url),
            token,
            user,
            password,
            storage,
            insecure,
            b,
        ),
{
}

} // verus!
