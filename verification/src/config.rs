//! What the user has set, and the session that is kept between runs.
use crate::path::RelPath;
use crate::text::{listed, pieces, same, split, strings_view};
use vstd::prelude::*;

verus! {

/// The name of the configuration file.
pub const FILE: &'static str = "fdrive.toml";

/// The names of files and directories that stay local.
#[derive(Debug, PartialEq)]
pub struct Ignore(Vec<String>);

/// One of the segments of `path` is one of the names.
pub open spec fn is_ignored(names: Set<Seq<char>>, path: Seq<char>) -> bool {
    exists|i: int| 0 <= i < split(path, '/').len() && names.contains(#[trigger] split(path, '/')[i])
}

/// The names that are ignored where nothing else is set.
pub open spec fn usual_junk() -> Set<Seq<char>> {
    set!["node_modules"@, ".DS_Store"@, "Thumbs.db"@, "desktop.ini"@]
}

impl View for Ignore {
    type V = Set<Seq<char>>;

    closed spec fn view(&self) -> Set<Seq<char>> {
        strings_view(self.0@).to_set()
    }
}

impl Default for Ignore {
    fn default() -> (r: Ignore)
        ensures
            r@ == usual_junk(),
    {
        let mut names: Vec<String> = Vec::new();
        names.push("node_modules".to_owned());
        names.push(".DS_Store".to_owned());
        names.push("Thumbs.db".to_owned());
        names.push("desktop.ini".to_owned());
        let r = Ignore(names);
        proof {
            let v = strings_view(names@);
            assert(v =~= seq!["node_modules"@, ".DS_Store"@, "Thumbs.db"@, "desktop.ini"@]);
            assert(v[0] == "node_modules"@ && v[1] == ".DS_Store"@ && v[2] == "Thumbs.db"@ && v[3]
                == "desktop.ini"@);
            assert(r@ =~= usual_junk());
        }
        r
    }
}

impl Ignore {
    /// Ignores the given names and no others.
    pub fn of(names: Vec<String>) -> (r: Ignore)
        ensures
            r@ == strings_view(names@).to_set(),
    {
        Ignore(names)
    }

    /// Whether a path, or a directory above it, has an ignored name.
    pub fn matches(&self, path: &RelPath) -> (r: bool)
        ensures
            r == is_ignored(self@, path@),
    {
        let names = pieces(path.as_str(), '/');
        let ghost parts = split(path@, '/');
        let mut i: usize = 0;
        while i < names.len()
            invariant
                i <= names@.len(),
                parts == split(path@, '/'),
                strings_view(names@) == parts,
                forall|j: int| #![trigger parts[j]] 0 <= j < i ==> !self@.contains(parts[j]),
            decreases names@.len() - i,
        {
            proof {
                assert(parts[i as int] == names@[i as int]@);
            }
            if listed(&self.0, names[i].as_str()) {
                proof {
                    assert(self@.contains(parts[i as int]));
                }
                return true;
            }
            i += 1;
        }
        false
    }
}

/// The ignored names: those that are set, else the usual ones.
pub fn ignore(set: Option<Vec<String>>) -> (r: Ignore)
    ensures
        r@ == match set {
            Some(names) => strings_view(names@).to_set(),
            None => usual_junk(),
        },
{
    match set {
        Some(names) => Ignore::of(names),
        None => Ignore::default(),
    }
}

/// What is needed to reach the server again.
#[derive(Debug, PartialEq)]
pub struct Session {
    pub url: String,
    pub token: String,
    pub insecure: bool,
}

impl Clone for Session {
    fn clone(&self) -> (r: Session)
        ensures
            r == *self,
    {
        Session { url: self.url.clone(), token: self.token.clone(), insecure: self.insecure }
    }
}

/// The session by its characters.
#[verifier::ext_equal]
pub struct SessionView {
    pub url: Seq<char>,
    pub token: Seq<char>,
    pub insecure: bool,
}

impl View for Session {
    type V = SessionView;

    open spec fn view(&self) -> SessionView {
        SessionView { url: self.url@, token: self.token@, insecure: self.insecure }
    }
}

/// An optional session by its characters.
pub open spec fn session_view(s: Option<Session>) -> Option<SessionView> {
    match s {
        Some(s) => Some(s@),
        None => None,
    }
}

/// The configuration file: the session, and the rest of what it holds, which is
/// the user's.
#[derive(Debug)]
pub struct ConfigFile<R> {
    pub session: Option<Session>,
    pub rest: R,
}

/// What is to be done with the configuration file.
#[derive(Debug)]
pub enum Update<R> {
    Keep,
    Delete,
    Replace(ConfigFile<R>),
}

/// A session that can be used: it has a server and a token.
pub open spec fn is_usable(s: SessionView) -> bool {
    s.url.len() > 0 && s.token.len() > 0
}

/// A session that is kept, if it can be used.
pub open spec fn recalled(session: Option<SessionView>) -> Option<SessionView> {
    match session {
        Some(s) => if is_usable(s) {
            Some(s)
        } else {
            None
        },
        None => None,
    }
}

/// The session that is kept, if it can be used.
pub fn recall<R>(config: &ConfigFile<R>) -> (r: Option<Session>)
    ensures
        session_view(r) == recalled(session_view(config.session)),
{
    match &config.session {
        Some(s) => if !s.url.as_str().is_empty() && !s.token.as_str().is_empty() {
            Some(s.clone())
        } else {
            None
        },
        None => None,
    }
}

/// The server of the session that is kept, also after a logout.
pub fn recall_server<R>(config: &ConfigFile<R>) -> (r: Option<String>)
    ensures
        match r {
            Some(url) => config.session is Some && url@ == config.session->0.url@ && url@.len() > 0,
            None => config.session is None || config.session->0.url@.len() == 0,
        },
{
    match &config.session {
        Some(s) => if !s.url.as_str().is_empty() {
            Some(s.url.clone())
        } else {
            None
        },
        None => None,
    }
}

/// The session once the user has logged out: the server without the token.
pub open spec fn logged_out(s: Option<SessionView>) -> Option<SessionView> {
    match s {
        Some(s) => Some(SessionView { url: s.url, token: Seq::empty(), insecure: s.insecure }),
        None => None,
    }
}

/// What becomes of the file when its session is to be `session`: nothing if that
/// is its session already and something is in it, no file if nothing is left
/// to keep, else the same file with that session.
pub open spec fn updated<R>(
    before: ConfigFile<R>,
    rest_is_empty: bool,
    session: Option<SessionView>,
    r: Update<R>,
) -> bool {
    if session is None && rest_is_empty {
        r is Delete
    } else if session_view(before.session) == session {
        r is Keep
    } else {
        r matches Update::Replace(after) && after.rest == before.rest && session_view(
            after.session,
        ) == session
    }
}

fn same_session(a: &Option<Session>, b: &Option<Session>) -> (r: bool)
    ensures
        r == (session_view(*a) == session_view(*b)),
{
    match (a, b) {
        (None, None) => true,
        (Some(a), Some(b)) => same(a.url.as_str(), b.url.as_str()) && same(
            a.token.as_str(),
            b.token.as_str(),
        ) && a.insecure == b.insecure,
        _ => false,
    }
}

fn update<R>(config: ConfigFile<R>, rest_is_empty: bool, session: Option<Session>) -> (r: Update<R>)
    ensures
        updated(config, rest_is_empty, session_view(session), r),
{
    if session.is_none() && rest_is_empty {
        Update::Delete
    } else if same_session(&config.session, &session) {
        Update::Keep
    } else {
        Update::Replace(ConfigFile { session, rest: config.rest })
    }
}

/// Keeps a session. One without a server or a token is not kept.
pub fn remember<R>(
    config: ConfigFile<R>,
    rest_is_empty: bool,
    url: &str,
    token: &str,
    insecure: bool,
) -> (r: Update<R>)
    ensures
        url@.len() == 0 || token@.len() == 0 ==> r is Keep,
        url@.len() > 0 && token@.len() > 0 ==> updated(
            config,
            rest_is_empty,
            Some(SessionView { url: url@, token: token@, insecure }),
            r,
        ),
{
    if url.is_empty() || token.is_empty() {
        return Update::Keep;
    }
    update(
        config,
        rest_is_empty,
        Some(Session { url: url.to_owned(), token: token.to_owned(), insecure }),
    )
}

/// Forgets the token of the session, but not its server.
pub fn forget<R>(config: ConfigFile<R>, rest_is_empty: bool) -> (r: Update<R>)
    ensures
        updated(config, rest_is_empty, logged_out(session_view(config.session)), r),
{
    let session = match &config.session {
        Some(s) => Some(
            Session { url: s.url.clone(), token: String::new(), insecure: s.insecure },
        ),
        None => None,
    };
    update(config, rest_is_empty, session)
}

/// The session that is in the file once it has been updated.
pub open spec fn session_after<R>(before: ConfigFile<R>, r: Update<R>) -> Option<SessionView> {
    match r {
        Update::Keep => session_view(before.session),
        Update::Delete => None,
        Update::Replace(after) => session_view(after.session),
    }
}

/// An update leaves exactly the session that was asked for, never touches the
/// rest of the file, and deletes the file only when nothing is left in it.
pub proof fn law_update_leaves_the_rest_alone<R>(
    before: ConfigFile<R>,
    rest_is_empty: bool,
    session: Option<SessionView>,
    r: Update<R>,
)
    requires
        updated(before, rest_is_empty, session, r),
    ensures
        session_after(before, r) == session,
        r matches Update::Replace(after) ==> after.rest == before.rest,
        r is Delete ==> rest_is_empty && session is None,
{
}

/// After a logout no session can be used, and the server is still known.
pub proof fn law_logout_keeps_the_server(s: SessionView)
    ensures
        logged_out(Some(s)) matches Some(t) && !is_usable(t) && t.url == s.url,
{
}

} // verus!
