//! Logging in at a desktop: a form that names a server, a look whether it is
//! one, and a browser window in which the user logs in there.
use crate::gui::{
    credentials_view, form_credentials, form_server, not_a_server, with_token, Credentials,
    CredentialsView,
};
use crate::sdk::server_url;
use crate::text::{concat, trim};
use vstd::prelude::*;

verus! {

/// What shows the browser window.
#[derive(Clone, Copy, Debug, PartialEq, Eq, Structural)]
pub enum Browser {
    WebKit,
    WebView,
}

/// What the user can do if there is no such window.
pub open spec fn advice_of(b: Browser) -> Seq<char> {
    match b {
        Browser::WebKit =>
            "\n\nInstall webkit2gtk, or use --token / --user from the command line."@,
        Browser::WebView =>
            "\n\nInstall the WebView2 runtime, or use --token / --user from the command line."@,
    }
}

impl Browser {
    /// What the user can do if there is no such window.
    pub fn advice(self) -> (r: &'static str)
        ensures
            r@ == advice_of(self),
    {
        match self {
            Browser::WebKit =>
                "\n\nInstall webkit2gtk, or use --token / --user from the command line.",
            Browser::WebView =>
                "\n\nInstall the WebView2 runtime, or use --token / --user from the command line.",
        }
    }
}

/// What a login asks for next.
#[derive(Debug)]
pub enum Ask {
    /// See whether there is a server at this address.
    Probe(String),
    /// Let the user log in at this address.
    Browse(String),
    /// Say this, and end without credentials.
    Alert(String),
    /// End, with credentials if there are any.
    End(Option<Credentials>),
}

/// The same by the characters.
#[verifier::ext_equal]
pub enum AskView {
    Probe(Seq<char>),
    Browse(Seq<char>),
    Alert(Seq<char>),
    End(Option<CredentialsView>),
}

impl View for Ask {
    type V = AskView;

    open spec fn view(&self) -> AskView {
        match *self {
            Ask::Probe(url) => AskView::Probe(url@),
            Ask::Browse(url) => AskView::Browse(url@),
            Ask::Alert(text) => AskView::Alert(text@),
            Ask::End(c) => AskView::End(credentials_view(c)),
        }
    }
}

/// A login under way.
#[derive(Debug)]
pub struct Login {
    url: String,
    insecure: bool,
    browser: Browser,
}

/// The same by the characters: the server that the form named, whether its
/// certificate may be any, and what shows the browser window.
#[verifier::ext_equal]
pub struct LoginView {
    pub url: Seq<char>,
    pub insecure: bool,
    pub browser: Browser,
}

impl View for Login {
    type V = LoginView;

    closed spec fn view(&self) -> LoginView {
        LoginView { url: self.url@, insecure: self.insecure, browser: self.browser }
    }
}

/// What comes of a form.
pub open spec fn after_form(l: LoginView, accepted: bool, raw: Seq<char>) -> (LoginView, AskView) {
    if accepted && trim(raw).len() > 0 {
        (LoginView { url: server_url(raw), ..l }, AskView::Probe(server_url(raw)))
    } else {
        (l, AskView::End(None))
    }
}

/// What comes of the look at the server, which may have failed with a text.
pub open spec fn after_probe(l: LoginView, fault: Option<Seq<char>>) -> AskView {
    match fault {
        None => AskView::Browse(l.url),
        Some(e) => AskView::Alert(l.url + " does not look like a Filestash server.\n\n"@ + e),
    }
}

/// What comes of the browser window: a token, nothing if it was closed, or the
/// text of what failed.
pub open spec fn after_browser(
    l: LoginView,
    got: Result<Option<Seq<char>>, Seq<char>>,
) -> AskView {
    match got {
        Ok(Some(token)) => AskView::End(Some(with_token(l.url, token, l.insecure))),
        Ok(None) => AskView::End(None),
        Err(e) => AskView::Alert(e + advice_of(l.browser)),
    }
}

/// The characters of what came of a browser window.
pub open spec fn got_view(
    got: Result<Option<String>, String>,
) -> Result<Option<Seq<char>>, Seq<char>> {
    match got {
        Ok(Some(token)) => Ok(Some(token@)),
        Ok(None) => Ok(None),
        Err(e) => Err(e@),
    }
}

impl Login {
    /// A login that is about to show its form.
    pub fn new(insecure: bool, browser: Browser) -> (r: Login)
        ensures
            r@ == (LoginView { url: Seq::empty(), insecure, browser }),
    {
        let r = Login { url: String::new(), insecure, browser };
        proof {
            assert(r@ =~= (LoginView { url: Seq::empty(), insecure, browser }));
        }
        r
    }

    /// The form was accepted or not, with this in its field.
    pub fn submitted(&mut self, accepted: bool, raw: &str) -> (r: Ask)
        ensures
            (final(self)@, r@) == after_form(old(self)@, accepted, raw@),
    {
        match form_server(accepted, raw) {
            None => Ask::End(None),
            Some(url) => {
                self.url = url.clone();
                Ask::Probe(url)
            },
        }
    }

    /// The server was looked at.
    pub fn probed(&self, fault: Option<String>) -> (r: Ask)
        ensures
            r@ == after_probe(
                self@,
                match fault {
                    Some(e) => Some(e@),
                    None => None,
                },
            ),
    {
        match fault {
            None => Ask::Browse(self.url.clone()),
            Some(e) => Ask::Alert(not_a_server(self.url.as_str(), e.as_str())),
        }
    }

    /// The browser window is closed.
    pub fn browsed(&self, got: Result<Option<String>, String>) -> (r: Ask)
        ensures
            r@ == after_browser(self@, got_view(got)),
    {
        match got {
            Err(e) => Ask::Alert(concat(e.as_str(), self.browser.advice())),
            Ok(token) => Ask::End(form_credentials(self.url.clone(), token, self.insecure)),
        }
    }
}

/// A login that is carried through ends with the token that the browser window
/// gave, for the server that was named and looked at.
pub proof fn law_a_login_is_for_the_server_that_was_looked_at(
    l: LoginView,
    raw: Seq<char>,
    token: Seq<char>,
)
    requires
        trim(raw).len() > 0,
    ensures
        ({
            let (named, first) = after_form(l, true, raw);
            &&& first == AskView::Probe(named.url)
            &&& after_probe(named, None) == AskView::Browse(named.url)
            &&& after_browser(named, Ok(Some(token))) == AskView::End(
                Some(with_token(named.url, token, l.insecure)),
            )
        }),
{
}

/// There are no credentials without a token out of the browser window.
pub proof fn law_no_credentials_without_a_token(
    l: LoginView,
    accepted: bool,
    raw: Seq<char>,
    fault: Option<Seq<char>>,
    got: Result<Option<Seq<char>>, Seq<char>>,
)
    ensures
        !(after_form(l, accepted, raw).1 matches AskView::End(Some(_))),
        !(after_probe(l, fault) matches AskView::End(Some(_))),
        (after_browser(l, got) matches AskView::End(Some(_))) ==> (got matches Ok(Some(_))),
{
}

/// How a form in a window of its own stands.
#[derive(Clone, Copy, Debug, PartialEq, Eq, Structural)]
pub enum DialogState {
    Closed,
    Open,
    Submitted,
    Cancelled,
}

/// Whether a form was submitted, once it is over.
pub open spec fn outcome_of(state: DialogState) -> Option<bool> {
    match state {
        DialogState::Open => None,
        DialogState::Submitted => Some(true),
        DialogState::Cancelled => Some(false),
        DialogState::Closed => Some(false),
    }
}

/// A form after a command.
pub open spec fn commanded(state: DialogState, command: u64) -> DialogState {
    if command % 0x10000 == ID_OK {
        DialogState::Submitted
    } else if command % 0x10000 == ID_CANCEL {
        DialogState::Cancelled
    } else {
        state
    }
}

/// The button that submits the form.
pub const ID_OK: u64 = 1;

/// The button that cancels it.
pub const ID_CANCEL: u64 = 2;

impl DialogState {
    /// Whether the form was submitted, once it is over.
    pub fn outcome(self) -> (r: Option<bool>)
        ensures
            r == outcome_of(self),
    {
        match self {
            DialogState::Open => None,
            DialogState::Submitted => Some(true),
            DialogState::Cancelled => Some(false),
            DialogState::Closed => Some(false),
        }
    }

    /// The form after a command, whose lower half names a control.
    pub fn command(self, command: u64) -> (r: DialogState)
        ensures
            r == commanded(self, command),
    {
        let id: u64 = command % 0x10000;
        if id == ID_OK {
            DialogState::Submitted
        } else if id == ID_CANCEL {
            DialogState::Cancelled
        } else {
            self
        }
    }
}

} // verus!
