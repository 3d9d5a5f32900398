//! What the tray shows and what a login form comes to.
use crate::config::{Session, SessionView};
use crate::sdk::{normalize_server, server_url};
use crate::text::{
    chars_of, concat, contains, holds_text, listed, pieces, same, split, starts, trim, trimmed,
};
use vstd::prelude::*;

verus! {

/// What is needed to log in.
#[derive(Debug)]
pub struct Credentials {
    pub url: String,
    pub token: String,
    pub user: String,
    pub password: String,
    pub storage: String,
    pub insecure: bool,
}

/// The same by the characters.
#[verifier::ext_equal]
pub struct CredentialsView {
    pub url: Seq<char>,
    pub token: Seq<char>,
    pub user: Seq<char>,
    pub password: Seq<char>,
    pub storage: Seq<char>,
    pub insecure: bool,
}

impl View for Credentials {
    type V = CredentialsView;

    open spec fn view(&self) -> CredentialsView {
        CredentialsView {
            url: self.url@,
            token: self.token@,
            user: self.user@,
            password: self.password@,
            storage: self.storage@,
            insecure: self.insecure,
        }
    }
}

/// Optional credentials by their characters.
pub open spec fn credentials_view(c: Option<Credentials>) -> Option<CredentialsView> {
    match c {
        Some(c) => Some(c@),
        None => None,
    }
}

/// Credentials with nothing in them.
pub open spec fn blank() -> CredentialsView {
    CredentialsView {
        url: Seq::empty(),
        token: Seq::empty(),
        user: Seq::empty(),
        password: Seq::empty(),
        storage: Seq::empty(),
        insecure: false,
    }
}

/// The credentials of a session.
pub open spec fn of_session(s: SessionView) -> CredentialsView {
    CredentialsView { url: s.url, token: s.token, insecure: s.insecure, ..blank() }
}

/// Credentials with a token.
pub open spec fn with_token(
    url: Seq<char>,
    token: Seq<char>,
    insecure: bool,
) -> CredentialsView {
    CredentialsView { url, token, insecure, ..blank() }
}

impl Default for Credentials {
    fn default() -> (r: Credentials)
        ensures
            r@ == blank(),
    {
        let r = Credentials {
            url: String::new(),
            token: String::new(),
            user: String::new(),
            password: String::new(),
            storage: String::new(),
            insecure: false,
        };
        proof {
            assert(r@ =~= blank());
        }
        r
    }
}

impl Clone for Credentials {
    fn clone(&self) -> (r: Credentials)
        ensures
            r@ == self@,
    {
        Credentials {
            url: self.url.clone(),
            token: self.token.clone(),
            user: self.user.clone(),
            password: self.password.clone(),
            storage: self.storage.clone(),
            insecure: self.insecure,
        }
    }
}

impl Credentials {
    /// The credentials of a session.
    pub fn of(session: Session) -> (r: Credentials)
        ensures
            r@ == of_session(session@),
    {
        Credentials {
            url: session.url,
            token: session.token,
            insecure: session.insecure,
            ..Credentials::default()
        }
    }
}

/// What the user asks for at the tray.
#[derive(Clone, Copy, Debug, PartialEq, Eq, Structural)]
pub enum TrayEvent {
    Browse,
    Login,
    Logout,
    Restart,
    Quit,
}

/// What the tray shows.
#[derive(Clone, Copy, Debug, PartialEq, Eq, Structural)]
pub enum Status {
    LoggedOut,
    Synced,
    Syncing,
    Error,
}

impl Default for Status {
    fn default() -> (r: Status)
        ensures
            r == Status::LoggedOut,
    {
        Status::LoggedOut
    }
}

/// What is written at the tray.
pub open spec fn tip_of(s: Status) -> Seq<char> {
    match s {
        Status::LoggedOut => "Filestash — not signed in"@,
        Status::Synced => "Filestash"@,
        Status::Syncing => "Filestash — syncing"@,
        Status::Error => "Filestash — sync error"@,
    }
}

/// The name of the icon at the tray.
pub open spec fn icon_of(s: Status) -> Seq<char> {
    match s {
        Status::LoggedOut => "icon-base"@,
        Status::Synced => "icon-ok"@,
        Status::Syncing => "icon-sync"@,
        Status::Error => "icon-error"@,
    }
}

impl Status {
    /// What is written at the tray.
    pub fn tip(self) -> (r: &'static str)
        ensures
            r@ == tip_of(self),
    {
        match self {
            Status::LoggedOut => "Filestash — not signed in",
            Status::Synced => "Filestash",
            Status::Syncing => "Filestash — syncing",
            Status::Error => "Filestash — sync error",
        }
    }

    /// The name of the icon at the tray.
    pub fn icon_name(self) -> (r: &'static str)
        ensures
            r@ == icon_of(self),
    {
        match self {
            Status::LoggedOut => "icon-base",
            Status::Synced => "icon-ok",
            Status::Syncing => "icon-sync",
            Status::Error => "icon-error",
        }
    }
}

/// An entry of the menu at the tray.
#[derive(Clone, Copy, Debug, PartialEq, Eq, Structural)]
pub enum Item {
    Browse,
    Logs,
    Autostart,
    Login,
    Logout,
    Restart,
    Separator,
    Quit,
}

/// The entries of the menu on a desktop.
pub open spec fn menu_of(signed_in: bool, has_manager: bool) -> Seq<Item> {
    if signed_in && has_manager {
        seq![Item::Browse, Item::Logout, Item::Restart, Item::Separator, Item::Quit]
    } else if signed_in {
        seq![Item::Logout, Item::Restart, Item::Separator, Item::Quit]
    } else {
        seq![Item::Login, Item::Separator, Item::Quit]
    }
}

/// The menu on a desktop where folders can be opened with a file manager, if
/// there is one.
pub fn menu(signed_in: bool, has_manager: bool) -> (r: Vec<Item>)
    ensures
        r@ == menu_of(signed_in, has_manager),
{
    let mut items: Vec<Item> = Vec::new();
    if signed_in {
        if has_manager {
            items.push(Item::Browse);
        }
        items.push(Item::Logout);
        items.push(Item::Restart);
    } else {
        items.push(Item::Login);
    }
    items.push(Item::Separator);
    items.push(Item::Quit);
    items
}

/// The entries of the menu of a tray.
pub open spec fn tray_menu_of(status: Status) -> Seq<Item> {
    if status != Status::LoggedOut {
        seq![
            Item::Browse,
            Item::Logs,
            Item::Autostart,
            Item::Separator,
            Item::Logout,
            Item::Restart,
            Item::Quit,
        ]
    } else {
        seq![Item::Login, Item::Autostart, Item::Quit]
    }
}

/// The menu of a tray that can start with the session.
pub fn tray_menu(status: Status) -> (r: Vec<Item>)
    ensures
        r@ == tray_menu_of(status),
{
    let mut items: Vec<Item> = Vec::new();
    if status != Status::LoggedOut {
        items.push(Item::Browse);
        items.push(Item::Logs);
        items.push(Item::Autostart);
        items.push(Item::Separator);
        items.push(Item::Logout);
        items.push(Item::Restart);
    } else {
        items.push(Item::Login);
        items.push(Item::Autostart);
    }
    items.push(Item::Quit);
    items
}

/// The number by which an entry of the menu is picked; that of a separator is
/// never picked.
pub open spec fn command_of(item: Item) -> u32 {
    match item {
        Item::Separator => 0,
        Item::Browse => 1,
        Item::Login => 2,
        Item::Logout => 3,
        Item::Restart => 4,
        Item::Quit => 5,
        Item::Logs => 6,
        Item::Autostart => 7,
    }
}

impl Item {
    /// The number by which the entry is picked.
    pub fn command(self) -> (r: u32)
        ensures
            r == command_of(self),
    {
        match self {
            Item::Separator => 0,
            Item::Browse => 1,
            Item::Login => 2,
            Item::Logout => 3,
            Item::Restart => 4,
            Item::Quit => 5,
            Item::Logs => 6,
            Item::Autostart => 7,
        }
    }
}

/// What a picked entry leads to.
#[derive(Clone, Copy, Debug, PartialEq, Eq, Structural)]
pub enum Pick {
    /// Tell the client.
    Send(TrayEvent),
    /// Show the login form.
    Prompt,
    /// Open the log.
    ShowLog,
    /// Start with the session from now on, or no longer.
    Autostart { start: bool, opt_out: bool },
    /// Nothing was picked.
    Nothing,
}

/// What picking an entry means, when the client now starts with the session or
/// does not.
pub open spec fn picked_item(item: Item, autostart: bool) -> Pick {
    match item {
        Item::Browse => Pick::Send(TrayEvent::Browse),
        Item::Login => Pick::Prompt,
        Item::Logout => Pick::Send(TrayEvent::Logout),
        Item::Restart => Pick::Send(TrayEvent::Restart),
        Item::Quit => Pick::Send(TrayEvent::Quit),
        Item::Logs => Pick::ShowLog,
        Item::Autostart => Pick::Autostart { start: !autostart, opt_out: autostart },
        Item::Separator => Pick::Nothing,
    }
}

/// What the number of a picked entry leads to.
pub fn picked(command: u32, autostart: bool) -> (r: Pick)
    ensures
        forall|item: Item| command == #[trigger] command_of(item) ==> r == picked_item(item, autostart),
        (forall|item: Item| command != #[trigger] command_of(item)) ==> r == Pick::Nothing,
{
    proof {
        assert(command_of(Item::Browse) == 1 && command_of(Item::Login) == 2);
        assert(command_of(Item::Logout) == 3 && command_of(Item::Restart) == 4);
        assert(command_of(Item::Quit) == 5 && command_of(Item::Logs) == 6);
        assert(command_of(Item::Autostart) == 7);
    }
    match command {
        1 => Pick::Send(TrayEvent::Browse),
        2 => Pick::Prompt,
        3 => Pick::Send(TrayEvent::Logout),
        4 => Pick::Send(TrayEvent::Restart),
        5 => Pick::Send(TrayEvent::Quit),
        6 => Pick::ShowLog,
        7 => Pick::Autostart { start: !autostart, opt_out: autostart },
        _ => Pick::Nothing,
    }
}

/// The menu that hangs at the tray.
#[derive(Clone, Copy, Debug, PartialEq, Eq, Structural)]
pub struct Hung {
    pub signed_in: bool,
}

impl Hung {
    /// The menu of a tray that was just put up.
    pub fn new() -> (r: Hung)
        ensures
            !r.signed_in,
    {
        Hung { signed_in: false }
    }

    /// Notes whether someone is signed in, and tells whether the menu must be
    /// replaced.
    pub fn set(&mut self, signed_in: bool) -> (r: bool)
        ensures
            final(self).signed_in == signed_in,
            r == (old(self).signed_in != signed_in),
    {
        let other = self.signed_in != signed_in;
        self.signed_in = signed_in;
        other
    }
}

/// A program with these categories, parted by semicolons, is a file manager.
pub open spec fn manages_files(categories: Option<Seq<char>>) -> bool {
    match categories {
        Some(c) => split(c, ';').contains("FileManager"@),
        None => false,
    }
}

/// The characters of categories.
pub open spec fn categories_view(c: Option<String>) -> Option<Seq<char>> {
    match c {
        Some(c) => Some(c@),
        None => None,
    }
}

/// Whether a program is a file manager.
pub fn is_file_manager(categories: &Option<String>) -> (r: bool)
    ensures
        r == manages_files(categories_view(*categories)),
{
    match categories {
        Some(c) => listed(&pieces(c.as_str(), ';'), "FileManager"),
        None => false,
    }
}

/// The program that opens folders.
#[derive(Clone, Copy, Debug, PartialEq, Eq, Structural)]
pub enum Manager {
    /// The one that opens them by default.
    Usual,
    /// The one at this place of all that can.
    Other(usize),
    /// There is none.
    Missing,
}

/// Picks the program that opens folders: the usual one if it is a file manager,
/// else the first file manager of all that can.
pub fn file_manager(usual: &Option<Option<String>>, all: &Vec<Option<String>>) -> (r: Manager)
    ensures
        match r {
            Manager::Usual => *usual matches Some(c) && manages_files(categories_view(c)),
            Manager::Other(i) => {
                &&& !(*usual matches Some(c) && manages_files(categories_view(c)))
                &&& i < all@.len()
                &&& manages_files(categories_view(all@[i as int]))
                &&& forall|j: int|
                    0 <= j < i ==> !manages_files(categories_view(#[trigger] all@[j]))
            },
            Manager::Missing => {
                &&& !(*usual matches Some(c) && manages_files(categories_view(c)))
                &&& forall|j: int|
                    0 <= j < all@.len() ==> !manages_files(categories_view(#[trigger] all@[j]))
            },
        },
{
    if let Some(c) = usual {
        if is_file_manager(c) {
            return Manager::Usual;
        }
    }
    let mut i: usize = 0;
    while i < all.len()
        invariant
            i <= all@.len(),
            !(*usual matches Some(c) && manages_files(categories_view(c))),
            forall|j: int| 0 <= j < i ==> !manages_files(categories_view(#[trigger] all@[j])),
        decreases all@.len() - i,
    {
        if is_file_manager(&all[i]) {
            return Manager::Other(i);
        }
        i = i + 1;
    }
    Manager::Missing
}

/// Whether a line of the desktop's log is noise of the tray itself, to be left
/// out.
pub fn is_noise(domain: Option<&str>, message: Option<&str>) -> (r: bool)
    ensures
        r == ((domain matches Some(d) && d@ == "libayatana-appindicator"@) || (message matches Some(
            m,
        ) && holds_text(m@, "thaw_toplevel_updates"@))),
{
    let own = match domain {
        Some(d) => same(d, "libayatana-appindicator"),
        None => false,
    };
    let thaw = match message {
        Some(m) => contains(m, "thaw_toplevel_updates"),
        None => false,
    };
    own || thaw
}

/// The server that a login form names: none if it was not submitted or left
/// blank.
pub fn form_server(accepted: bool, raw: &str) -> (r: Option<String>)
    ensures
        r is Some <==> accepted && trim(raw@).len() > 0,
        r matches Some(url) ==> url@ == server_url(raw@),
{
    let bare = trimmed(raw);
    let cs = chars_of(bare.as_str());
    if !accepted || cs.len() == 0 {
        None
    } else {
        Some(normalize_server(raw))
    }
}

/// The credentials after a login in a browser window, which may end without a
/// token.
pub fn form_credentials(url: String, token: Option<String>, insecure: bool) -> (r: Option<
    Credentials,
>)
    ensures
        credentials_view(r) == match token {
            Some(t) => Some(with_token(url@, t@, insecure)),
            None => None,
        },
{
    match token {
        Some(token) => Some(Credentials { url, token, insecure, ..Credentials::default() }),
        None => None,
    }
}

/// What is written if a server does not answer as one.
pub fn not_a_server(url: &str, error: &str) -> (r: String)
    ensures
        r@ == url@ + " does not look like a Filestash server.\n\n"@ + error@,
{
    let mut s = concat(url, " does not look like a Filestash server.\n\n");
    s.append(error);
    s
}

/// The colours of an icon.
pub const PAINT: &'static str = "(stroke|fill):#([0-9a-fA-F]{3,6})";

/// A colour is white.
pub open spec fn is_white(hex: Seq<char>) -> bool {
    &&& hex.len() == 3 || hex.len() == 6
    &&& forall|i: int| 0 <= i < hex.len() ==> (#[trigger] hex[i] == 'f' || hex[i] == 'F')
}

fn white(hex: &str) -> (r: bool)
    ensures
        r == is_white(hex@),
{
    let cs = chars_of(hex);
    if cs.len() != 3 && cs.len() != 6 {
        return false;
    }
    let mut i: usize = 0;
    while i < cs.len()
        invariant
            i <= cs@.len(),
            cs@ == hex@,
            cs@.len() == 3 || cs@.len() == 6,
            forall|j: int| #![trigger cs@[j]] 0 <= j < i ==> (cs@[j] == 'f' || cs@[j] == 'F'),
        decreases cs@.len() - i,
    {
        if cs[i] != 'f' && cs[i] != 'F' {
            proof {
                assert(hex@[i as int] == cs@[i as int]);
            }
            return false;
        }
        i += 1;
    }
    true
}

/// A colour of an icon for a dark panel: lines are white, and areas are empty
/// unless they are white.
pub open spec fn repainted(what: Seq<char>, hex: Seq<char>) -> Seq<char> {
    if what == "stroke"@ {
        "stroke:#ffffff"@
    } else if is_white(hex) {
        what + ":#"@ + hex
    } else {
        "fill:none"@
    }
}

/// See `repainted`.
pub fn repaint(what: &str, hex: &str) -> (r: String)
    ensures
        r@ == repainted(what@, hex@),
{
    if same(what, "stroke") {
        "stroke:#ffffff".to_owned()
    } else if white(hex) {
        let mut s = concat(what, ":#");
        s.append(hex);
        s
    } else {
        "fill:none".to_owned()
    }
}

/// The character is a digit of a number to the base 16.
pub open spec fn is_hex(c: char) -> bool {
    ('0' <= c && c <= '9') || ('a' <= c && c <= 'f') || ('A' <= c && c <= 'F')
}

/// How many such digits a text begins with, up to a number.
pub open spec fn hex_run(s: Seq<char>, most: nat) -> nat
    decreases most,
{
    if most == 0 || s.len() == 0 || !is_hex(s[0]) {
        0
    } else {
        1 + hex_run(s.skip(1), (most - 1) as nat)
    }
}

/// The digits of a colour that a text begins with, after the word for what it
/// colours: up to six, and none if there are less than three.
pub open spec fn shade(what: Seq<char>, s: Seq<char>) -> Option<(Seq<char>, Seq<char>)> {
    let n = hex_run(s, 6);
    if n >= 3 {
        Some((what, s.take(n as int)))
    } else {
        None
    }
}

/// The colour that a text begins with: what it colours, and its digits.
pub open spec fn colour_of(s: Seq<char>) -> Option<(Seq<char>, Seq<char>)> {
    if starts(s, "stroke:#"@) {
        shade("stroke"@, s.skip(8))
    } else if starts(s, "fill:#"@) {
        shade("fill"@, s.skip(6))
    } else {
        None
    }
}

proof fn lemma_hex_run(s: Seq<char>, most: nat)
    ensures
        hex_run(s, most) <= s.len(),
    decreases most,
{
    if most > 0 && s.len() > 0 && is_hex(s[0]) {
        lemma_hex_run(s.skip(1), (most - 1) as nat);
    }
}

/// A colour is no longer than the text that begins with it.
pub proof fn lemma_colour_fits(s: Seq<char>)
    ensures
        colour_of(s) matches Some((what, hex)) ==> what.len() + 2 + hex.len() <= s.len(),
{
    reveal_strlit("stroke:#");
    reveal_strlit("stroke");
    reveal_strlit("fill:#");
    reveal_strlit("fill");
    if starts(s, "stroke:#"@) {
        lemma_hex_run(s.skip(8), 6);
    } else if starts(s, "fill:#"@) {
        lemma_hex_run(s.skip(6), 6);
    }
}

/// A text with each of its colours repainted, from left to right.
pub open spec fn painted(s: Seq<char>) -> Seq<char>
    decreases s.len(),
{
    if s.len() == 0 {
        s
    } else {
        proof {
            lemma_colour_fits(s);
        }
        match colour_of(s) {
            Some((what, hex)) => repainted(what, hex) + painted(
                s.skip((what.len() + 2 + hex.len()) as int),
            ),
            None => seq![s[0]] + painted(s.skip(1)),
        }
    }
}

/// Calls `regex::Regex::new` and `regex::Regex::captures`, which finds the match
/// of the pattern that begins first, with as many digits as it can have. The
/// pattern is a valid one, and both of its groups take part in each match. The
/// result is what stands before the match, its two groups, and what follows it.
#[verifier::external_body]
fn first_colour(pattern: &str, text: &str) -> (r: Option<(String, String, String, String)>)
    requires
        pattern@ == PAINT@,
    ensures
        match r {
            Some((before, what, hex, rest)) => {
                &&& text@ == before@ + (what@ + ":#"@ + hex@) + rest@
                &&& colour_of(text@.skip(before@.len() as int)) == Some((what@, hex@))
                &&& forall|i: int|
                    0 <= i < before@.len() ==> colour_of(#[trigger] text@.skip(i)) is None
            },
            None => forall|i: int|
                0 <= i < text@.len() ==> colour_of(#[trigger] text@.skip(i)) is None,
        },
{
    let found = regex::Regex::new(pattern).unwrap().captures(text)?;
    let whole = found.get(0).unwrap();
    let before = text[..whole.start()].to_owned();
    let rest = text[whole.end()..].to_owned();
    Some((before, found[1].to_owned(), found[2].to_owned(), rest))
}

proof fn lemma_plain_part(s: Seq<char>, from: int, to: int)
    requires
        0 <= from <= to <= s.len(),
        forall|i: int| from <= i < to ==> colour_of(#[trigger] s.skip(i)) is None,
    ensures
        painted(s.skip(from)) == s.subrange(from, to) + painted(s.skip(to)),
    decreases to - from,
{
    if from < to {
        lemma_plain_part(s, from + 1, to);
        let t = s.skip(from);
        assert(t.skip(1) =~= s.skip(from + 1));
        assert(colour_of(s.skip(from)) is None);
        assert(s.subrange(from, to) =~= seq![s[from]] + s.subrange(from + 1, to));
        assert(painted(t) == seq![t[0]] + painted(t.skip(1)));
        assert(seq![s[from]] + (s.subrange(from + 1, to) + painted(s.skip(to))) =~= s.subrange(
            from,
            to,
        ) + painted(s.skip(to)));
    } else {
        assert(s.subrange(from, to) + painted(s.skip(to)) =~= painted(s.skip(to)));
    }
}

proof fn lemma_one_colour(
    s: Seq<char>,
    before: Seq<char>,
    what: Seq<char>,
    hex: Seq<char>,
    tail: Seq<char>,
)
    requires
        s == before + (what + ":#"@ + hex) + tail,
        colour_of(s.skip(before.len() as int)) == Some((what, hex)),
        forall|i: int| 0 <= i < before.len() ==> colour_of(#[trigger] s.skip(i)) is None,
    ensures
        painted(s) == before + repainted(what, hex) + painted(tail),
        tail.len() < s.len(),
{
    reveal_strlit(":#");
    let n = before.len() as int;
    lemma_plain_part(s, 0, n);
    assert(s.skip(0) =~= s);
    assert(s.subrange(0, n) =~= before);
    assert(s.skip(n).skip((what.len() + 2 + hex.len()) as int) =~= tail);
    assert(before + (repainted(what, hex) + painted(tail)) =~= before + repainted(what, hex)
        + painted(tail));
}

proof fn lemma_no_colour(s: Seq<char>)
    requires
        forall|i: int| 0 <= i < s.len() ==> colour_of(#[trigger] s.skip(i)) is None,
    ensures
        painted(s) == s,
{
    lemma_plain_part(s, 0, s.len() as int);
    assert(s.skip(0) =~= s);
    assert(s.subrange(0, s.len() as int) =~= s);
    assert(painted(s.skip(s.len() as int)) =~= Seq::empty());
}

/// An icon with the colours for a dark panel.
pub fn paint_svg(svg: &str) -> (r: String)
    ensures
        r@ == painted(svg@),
{
    let mut out = String::new();
    let mut rest = svg.to_owned();
    proof {
        assert(out@ + painted(rest@) =~= painted(svg@));
    }
    loop
        invariant
            painted(svg@) == out@ + painted(rest@),
        decreases rest@.len(),
    {
        match first_colour(PAINT, rest.as_str()) {
            Some((before, what, hex, tail)) => {
                let colour = repaint(what.as_str(), hex.as_str());
                let ghost done = out@;
                proof {
                    lemma_one_colour(rest@, before@, what@, hex@, tail@);
                    assert(done + (before@ + colour@ + painted(tail@)) =~= done + before@ + colour@
                        + painted(tail@));
                }
                out.append(before.as_str());
                out.append(colour.as_str());
                rest = tail;
            },
            None => {
                proof {
                    lemma_no_colour(rest@);
                }
                out.append(rest.as_str());
                return out;
            },
        }
    }
}

} // verus!
