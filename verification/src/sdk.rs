//! The server's interface: how requests are written and replies are read.
use crate::model::Moment;
use crate::path::base_name;
use crate::text::{
    after, chars_of, concat, contains, decimal, decimal_of, holds_text, is_white, parse_number,
    parsed, pieces, same, split, starts, starts_with, string_of, strings_view, trim, trim_end,
    trimmed, white, without_end,
};
use vstd::prelude::*;

verus! {

/// The cookie that holds the session, or its first part.
pub const COOKIE_NAME_SESSION: &'static str = "auth";

/// The media type of a delta.
pub const DELTA_MEDIA_TYPE: &'static str = "application/vnd.filestash.delta.rdiff";

/// The first second that a date of the protocol cannot express.
pub const DATES_END: u64 = 253_402_300_800;

/// Why the server did not do what it was asked.
#[derive(Debug)]
pub enum Error {
    InvalidCredentials,
    NotAuthenticated,
    PermissionDenied,
    NotFound,
    PreconditionFailed,
    NotFilestash,
    Api(String),
    Http(String),
    Url(String),
}

/// How an error is written out.
pub open spec fn error_text(e: Error) -> Seq<char> {
    match e {
        Error::InvalidCredentials => "invalid credentials"@,
        Error::NotAuthenticated => "not authenticated"@,
        Error::PermissionDenied => "permission denied"@,
        Error::NotFound => "not found"@,
        Error::PreconditionFailed => "precondition failed"@,
        Error::NotFilestash => "not a Filestash server"@,
        Error::Api(why) => "api error: "@ + why@,
        Error::Http(why) => why@,
        Error::Url(why) => "invalid url: "@ + why@,
    }
}

/// What an error means to a program that reads or writes a file.
#[derive(Clone, Copy, Debug, PartialEq, Eq, Structural)]
pub enum ErrorKind {
    NotFound,
    PermissionDenied,
    Other,
}

/// What an error means to a program that reads or writes a file.
pub open spec fn kind_of(e: Error) -> ErrorKind {
    match e {
        Error::NotFound => ErrorKind::NotFound,
        Error::PermissionDenied => ErrorKind::PermissionDenied,
        _ => ErrorKind::Other,
    }
}

impl Error {
    /// The error written out.
    pub fn to_string(&self) -> (r: String)
        ensures
            r@ == error_text(*self),
    {
        match self {
            Error::InvalidCredentials => "invalid credentials".to_owned(),
            Error::NotAuthenticated => "not authenticated".to_owned(),
            Error::PermissionDenied => "permission denied".to_owned(),
            Error::NotFound => "not found".to_owned(),
            Error::PreconditionFailed => "precondition failed".to_owned(),
            Error::NotFilestash => "not a Filestash server".to_owned(),
            Error::Api(why) => concat("api error: ", why.as_str()),
            Error::Http(why) => why.clone(),
            Error::Url(why) => concat("invalid url: ", why.as_str()),
        }
    }

    /// What the error means to a program that reads or writes a file.
    pub fn kind(&self) -> (r: ErrorKind)
        ensures
            r == kind_of(*self),
    {
        match self {
            Error::NotFound => ErrorKind::NotFound,
            Error::PermissionDenied => ErrorKind::PermissionDenied,
            _ => ErrorKind::Other,
        }
    }
}

/// What a name on the server stands for.
#[derive(Clone, Copy, Debug, PartialEq, Eq, Structural)]
pub enum FileType {
    File,
    Directory,
}

/// What the server says of a file or a directory.
#[derive(Debug, PartialEq, Eq)]
pub struct FileInfo {
    pub name: String,
    pub kind: FileType,
    pub size: Option<u64>,
    pub mtime: Option<Moment>,
}

impl Clone for FileInfo {
    fn clone(&self) -> (r: FileInfo)
        ensures
            r == *self,
    {
        FileInfo { name: self.name.clone(), kind: self.kind, size: self.size, mtime: self.mtime }
    }
}

/// The moment that `httpdate::parse_http_date` reads from a text; none if it reads
/// no date.
pub uninterp spec fn http_date(text: Seq<char>) -> Option<Moment>;

/// The text that `httpdate::fmt_http_date` writes for a number of seconds after
/// the epoch.
pub uninterp spec fn http_date_text(secs: u64) -> Seq<char>;

/// Calls `httpdate::parse_http_date`, which reads the three forms of a date that
/// the protocol knows. A date lies in the years 1970 to 9999 and has whole
/// seconds.
#[verifier::external_body]
fn parse_date(text: &str) -> (r: Option<Moment>)
    ensures
        r == http_date(text@),
        r matches Some(m) ==> 0 <= m.secs < DATES_END && m.nanos == 0,
{
    let at = httpdate::parse_http_date(text).ok()?;
    let since = at.duration_since(std::time::UNIX_EPOCH).ok()?;
    Some(Moment { secs: since.as_secs() as i64, nanos: since.subsec_nanos() })
}

/// Calls `httpdate::fmt_http_date`, which writes the preferred form of a date. It
/// panics on a date after the year 9999.
#[verifier::external_body]
fn format_date(secs: u64) -> (r: String)
    requires
        secs < DATES_END,
    ensures
        r@ == http_date_text(secs),
{
    let at = std::time::UNIX_EPOCH + std::time::Duration::from_secs(secs);
    httpdate::fmt_http_date(at)
}

/// The path of the URL that `url::Url::parse` reads from a text, or how it writes
/// out why it reads none.
pub uninterp spec fn url_read(text: Seq<char>) -> Result<Seq<char>, Seq<char>>;

/// The URL that `url::Url` makes of a base by extending its path by the segments;
/// none if the base is no URL, or one whose path cannot be extended.
pub uninterp spec fn url_extended(base: Seq<char>, segments: Seq<Seq<char>>) -> Option<Seq<char>>;

/// The URL that `url::Url` makes of another by appending the pairs to its query;
/// none if it is no URL.
pub uninterp spec fn url_queried(
    url: Seq<char>,
    query: Seq<(Seq<char>, Seq<char>)>,
) -> Option<Seq<char>>;

/// Calls `url::Url::parse` and, of what it reads, `path`. An error is written out
/// as its `Display` does.
#[verifier::external_body]
fn parse_url(text: &str) -> (r: Result<String, String>)
    ensures
        match r {
            Ok(p) => url_read(text@) == Ok::<Seq<char>, Seq<char>>(p@),
            Err(why) => url_read(text@) == Err::<Seq<char>, Seq<char>>(why@),
        },
{
    url::Url::parse(text).map(|u| u.path().to_owned()).map_err(|e| e.to_string())
}

/// Calls `url::Url::parse` and `path_segments_mut` with `extend`, which escapes the
/// segments as it appends them.
#[verifier::external_body]
fn extend_url(base: &str, segments: &Vec<String>) -> (r: Option<String>)
    ensures
        match r {
            Some(u) => url_extended(base@, strings_view(segments@)) == Some(u@),
            None => url_extended(base@, strings_view(segments@)) is None,
        },
{
    let mut url = url::Url::parse(base).ok()?;
    url.path_segments_mut().ok()?.extend(segments);
    Some(url.into())
}

/// Calls `url::Url::parse` and `query_pairs_mut` with `extend_pairs`, which encodes
/// the pairs as it appends them.
#[verifier::external_body]
fn query_url(url: &str, query: &Vec<(String, String)>) -> (r: Option<String>)
    ensures
        match r {
            Some(u) => url_queried(url@, pairs_view(query@)) == Some(u@),
            None => url_queried(url@, pairs_view(query@)) is None,
        },
{
    let mut url = url::Url::parse(url).ok()?;
    url.query_pairs_mut().extend_pairs(query);
    Some(url.into())
}

/// Pairs by their characters.
pub open spec fn pairs_view(v: Seq<(String, String)>) -> Seq<(Seq<char>, Seq<char>)> {
    Seq::new(v.len(), |i: int| (v[i].0@, v[i].1@))
}

/// An optional text by its characters.
pub open spec fn text_view(s: Option<&str>) -> Option<Seq<char>> {
    match s {
        Some(s) => Some(s@),
        None => None,
    }
}

/// A size as the server writes it.
pub open spec fn size_in(text: Option<Seq<char>>) -> Option<u64> {
    match text {
        Some(t) => match parsed(t, u64::MAX as nat) {
            Some(n) => Some(n as u64),
            None => None,
        },
        None => None,
    }
}

/// A date as the server writes it.
pub open spec fn date_in(text: Option<Seq<char>>) -> Option<Moment> {
    match text {
        Some(t) => http_date(t),
        None => None,
    }
}

/// Reads a date as the server writes it.
pub fn read_date(text: Option<&str>) -> (r: Option<Moment>)
    ensures
        r == date_in(text_view(text)),
{
    match text {
        Some(t) => parse_date(t),
        None => None,
    }
}

proof fn lemma_base_name(s: Seq<char>)
    ensures
        base_name(s) == split(s, '/').last(),
        split(s, '/').len() > 0,
{
    crate::path::lemma_split_at_last_slash(s);
    crate::text::split_pieces(s, '/');
    crate::path::lemma_last_slash(s);
    if crate::path::last_slash(s) < 0 {
        assert(base_name(s) =~= s);
    }
}

impl FileInfo {
    /// What the headers of a reply say of the file at `path`.
    pub fn of(
        path: &str,
        content_type: Option<&str>,
        content_length: Option<&str>,
        last_modified: Option<&str>,
    ) -> (r: FileInfo)
        ensures
            r.name@ == base_name(trim_end(path@, '/')),
            r.kind == if text_view(content_type) == Some("inode/directory"@) {
                FileType::Directory
            } else {
                FileType::File
            },
            r.size == size_in(text_view(content_length)),
            r.mtime == date_in(text_view(last_modified)),
    {
        let bare = without_end(path, '/');
        let mut parts = pieces(bare.as_str(), '/');
        proof {
            lemma_base_name(bare@);
            assert(strings_view(parts@).last() == parts@.last()@);
        }
        let name = match parts.pop() {
            Some(name) => name,
            None => String::new(),
        };
        let kind = match content_type {
            Some(t) => if same(t, "inode/directory") {
                FileType::Directory
            } else {
                FileType::File
            },
            None => FileType::File,
        };
        let size: Option<u64> = match content_length {
            Some(t) => parse_number(t, u64::MAX),
            None => None,
        };
        FileInfo { name, kind, size, mtime: read_date(last_modified) }
    }

    /// An entry of a listing: a negative size is unknown, and so is a time that
    /// is not after the epoch. Times are in milliseconds.
    pub fn entry(name: String, kind: &str, size: i64, time: i64) -> (r: FileInfo)
        ensures
            r.name@ == name@,
            r.kind == if kind@ == "directory"@ {
                FileType::Directory
            } else {
                FileType::File
            },
            r.size == if size >= 0 {
                Some(size as u64)
            } else {
                None
            },
            r.mtime == if time > 0 {
                Some(
                    Moment {
                        secs: (time / 1000) as i64,
                        nanos: ((time % 1000) * 1_000_000) as u32,
                    },
                )
            } else {
                None
            },
    {
        let kind = if same(kind, "directory") {
            FileType::Directory
        } else {
            FileType::File
        };
        let size: Option<u64> = if size >= 0 {
            Some(size as u64)
        } else {
            None
        };
        let mtime = if time > 0 {
            Some(Moment::from_millis(time as u64))
        } else {
            None
        };
        FileInfo { name, kind, size, mtime }
    }
}

/// What the status of a reply means. A status that is neither a success nor one
/// of those with a meaning of their own is told as it is shown.
pub fn check_status(status: u16, shown: &str) -> (r: Result<(), Error>)
    ensures
        match r {
            Ok(()) => 200 <= status < 300,
            Err(Error::PermissionDenied) => status == 401 || status == 403,
            Err(Error::NotFound) => status == 404,
            Err(Error::PreconditionFailed) => status == 412,
            Err(Error::Api(why)) => {
                &&& !(200 <= status < 300)
                &&& status != 401 && status != 403 && status != 404 && status != 412
                &&& why@ == "unexpected status "@ + shown@
            },
            Err(_) => false,
        },
{
    if 200 <= status && status < 300 {
        Ok(())
    } else if status == 401 || status == 403 {
        Err(Error::PermissionDenied)
    } else if status == 404 {
        Err(Error::NotFound)
    } else if status == 412 {
        Err(Error::PreconditionFailed)
    } else {
        Err(Error::Api(concat("unexpected status ", shown)))
    }
}

/// What the status in the envelope of a listing means.
pub fn check_envelope(status: &str) -> (r: Result<(), Error>)
    ensures
        match r {
            Ok(()) => status@ == "ok"@,
            Err(Error::Api(why)) => status@ != "ok"@ && why@ == "status: "@ + status@,
            Err(_) => false,
        },
{
    if same(status, "ok") {
        Ok(())
    } else {
        Err(Error::Api(concat("status: ", status)))
    }
}

/// What follows a server's product name up to the first white space; all of it
/// if it is nothing but white space.
pub open spec fn first_word(s: Seq<char>) -> Seq<char> {
    let t = trim_white_head(s);
    if t.len() == 0 {
        s
    } else {
        word(t)
    }
}

/// `s` without the white space at its start.
pub open spec fn trim_white_head(s: Seq<char>) -> Seq<char> {
    crate::text::trim_head(s)
}

/// The characters of `s` before the first white space.
pub open spec fn word(s: Seq<char>) -> Seq<char>
    decreases s.len(),
{
    if s.len() == 0 || is_white(s[0]) {
        Seq::empty()
    } else {
        seq![s[0]] + word(s.drop_first())
    }
}

fn find_word(s: &str) -> (r: String)
    ensures
        r@ == first_word(s@),
{
    let cs = chars_of(s);
    let mut i: usize = 0;
    proof {
        assert(cs@.skip(0) =~= s@);
    }
    while i < cs.len() && white(cs[i])
        invariant
            cs@ == s@,
            i <= cs@.len(),
            crate::text::trim_head(s@) == crate::text::trim_head(cs@.skip(i as int)),
        decreases cs@.len() - i,
    {
        proof {
            assert(cs@.skip(i as int).drop_first() =~= cs@.skip(i + 1));
            assert(cs@.skip(i as int)[0] == cs@[i as int]);
        }
        i += 1;
    }
    let ghost t = cs@.skip(i as int);
    proof {
        if i < cs@.len() {
            assert(t[0] == cs@[i as int]);
        }
        assert(crate::text::trim_head(s@) == t);
    }
    if i == cs.len() {
        return s.to_owned();
    }
    let mut k: usize = i;
    proof {
        assert(cs@.subrange(i as int, i as int) =~= Seq::<char>::empty());
        assert(word(t) =~= cs@.subrange(i as int, i as int) + word(cs@.skip(i as int)));
    }
    while k < cs.len() && !white(cs[k])
        invariant
            cs@ == s@,
            i <= k <= cs@.len(),
            t == cs@.skip(i as int),
            word(t) == cs@.subrange(i as int, k as int) + word(cs@.skip(k as int)),
        decreases cs@.len() - k,
    {
        proof {
            let rest = cs@.skip(k as int);
            assert(rest[0] == cs@[k as int]);
            assert(rest.drop_first() =~= cs@.skip(k + 1));
            assert(cs@.subrange(i as int, k + 1) =~= cs@.subrange(i as int, k as int).push(
                cs@[k as int],
            ));
            assert(word(t) =~= cs@.subrange(i as int, k + 1) + word(cs@.skip(k + 1)));
        }
        k += 1;
    }
    proof {
        let rest = cs@.skip(k as int);
        if k < cs@.len() {
            assert(rest[0] == cs@[k as int]);
        }
        assert(word(rest) =~= Seq::<char>::empty());
        assert(word(t) =~= cs@.subrange(i as int, k as int));
    }
    string_of(&cs, i, k)
}

/// The version of the server, from the header in which it names itself.
pub fn probe_version(powered_by: Option<&str>) -> (r: Result<String, Error>)
    ensures
        match r {
            Ok(v) => powered_by is Some && starts(powered_by->0@, "Filestash/"@) && v@ == first_word(
                powered_by->0@.skip("Filestash/"@.len() as int),
            ),
            Err(Error::NotFilestash) => powered_by is None || !starts(
                powered_by->0@,
                "Filestash/"@,
            ),
            Err(_) => false,
        },
{
    match powered_by {
        Some(value) => match after(value, "Filestash/") {
            Some(version) => Ok(find_word(version.as_str())),
            None => Err(Error::NotFilestash),
        },
        None => Err(Error::NotFilestash),
    }
}

/// Whether the server takes deltas, from the header that lists what it takes.
pub fn delta_offered(accept_post: Option<&str>) -> (r: bool)
    ensures
        r == (accept_post is Some && holds_text(accept_post->0@, DELTA_MEDIA_TYPE@)),
{
    match accept_post {
        Some(v) => contains(v, DELTA_MEDIA_TYPE),
        None => false,
    }
}

/// The place of a cookie among the parts of the session: 0 for the bare name,
/// else the number that follows the name.
pub open spec fn cookie_index(name: Seq<char>) -> Option<nat> {
    if starts(name, COOKIE_NAME_SESSION@) {
        let rest = name.skip(COOKIE_NAME_SESSION@.len() as int);
        if rest.len() == 0 {
            Some(0)
        } else {
            parsed(rest, u32::MAX as nat)
        }
    } else {
        None
    }
}

/// The parts with one more, behind all those whose place is not greater.
pub open spec fn placed(
    parts: Seq<(nat, Seq<char>)>,
    item: (nat, Seq<char>),
) -> Seq<(nat, Seq<char>)>
    decreases parts.len(),
{
    if parts.len() == 0 || parts.last().0 <= item.0 {
        parts.push(item)
    } else {
        placed(parts.drop_last(), item).push(parts.last())
    }
}

/// The parts of the session in the cookies, in the order of their places, and in
/// the order of the cookies where places are equal.
pub open spec fn session_parts(
    cookies: Seq<(Seq<char>, Seq<char>)>,
) -> Seq<(nat, Seq<char>)>
    decreases cookies.len(),
{
    if cookies.len() == 0 {
        Seq::empty()
    } else {
        let before = session_parts(cookies.drop_last());
        match cookie_index(cookies.last().0) {
            Some(i) => placed(before, (i, cookies.last().1)),
            None => before,
        }
    }
}

/// The values of the parts, one after the other.
pub open spec fn values_of(parts: Seq<(nat, Seq<char>)>) -> Seq<char>
    decreases parts.len(),
{
    if parts.len() == 0 {
        Seq::empty()
    } else {
        values_of(parts.drop_last()) + parts.last().1
    }
}

/// The parts are in the order of their places.
pub open spec fn is_ordered(parts: Seq<(nat, Seq<char>)>) -> bool {
    forall|i: int, j: int|
        #![trigger parts[i], parts[j]]
        0 <= i < j < parts.len() ==> parts[i].0 <= parts[j].0
}

/// The parts of a session are in the order of their places.
pub proof fn law_session_parts_are_in_order(cookies: Seq<(Seq<char>, Seq<char>)>)
    ensures
        is_ordered(session_parts(cookies)),
    decreases cookies.len(),
{
    if cookies.len() > 0 {
        law_session_parts_are_in_order(cookies.drop_last());
        match cookie_index(cookies.last().0) {
            Some(i) => {
                lemma_placed(session_parts(cookies.drop_last()), (i, cookies.last().1));
            },
            None => {},
        }
    }
}

proof fn lemma_placed(parts: Seq<(nat, Seq<char>)>, item: (nat, Seq<char>))
    requires
        is_ordered(parts),
    ensures
        is_ordered(placed(parts, item)),
        forall|i: int|
            #![trigger placed(parts, item)[i]]
            0 <= i < placed(parts, item).len() ==> placed(parts, item)[i] == item || parts.contains(
                placed(parts, item)[i],
            ),
    decreases parts.len(),
{
    let now = placed(parts, item);
    if parts.len() == 0 || parts.last().0 <= item.0 {
        assert forall|i: int, j: int| #![trigger now[i], now[j]] 0 <= i < j < now.len() implies now[i].0
            <= now[j].0 by {
            if j == parts.len() {
                if i < parts.len() - 1 {
                    assert(parts[i].0 <= parts[parts.len() - 1].0);
                }
            } else {
                assert(parts[i].0 <= parts[j].0);
            }
        }
        assert forall|i: int| #![trigger now[i]] 0 <= i < now.len() implies now[i] == item
            || parts.contains(now[i]) by {
            if i < parts.len() {
                assert(parts[i] == now[i]);
            }
        }
    } else {
        let front = parts.drop_last();
        let before = placed(front, item);
        assert(is_ordered(front)) by {
            assert forall|i: int, j: int| #![trigger front[i], front[j]] 0 <= i < j < front.len() implies front[i].0
                <= front[j].0 by {
                assert(parts[i].0 <= parts[j].0);
            }
        }
        lemma_placed(front, item);
        assert forall|i: int, j: int| #![trigger now[i], now[j]] 0 <= i < j < now.len() implies now[i].0
            <= now[j].0 by {
            if j < before.len() {
                assert(before[i].0 <= before[j].0);
            } else {
                assert(now[i] == before[i]);
                if before[i] != item {
                    let k = choose|k: int| 0 <= k < front.len() && front[k] == before[i];
                    assert(parts[k].0 <= parts[parts.len() - 1].0);
                }
            }
        }
        assert forall|i: int| #![trigger now[i]] 0 <= i < now.len() implies now[i] == item
            || parts.contains(now[i]) by {
            if i < before.len() {
                assert(now[i] == before[i]);
                if before[i] != item {
                    let k = choose|k: int| 0 <= k < front.len() && front[k] == before[i];
                    assert(parts[k] == now[i]);
                }
            } else {
                assert(parts[parts.len() - 1] == now[i]);
            }
        }
    }
}

fn index_of(name: &str) -> (r: Option<u64>)
    ensures
        match r {
            Some(i) => cookie_index(name@) == Some(i as nat),
            None => cookie_index(name@) is None,
        },
{
    match after(name, COOKIE_NAME_SESSION) {
        Some(rest) => if rest.as_str().is_empty() {
            Some(0)
        } else {
            parse_number(rest.as_str(), u32::MAX as u64)
        },
        None => None,
    }
}

spec fn parts_view(v: Seq<(u64, String)>) -> Seq<(nat, Seq<char>)> {
    Seq::new(v.len(), |i: int| (v[i].0 as nat, v[i].1@))
}

fn place_part(parts: &mut Vec<(u64, String)>, index: u64, value: &String)
    ensures
        parts_view(final(parts)@) == placed(parts_view(old(parts)@), (index as nat, value@)),
{
    let ghost view = parts_view(parts@);
    let ghost item = (index as nat, value@);
    let mut n: usize = parts.len();
    proof {
        assert(view.take(n as int) =~= view);
        assert(placed(view, item) =~= placed(view, item) + view.skip(n as int));
    }
    while n > 0 && parts[n - 1].0 > index
        invariant
            n <= parts@.len(),
            view == parts_view(parts@),
            item == (index as nat, value@),
            placed(view, item) == placed(view.take(n as int), item) + view.skip(n as int),
        decreases n,
    {
        proof {
            let now = view.take(n as int);
            assert(now.drop_last() =~= view.take(n - 1));
            assert(now.last() == view[n - 1]);
            assert(view.skip(n - 1) =~= seq![view[n - 1]] + view.skip(n as int));
            assert(placed(view, item) =~= placed(view.take(n - 1), item) + view.skip(n - 1));
        }
        n -= 1;
    }
    let ghost now = view.take(n as int);
    proof {
        if n > 0 {
            assert(now.last() == view[n - 1]);
        }
        assert(placed(now, item) =~= now.push(item));
    }
    parts.insert(n, (index, value.clone()));
    proof {
        assert(parts_view(parts@) =~= now.push(item) + view.skip(n as int));
    }
}

/// The token of the session: the values of its cookies in the order of their
/// places.
pub fn assemble_token(cookies: &[(String, String)]) -> (r: String)
    ensures
        r@ == values_of(session_parts(pairs_view(cookies@))),
{
    let ghost cv = pairs_view(cookies@);
    let mut parts: Vec<(u64, String)> = Vec::new();
    let mut i: usize = 0;
    proof {
        assert(parts_view(parts@) =~= Seq::empty());
    }
    while i < cookies.len()
        invariant
            i <= cookies@.len(),
            cv == pairs_view(cookies@),
            parts_view(parts@) == session_parts(cv.take(i as int)),
        decreases cookies@.len() - i,
    {
        proof {
            let now = cv.take(i + 1);
            assert(now.drop_last() =~= cv.take(i as int));
            assert(now.last() == cv[i as int]);
        }
        match index_of(cookies[i].0.as_str()) {
            Some(index) => {
                place_part(&mut parts, index, &cookies[i].1);
            },
            None => {},
        }
        i += 1;
    }
    proof {
        assert(cv.take(i as int) =~= cv);
    }
    let ghost pv = parts_view(parts@);
    let mut out = String::new();
    let mut i: usize = 0;
    while i < parts.len()
        invariant
            i <= parts@.len(),
            pv == parts_view(parts@),
            out@ == values_of(pv.take(i as int)),
        decreases parts@.len() - i,
    {
        proof {
            let now = pv.take(i + 1);
            assert(now.drop_last() =~= pv.take(i as int));
            assert(now.last() == pv[i as int]);
        }
        out.append(parts[i].1.as_str());
        i += 1;
    }
    proof {
        assert(pv.take(i as int) =~= pv);
    }
    out
}

/// The server as it was typed in, as a URL: without white space around it and
/// slashes at its end, and with a scheme.
pub open spec fn server_url(input: Seq<char>) -> Seq<char> {
    let t = trim(input);
    let url = if holds_text(t, "://"@) {
        t
    } else {
        "https://"@ + t
    };
    trim_end(url, '/')
}

/// See `server_url`.
pub fn normalize_server(input: &str) -> (r: String)
    ensures
        r@ == server_url(input@),
{
    let t = trimmed(input);
    let url = if contains(t.as_str(), "://") {
        t
    } else {
        concat("https://", t.as_str())
    };
    without_end(url.as_str(), '/')
}

/// The name and the value of a cookie, from the header that sets it.
pub open spec fn cookie_in(header: Seq<char>) -> Option<(Seq<char>, Seq<char>)> {
    let pair = trim(split(header, ';')[0]);
    first_cut(pair)
}

/// What stands before and behind the first equals sign.
pub open spec fn first_cut(s: Seq<char>) -> Option<(Seq<char>, Seq<char>)>
    decreases s.len(),
{
    if s.len() == 0 {
        None
    } else if s[0] == '=' {
        Some((Seq::empty(), s.drop_first()))
    } else {
        match first_cut(s.drop_first()) {
            Some((a, b)) => Some((seq![s[0]] + a, b)),
            None => None,
        }
    }
}

fn cut(s: &str) -> (r: Option<(String, String)>)
    ensures
        match r {
            Some((a, b)) => first_cut(s@) == Some((a@, b@)),
            None => first_cut(s@) is None,
        },
{
    let cs = chars_of(s);
    let mut i: usize = 0;
    proof {
        assert(cs@.skip(0) =~= s@);
        assert(cs@.take(0) =~= Seq::<char>::empty());
        assert(forall|x: (Seq<char>, Seq<char>)| #![trigger x.0] cs@.take(0) + x.0 =~= x.0);
    }
    while i < cs.len()
        invariant
            cs@ == s@,
            i <= cs@.len(),
            first_cut(s@) == match first_cut(cs@.skip(i as int)) {
                Some((a, b)) => Some((cs@.take(i as int) + a, b)),
                None => None,
            },
        decreases cs@.len() - i,
    {
        let ghost rest = cs@.skip(i as int);
        proof {
            assert(rest[0] == cs@[i as int]);
            assert(rest.drop_first() =~= cs@.skip(i + 1));
        }
        if cs[i] == '=' {
            let a = string_of(&cs, 0, i);
            let b = string_of(&cs, i + 1, cs.len());
            proof {
                assert(a@ =~= cs@.take(i as int) + Seq::<char>::empty());
                assert(b@ =~= cs@.skip(i + 1));
            }
            return Some((a, b));
        }
        proof {
            match first_cut(cs@.skip(i + 1)) {
                Some((a, b)) => {
                    assert(cs@.take(i + 1) + a =~= cs@.take(i as int) + (seq![cs@[i as int]] + a));
                },
                None => {},
            }
        }
        i += 1;
    }
    None
}

/// The cookies that the headers set.
pub open spec fn cookies_in(headers: Seq<Seq<char>>) -> Seq<(Seq<char>, Seq<char>)>
    decreases headers.len(),
{
    if headers.len() == 0 {
        Seq::empty()
    } else {
        let before = cookies_in(headers.drop_last());
        match cookie_in(headers.last()) {
            Some(c) => before.push(c),
            None => before,
        }
    }
}

fn read_cookies(headers: &[String]) -> (r: Vec<(String, String)>)
    ensures
        pairs_view(r@) == cookies_in(strings_view(headers@)),
{
    let ghost hv = strings_view(headers@);
    let mut out: Vec<(String, String)> = Vec::new();
    let mut i: usize = 0;
    proof {
        assert(pairs_view(out@) =~= Seq::empty());
    }
    while i < headers.len()
        invariant
            i <= headers@.len(),
            hv == strings_view(headers@),
            pairs_view(out@) == cookies_in(hv.take(i as int)),
        decreases headers@.len() - i,
    {
        let ghost before = pairs_view(out@);
        proof {
            let now = hv.take(i + 1);
            assert(now.drop_last() =~= hv.take(i as int));
            assert(now.last() == headers@[i as int]@);
            crate::text::split_pieces(headers@[i as int]@, ';');
        }
        let parts = pieces(headers[i].as_str(), ';');
        proof {
            assert(strings_view(parts@)[0] == parts@[0]@);
        }
        let pair = trimmed(parts[0].as_str());
        match cut(pair.as_str()) {
            Some(c) => {
                out.push(c);
                proof {
                    assert(pairs_view(out@) =~= before.push((c.0@, c.1@)));
                }
            },
            None => {},
        }
        i += 1;
    }
    proof {
        assert(hv.take(i as int) =~= hv);
    }
    out
}

/// The value of the first cookie with the name.
pub open spec fn value_of(cookies: Seq<(Seq<char>, Seq<char>)>, name: Seq<char>) -> Option<Seq<char>>
    decreases cookies.len(),
{
    if cookies.len() == 0 {
        None
    } else if cookies[0].0 == name {
        Some(cookies[0].1)
    } else {
        value_of(cookies.drop_first(), name)
    }
}

fn find_value(cookies: &Vec<(String, String)>, name: &str) -> (r: Option<String>)
    ensures
        match r {
            Some(v) => value_of(pairs_view(cookies@), name@) == Some(v@),
            None => value_of(pairs_view(cookies@), name@) is None,
        },
{
    let ghost cv = pairs_view(cookies@);
    let mut i: usize = 0;
    proof {
        assert(cv.skip(0) =~= cv);
    }
    while i < cookies.len()
        invariant
            i <= cookies@.len(),
            cv == pairs_view(cookies@),
            value_of(cv, name@) == value_of(cv.skip(i as int), name@),
        decreases cookies@.len() - i,
    {
        proof {
            assert(cv.skip(i as int)[0] == cv[i as int]);
            assert(cv.skip(i as int).drop_first() =~= cv.skip(i + 1));
        }
        if same(cookies[i].0.as_str(), name) {
            return Some(cookies[i].1.clone());
        }
        i += 1;
    }
    None
}

/// The name of the cookie for the part of the session with the number.
pub open spec fn part_name(i: nat) -> Seq<char> {
    if i == 0 {
        COOKIE_NAME_SESSION@
    } else {
        COOKIE_NAME_SESSION@ + decimal_of(i)
    }
}

/// The values of the parts from number `i` on, up to the first that is missing.
/// There are no more parts than cookies.
pub open spec fn parts_from(cookies: Seq<(Seq<char>, Seq<char>)>, i: nat) -> Seq<char>
    decreases cookies.len() + 1 - i,
{
    if i > cookies.len() {
        Seq::empty()
    } else {
        match value_of(cookies, part_name(i)) {
            Some(v) => v + parts_from(cookies, i + 1),
            None => Seq::empty(),
        }
    }
}

/// The token in the headers that set cookies.
pub open spec fn token_in(headers: Seq<Seq<char>>) -> Seq<char> {
    parts_from(cookies_in(headers), 0)
}

/// The token in the headers that set cookies.
pub fn extract_token(headers: &[String]) -> (r: String)
    ensures
        r@ == token_in(strings_view(headers@)),
{
    let cookies = read_cookies(headers);
    let ghost cv = pairs_view(cookies@);
    let n: usize = cookies.len();
    let mut token = String::new();
    let mut i: usize = 0;
    proof {
        assert(token@ + parts_from(cv, 0) =~= parts_from(cv, 0));
    }
    loop
        invariant_except_break
            i <= n,
            n == cookies@.len(),
            cv == pairs_view(cookies@),
            token@ + parts_from(cv, i as nat) == parts_from(cv, 0),
        ensures
            token@ == parts_from(cv, 0),
        decreases n - i,
    {
        let name = if i == 0 {
            COOKIE_NAME_SESSION.to_owned()
        } else {
            let digits = decimal(i as u64);
            concat(COOKIE_NAME_SESSION, digits.as_str())
        };
        let ghost before = token@;
        match find_value(&cookies, name.as_str()) {
            Some(v) => {
                token.append(v.as_str());
                proof {
                    assert(before + (v@ + parts_from(cv, (i + 1) as nat)) =~= token@ + parts_from(
                        cv,
                        (i + 1) as nat,
                    ));
                }
            },
            None => {
                proof {
                    assert(token@ + Seq::<char>::empty() =~= token@);
                }
                break;
            },
        }
        if i == n {
            proof {
                assert(token@ + Seq::<char>::empty() =~= token@);
            }
            break;
        }
        i += 1;
    }
    token
}

/// The token that a login gave, from the status of the reply and the headers
/// that set cookies.
pub fn login_reply(status: u16, headers: &[String]) -> (r: Result<String, Error>)
    ensures
        match r {
            Ok(token) => status < 400 && token@.len() > 0 && token@ == token_in(
                strings_view(headers@),
            ),
            Err(Error::InvalidCredentials) => status >= 400 || token_in(
                strings_view(headers@),
            ).len() == 0,
            Err(_) => false,
        },
{
    if status >= 400 {
        return Err(Error::InvalidCredentials);
    }
    let token = extract_token(headers);
    if token.as_str().is_empty() {
        return Err(Error::InvalidCredentials);
    }
    Ok(token)
}

/// What the server is asked to do.
#[derive(Debug)]
pub enum Call<S = String> {
    Login { storage: S },
    Logout,
    About,
    Ls(S),
    Stat(S),
    Cat(S),
    Thumbnail(S),
    Save(S),
    SaveOptions,
    Mkdir(S),
    Rm(S),
    Mv { from: S, to: S },
}

impl View for Call {
    type V = Call<Seq<char>>;

    open spec fn view(&self) -> Call<Seq<char>> {
        match self {
            Call::Login { storage } => Call::Login { storage: storage@ },
            Call::Logout => Call::Logout,
            Call::About => Call::About,
            Call::Ls(p) => Call::Ls(p@),
            Call::Stat(p) => Call::Stat(p@),
            Call::Cat(p) => Call::Cat(p@),
            Call::Thumbnail(p) => Call::Thumbnail(p@),
            Call::Save(p) => Call::Save(p@),
            Call::SaveOptions => Call::SaveOptions,
            Call::Mkdir(p) => Call::Mkdir(p@),
            Call::Rm(p) => Call::Rm(p@),
            Call::Mv { from, to } => Call::Mv { from: from@, to: to@ },
        }
    }
}

/// The method of a request.
#[derive(Clone, Copy, Debug, PartialEq, Eq, Structural)]
pub enum Method {
    Get,
    Head,
    Post,
    Delete,
    Options,
}

/// The method with which the server is asked.
pub open spec fn method_of(call: Call<Seq<char>>) -> Method {
    match call {
        Call::Login { storage } => Method::Post,
        Call::Logout => Method::Delete,
        Call::About => Method::Get,
        Call::Ls(p) => Method::Get,
        Call::Stat(p) => Method::Head,
        Call::Cat(p) => Method::Get,
        Call::Thumbnail(p) => Method::Get,
        Call::Save(p) => Method::Post,
        Call::SaveOptions => Method::Options,
        Call::Mkdir(p) => Method::Post,
        Call::Rm(p) => Method::Post,
        Call::Mv { from, to } => Method::Post,
    }
}

/// Where on the server the call is answered.
pub open spec fn segments_of(call: Call<Seq<char>>) -> Seq<Seq<char>> {
    match call {
        Call::Login { storage } => seq!["api"@, "session"@, "auth"@, ""@],
        Call::Logout => seq!["api"@, "session"@],
        Call::About => seq!["about"@],
        Call::Ls(p) => seq!["api"@, "files"@, "ls"@],
        Call::Stat(p) => seq!["api"@, "files"@, "cat"@],
        Call::Cat(p) => seq!["api"@, "files"@, "cat"@],
        Call::Thumbnail(p) => seq!["api"@, "files"@, "cat"@],
        Call::Save(p) => seq!["api"@, "files"@, "cat"@],
        Call::SaveOptions => seq!["api"@, "files"@, "save"@],
        Call::Mkdir(p) => seq!["api"@, "files"@, "mkdir"@],
        Call::Rm(p) => seq!["api"@, "files"@, "rm"@],
        Call::Mv { from, to } => seq!["api"@, "files"@, "mv"@],
    }
}

/// What the call is about.
pub open spec fn query_of(call: Call<Seq<char>>) -> Seq<(Seq<char>, Seq<char>)> {
    match call {
        Call::Login { storage } => seq![("label"@, storage)],
        Call::Logout => Seq::empty(),
        Call::About => Seq::empty(),
        Call::Ls(p) => seq![("path"@, p)],
        Call::Stat(p) => seq![("path"@, p)],
        Call::Cat(p) => seq![("path"@, p)],
        Call::Thumbnail(p) => seq![("path"@, p), ("thumbnail"@, "true"@)],
        Call::Save(p) => seq![("path"@, p)],
        Call::SaveOptions => Seq::empty(),
        Call::Mkdir(p) => seq![("path"@, p)],
        Call::Rm(p) => seq![("path"@, p)],
        Call::Mv { from, to } => seq![("from"@, from), ("to"@, to)],
    }
}

/// The call is answered only to who is logged in.
pub open spec fn needs_token(call: Call<Seq<char>>) -> bool {
    call !is Login && call !is About
}

impl Call {
    /// The method with which the server is asked.
    pub fn method(&self) -> (r: Method)
        ensures
            r == method_of(self@),
    {
        match self {
            Call::Login { .. } => Method::Post,
            Call::Logout => Method::Delete,
            Call::About => Method::Get,
            Call::Ls(_) => Method::Get,
            Call::Stat(_) => Method::Head,
            Call::Cat(_) => Method::Get,
            Call::Thumbnail(_) => Method::Get,
            Call::Save(_) => Method::Post,
            Call::SaveOptions => Method::Options,
            Call::Mkdir(_) => Method::Post,
            Call::Rm(_) => Method::Post,
            Call::Mv { .. } => Method::Post,
        }
    }

    fn segments(&self) -> (r: Vec<String>)
        ensures
            strings_view(r@) == segments_of(self@),
    {
        let mut out: Vec<String> = Vec::new();
        match self {
            Call::About => {
                out.push("about".to_owned());
                proof {
                    assert(strings_view(out@) =~= segments_of(self@));
                }
                return out;
            },
            _ => {},
        }
        out.push("api".to_owned());
        match self {
            Call::Login { .. } => {
                out.push("session".to_owned());
                out.push("auth".to_owned());
                out.push("".to_owned());
            },
            Call::Logout => {
                out.push("session".to_owned());
            },
            Call::About => {},
            Call::Ls(_) => {
                out.push("files".to_owned());
                out.push("ls".to_owned());
            },
            Call::Stat(_) | Call::Cat(_) | Call::Thumbnail(_) | Call::Save(_) => {
                out.push("files".to_owned());
                out.push("cat".to_owned());
            },
            Call::SaveOptions => {
                out.push("files".to_owned());
                out.push("save".to_owned());
            },
            Call::Mkdir(_) => {
                out.push("files".to_owned());
                out.push("mkdir".to_owned());
            },
            Call::Rm(_) => {
                out.push("files".to_owned());
                out.push("rm".to_owned());
            },
            Call::Mv { .. } => {
                out.push("files".to_owned());
                out.push("mv".to_owned());
            },
        }
        proof {
            assert(strings_view(out@) =~= segments_of(self@));
        }
        out
    }

    fn query(&self) -> (r: Vec<(String, String)>)
        ensures
            pairs_view(r@) == query_of(self@),
    {
        let mut out: Vec<(String, String)> = Vec::new();
        match self {
            Call::Login { storage } => {
                out.push(("label".to_owned(), storage.clone()));
            },
            Call::Logout | Call::About | Call::SaveOptions => {},
            Call::Ls(p) | Call::Stat(p) | Call::Cat(p) | Call::Save(p) | Call::Mkdir(p) | Call::Rm(
                p,
            ) => {
                out.push(("path".to_owned(), p.clone()));
            },
            Call::Thumbnail(p) => {
                out.push(("path".to_owned(), p.clone()));
                out.push(("thumbnail".to_owned(), "true".to_owned()));
            },
            Call::Mv { from, to } => {
                out.push(("from".to_owned(), from.clone()));
                out.push(("to".to_owned(), to.clone()));
            },
        }
        proof {
            assert(pairs_view(out@) =~= query_of(self@));
        }
        out
    }
}

/// The URL of a call, on a server whose URL has no slash at its end.
pub open spec fn call_url(server: Seq<char>, call: Call<Seq<char>>) -> Option<Seq<char>> {
    match url_extended(server, segments_of(call)) {
        Some(url) => if query_of(call).len() == 0 {
            Some(url)
        } else {
            url_queried(url, query_of(call))
        },
        None => None,
    }
}

/// The text is no URL of a server, and the error says why.
pub open spec fn is_url_fault(url: Seq<char>, e: Error) -> bool {
    e matches Error::Url(why) && url_read(trim_end(url, '/')) == Err::<Seq<char>, Seq<char>>(why@)
}

/// How the server is reached: its URL, whether its certificate may be wrong, and
/// the token of the session.
#[derive(Debug)]
pub struct Sdk {
    url: String,
    insecure: bool,
    token: Option<String>,
}

/// How the server is to be reached.
#[derive(Debug)]
pub struct SdkBuilder {
    url: String,
    insecure: bool,
}

impl SdkBuilder {
    /// The URL that was given.
    pub closed spec fn url(&self) -> Seq<char> {
        self.url@
    }

    /// Whether the certificate may be wrong.
    pub closed spec fn is_insecure(&self) -> bool {
        self.insecure
    }

    /// Says whether the certificate of the server may be wrong.
    pub fn insecure(self, insecure: bool) -> (r: SdkBuilder)
        ensures
            r.url() == self.url(),
            r.is_insecure() == insecure,
    {
        SdkBuilder { url: self.url, insecure }
    }

    /// Reaches the server within the session of the token.
    pub fn token(self, token: String) -> (r: Result<Sdk, Error>)
        ensures
            match r {
                Ok(sdk) => url_read(trim_end(self.url(), '/')) is Ok && sdk.server() == trim_end(
                    self.url(),
                    '/',
                ) && sdk.is_insecure() == self.is_insecure() && sdk.session() == Some(token@),
                Err(e) => is_url_fault(self.url(), e),
            },
    {
        match Sdk::with_options(self.url.as_str(), self.insecure) {
            Ok(sdk) => Ok(Sdk { url: sdk.url, insecure: sdk.insecure, token: Some(token) }),
            Err(e) => Err(e),
        }
    }
}

impl Sdk {
    /// The URL of the server.
    pub closed spec fn server(&self) -> Seq<char> {
        self.url@
    }

    /// Whether the certificate may be wrong.
    pub closed spec fn is_insecure(&self) -> bool {
        self.insecure
    }

    /// The token of the session.
    pub closed spec fn session(&self) -> Option<Seq<char>> {
        match self.token {
            Some(t) => Some(t@),
            None => None,
        }
    }

    /// Says how a server is to be reached.
    pub fn builder(url: &str) -> (r: SdkBuilder)
        ensures
            r.url() == url@,
            !r.is_insecure(),
    {
        SdkBuilder { url: url.to_owned(), insecure: false }
    }

    /// Reaches a server.
    pub fn new(url: &str) -> (r: Result<Sdk, Error>)
        ensures
            match r {
                Ok(sdk) => url_read(trim_end(url@, '/')) is Ok && sdk.server() == trim_end(url@, '/')
                    && !sdk.is_insecure() && sdk.session() is None,
                Err(e) => is_url_fault(url@, e),
            },
    {
        Sdk::with_options(url, false)
    }

    fn with_options(url: &str, insecure: bool) -> (r: Result<Sdk, Error>)
        ensures
            match r {
                Ok(sdk) => url_read(trim_end(url@, '/')) is Ok && sdk.server() == trim_end(url@, '/')
                    && sdk.is_insecure() == insecure && sdk.session() is None,
                Err(e) => is_url_fault(url@, e),
            },
    {
        let bare = without_end(url, '/');
        match parse_url(bare.as_str()) {
            Ok(_) => Ok(Sdk { url: bare, insecure, token: None }),
            Err(why) => Err(Error::Url(why)),
        }
    }

    /// Whether the certificate of the server may be wrong.
    pub fn insecure(&self) -> (r: bool)
        ensures
            r == self.is_insecure(),
    {
        self.insecure
    }

    /// The token of the session.
    pub fn token(&self) -> (r: Option<&str>)
        ensures
            text_view(r) == self.session(),
    {
        match &self.token {
            Some(t) => Some(t.as_str()),
            None => None,
        }
    }

    /// Enters the session of a token.
    pub fn set_token(&mut self, token: String)
        ensures
            final(self).session() == Some(token@),
            final(self).server() == old(self).server(),
            final(self).is_insecure() == old(self).is_insecure(),
    {
        self.token = Some(token);
    }

    /// How the session is shown to the server.
    pub fn bearer(&self) -> (r: Result<String, Error>)
        ensures
            match r {
                Ok(s) => self.session() is Some && s@ == "Bearer "@ + self.session()->0,
                Err(Error::NotAuthenticated) => self.session() is None,
                Err(_) => false,
            },
    {
        match &self.token {
            Some(t) => Ok(concat("Bearer ", t.as_str())),
            None => Err(Error::NotAuthenticated),
        }
    }

    /// The URL of a call; none if the path of the server's URL cannot be extended.
    pub fn endpoint(&self, call: &Call) -> (r: Option<String>)
        ensures
            match r {
                Some(u) => call_url(self.server(), call@) == Some(u@),
                None => call_url(self.server(), call@) is None,
            },
    {
        let segments = call.segments();
        let query = call.query();
        match extend_url(self.url.as_str(), &segments) {
            Some(url) => if query.len() == 0 {
                Some(url)
            } else {
                query_url(url.as_str(), &query)
            },
            None => None,
        }
    }
}

/// The headers of a request.
pub open spec fn headers_of(session: Option<Seq<char>>, call: Call<Seq<char>>) -> Option<
    Seq<(Seq<char>, Seq<char>)>,
> {
    let mark = ("X-Requested-With"@, "SDKHttpRequest"@);
    if needs_token(call) {
        match session {
            Some(t) => Some(seq![mark, ("Authorization"@, "Bearer "@ + t)]),
            None => None,
        }
    } else {
        Some(seq![mark])
    }
}

impl Sdk {
    /// The headers of a request for the call.
    pub fn headers(&self, call: &Call) -> (r: Result<Vec<(String, String)>, Error>)
        ensures
            match r {
                Ok(h) => headers_of(self.session(), call@) == Some(pairs_view(h@)),
                Err(Error::NotAuthenticated) => headers_of(self.session(), call@) is None,
                Err(_) => false,
            },
    {
        let mut out: Vec<(String, String)> = Vec::new();
        out.push(("X-Requested-With".to_owned(), "SDKHttpRequest".to_owned()));
        match call {
            Call::Login { .. } | Call::About => {
                proof {
                    assert(pairs_view(out@) =~= headers_of(self.session(), call@)->0);
                }
                return Ok(out);
            },
            _ => {},
        }
        match self.bearer() {
            Ok(b) => {
                out.push(("Authorization".to_owned(), b));
                proof {
                    assert(pairs_view(out@) =~= headers_of(self.session(), call@)->0);
                }
                Ok(out)
            },
            Err(_) => Err(Error::NotAuthenticated),
        }
    }
}

/// The headers that make a save conditional on the version that it replaces, and
/// those that mark it as a delta.
pub open spec fn save_headers_of(
    since: Option<u64>,
    delta: bool,
    base: Option<Seq<char>>,
) -> Seq<(Seq<char>, Seq<char>)> {
    let kind = if delta {
        seq![("Content-Type"@, DELTA_MEDIA_TYPE@)]
    } else {
        Seq::empty()
    };
    let lease = match since {
        Some(t) => seq![("If-Unmodified-Since"@, http_date_text(t))],
        None => Seq::empty(),
    };
    let source = match base {
        Some(b) => seq![("X-Copy-Source"@, b)],
        None => Seq::empty(),
    };
    kind + lease + source
}

/// See `save_headers_of`.
pub fn save_headers(since: Option<u64>, delta: bool, base: Option<&str>) -> (r: Vec<(String, String)>)
    requires
        since matches Some(t) ==> t < DATES_END,
    ensures
        pairs_view(r@) == save_headers_of(since, delta, text_view(base)),
{
    let mut out: Vec<(String, String)> = Vec::new();
    if delta {
        out.push(("Content-Type".to_owned(), DELTA_MEDIA_TYPE.to_owned()));
    }
    match since {
        Some(t) => {
            out.push(("If-Unmodified-Since".to_owned(), format_date(t)));
        },
        None => {},
    }
    match base {
        Some(b) => {
            out.push(("X-Copy-Source".to_owned(), b.to_owned()));
        },
        None => {},
    }
    proof {
        assert(pairs_view(out@) =~= save_headers_of(since, delta, text_view(base)));
    }
    out
}

/// Whether a browser has come to the files of the server: the login is over.
pub fn on_files(uri: &str) -> (r: bool)
    ensures
        r == (url_read(uri@) matches Ok(p) && starts(p, "/files"@)),
{
    match parse_url(uri) {
        Ok(p) => starts_with(p.as_str(), "/files"),
        Err(_) => false,
    }
}

} // verus!
