//! What holds of every text, every request and every command line.
use crate::args::{chosen, lacks_password, misuse};
use crate::config::{
    is_ignored, logged_out, session_after, session_view, updated, ConfigFile, SessionView, Update,
};
use crate::gui::CredentialsView;
use crate::sdk::{
    cookie_in, cookie_index, cookies_in, date_in, first_cut, first_word, headers_of, is_ordered,
    kind_of, method_of, part_name, parts_from, placed, query_of, save_headers_of, server_url,
    session_parts, size_in, token_in, value_of, values_of, word, Call, Error, ErrorKind, Method,
    COOKIE_NAME_SESSION, DELTA_MEDIA_TYPE,
};
use crate::text::{
    decimal_of, holds_text, is_digit, is_number, is_white, number, parsed, split, trim, trim_end,
    trim_head, trim_tail,
};
use vstd::prelude::*;

verus! {

proof fn lemma_digits(n: nat)
    ensures
        is_number(decimal_of(n)),
        number(decimal_of(n)) == n,
    decreases n,
{
    let s = decimal_of(n);
    let last = ('0' as u32 + n % 10) as char;
    assert(last as u32 == '0' as u32 + n % 10);
    if n < 10 {
        assert(s =~= seq![last]);
        assert(s.drop_last() =~= Seq::<char>::empty());
        assert(number(Seq::<char>::empty()) == 0);
        assert(number(s) == number(s.drop_last()) * 10 + (s.last() as u32 - '0' as u32) as nat);
    } else {
        let front = decimal_of(n / 10);
        lemma_digits(n / 10);
        assert(s == front.push(last));
        assert(s.drop_last() =~= front);
        assert forall|i: int| 0 <= i < s.len() implies is_digit(#[trigger] s[i]) by {
            if i < front.len() {
                assert(is_digit(front[i]));
            }
        }
        assert(number(s) == number(front) * 10 + n % 10);
        assert(n == (n / 10) * 10 + n % 10) by (nonlinear_arith);
    }
}

/// A number that is written out and read again is the same number.
pub proof fn law_a_number_survives_being_written(n: nat, max: nat)
    ensures
        n <= max ==> parsed(decimal_of(n), max) == Some(n),
        n > max ==> parsed(decimal_of(n), max) is None,
        parsed(seq!['+'] + decimal_of(n), max) == parsed(decimal_of(n), max),
{
    lemma_digits(n);
    let d = decimal_of(n);
    assert(is_digit(d[0]));
    assert((seq!['+'] + d).drop_first() =~= d);
}

/// What is no number is not taken for one: there is a digit, and nothing but digits
/// behind a sign that may stand before them.
pub proof fn law_what_a_number_is(s: Seq<char>, max: nat, i: int)
    requires
        parsed(s, max) is Some,
    ensures
        parsed(s, max)->0 <= max,
        s.len() > 0,
        0 <= i < s.len() ==> is_digit(s[i]) || (i == 0 && s[0] == '+' && s.len() > 1),
{
    if s[0] == '+' {
        let d = s.drop_first();
        assert(is_number(d));
        if 0 < i < s.len() {
            assert(is_digit(d[i - 1]));
        }
    }
}

proof fn lemma_trim_end(s: Seq<char>, c: char)
    ensures
        trim_end(s, c).len() <= s.len(),
        s.take(trim_end(s, c).len() as int) == trim_end(s, c),
        trim_end(s, c).len() > 0 ==> trim_end(s, c).last() != c,
        forall|i: int| trim_end(s, c).len() <= i < s.len() ==> #[trigger] s[i] == c,
    decreases s.len(),
{
    if s.len() > 0 && s.last() == c {
        let front = s.drop_last();
        lemma_trim_end(front, c);
        assert(s.take(trim_end(s, c).len() as int) =~= front.take(trim_end(s, c).len() as int));
        assert forall|i: int| trim_end(s, c).len() <= i < s.len() implies #[trigger] s[i] == c by {
            if i < front.len() {
                assert(front[i] == c);
            }
        }
    } else {
        assert(s.take(s.len() as int) =~= s);
    }
}

proof fn lemma_trim_tail(s: Seq<char>)
    ensures
        trim_tail(s).len() <= s.len(),
        s.take(trim_tail(s).len() as int) == trim_tail(s),
        trim_tail(s).len() > 0 ==> !is_white(trim_tail(s).last()),
        forall|i: int| trim_tail(s).len() <= i < s.len() ==> is_white(#[trigger] s[i]),
    decreases s.len(),
{
    if s.len() > 0 && is_white(s.last()) {
        let front = s.drop_last();
        lemma_trim_tail(front);
        assert(s.take(trim_tail(s).len() as int) =~= front.take(trim_tail(s).len() as int));
        assert forall|i: int| trim_tail(s).len() <= i < s.len() implies is_white(#[trigger] s[i]) by {
            if i < front.len() {
                assert(is_white(front[i]));
            }
        }
    } else {
        assert(s.take(s.len() as int) =~= s);
    }
}

proof fn lemma_trim_head(s: Seq<char>)
    ensures
        trim_head(s).len() <= s.len(),
        s.skip(s.len() - trim_head(s).len()) == trim_head(s),
        trim_head(s).len() > 0 ==> !is_white(trim_head(s)[0]),
        forall|i: int| 0 <= i < s.len() - trim_head(s).len() ==> is_white(#[trigger] s[i]),
    decreases s.len(),
{
    if s.len() > 0 && is_white(s[0]) {
        let rest = s.drop_first();
        lemma_trim_head(rest);
        assert(s.skip(s.len() - trim_head(s).len()) =~= rest.skip(rest.len() - trim_head(rest).len()));
        assert forall|i: int| 0 <= i < s.len() - trim_head(s).len() implies is_white(#[trigger] s[i]) by {
            if i > 0 {
                assert(is_white(rest[i - 1]));
            }
        }
    } else {
        assert(s.skip(0) =~= s);
    }
}

/// Of a text nothing is cut but white space at its ends, and all of that; of a text
/// with an end to be cut, nothing but that end.
pub proof fn law_what_is_cut_from_a_text(s: Seq<char>, c: char)
    ensures
        ({
            let t = trim(s);
            &&& t.len() > 0 ==> !is_white(t[0]) && !is_white(t.last())
            &&& exists|i: int|
                0 <= i && i + t.len() <= s.len() && #[trigger] s.subrange(i, i + t.len()) == t && (forall|
                    k: int,
                |
                    (0 <= k < i || i + t.len() <= k < s.len()) ==> is_white(#[trigger] s[k]))
        }),
        trim_end(s, c).is_prefix_of(s),
        trim_end(s, c).len() > 0 ==> trim_end(s, c).last() != c,
        forall|i: int| trim_end(s, c).len() <= i < s.len() ==> #[trigger] s[i] == c,
{
    lemma_trim_end(s, c);
    assert(trim_end(s, c) =~= s.subrange(0, trim_end(s, c).len() as int));
    let u = trim_tail(s);
    lemma_trim_tail(s);
    lemma_trim_head(u);
    let t = trim(s);
    let i = u.len() - t.len();
    assert(s.subrange(i, i + t.len()) =~= u.skip(i));
    if t.len() > 0 {
        assert(t.last() == u.last());
    }
    assert forall|k: int| (0 <= k < i || i + t.len() <= k < s.len()) implies is_white(#[trigger] s[k]) by {
        if k < i {
            assert(is_white(u[k]));
            assert(s.take(u.len() as int)[k] == s[k]);
        }
    }
}

/// A word is what stands before the first white space.
pub proof fn law_a_word_ends_at_white_space(s: Seq<char>)
    ensures
        word(s).is_prefix_of(s),
        forall|i: int| 0 <= i < word(s).len() ==> !is_white(#[trigger] s[i]),
        word(s).len() < s.len() ==> is_white(s[word(s).len() as int]),
    decreases s.len(),
{
    if s.len() > 0 && !is_white(s[0]) {
        let rest = s.drop_first();
        law_a_word_ends_at_white_space(rest);
        assert(word(s) =~= s.subrange(0, word(s).len() as int)) by {
            assert(word(rest) =~= rest.subrange(0, word(rest).len() as int));
            assert forall|i: int| 0 <= i < word(s).len() implies word(s)[i] == s[i] by {
                if i > 0 {
                    assert(word(rest)[i - 1] == rest[i - 1]);
                }
            }
        }
        assert forall|i: int| 0 <= i < word(s).len() implies !is_white(#[trigger] s[i]) by {
            if i > 0 {
                assert(!is_white(rest[i - 1]));
            }
        }
        if word(s).len() < s.len() {
            assert(rest[word(rest).len() as int] == s[word(s).len() as int]);
        }
    } else {
        assert(word(s) =~= s.subrange(0, 0));
    }
}

/// A cookie is cut at its first equals sign, and is none without one.
pub proof fn law_a_cookie_is_cut_at_the_first_sign(s: Seq<char>)
    ensures
        first_cut(s) matches Some((a, b)) ==> s == a + seq!['='] + b && !a.contains('='),
        first_cut(s) is None <==> !s.contains('='),
    decreases s.len(),
{
    if s.len() > 0 {
        let rest = s.drop_first();
        law_a_cookie_is_cut_at_the_first_sign(rest);
        if s[0] == '=' {
            assert(s.contains(s[0]));
            assert(Seq::<char>::empty() + seq!['='] + rest =~= s);
        } else {
            assert(s.contains('=') <==> rest.contains('=')) by {
                if s.contains('=') {
                    let i = choose|i: int| 0 <= i < s.len() && s[i] == '=';
                    assert(rest[i - 1] == '=');
                }
                if rest.contains('=') {
                    let i = choose|i: int| 0 <= i < rest.len() && rest[i] == '=';
                    assert(s[i + 1] == '=');
                }
            }
            if let Some((a, b)) = first_cut(rest) {
                let whole = seq![s[0]] + a;
                assert(whole + seq!['='] + b =~= seq![s[0]] + (a + seq!['='] + b));
                assert(seq![s[0]] + rest =~= s);
                if whole.contains('=') {
                    let i = choose|i: int| 0 <= i < whole.len() && whole[i] == '=';
                    assert(a[i - 1] == '=');
                }
            }
        }
    }
}

/// Of cookies with the same name the first counts.
pub proof fn law_the_first_cookie_of_a_name_counts(
    cookies: Seq<(Seq<char>, Seq<char>)>,
    name: Seq<char>,
)
    ensures
        match value_of(cookies, name) {
            Some(v) => exists|i: int|
                0 <= i < cookies.len() && (#[trigger] cookies[i]) == (name, v) && forall|j: int|
                    0 <= j < i ==> (#[trigger] cookies[j]).0 != name,
            None => forall|i: int| 0 <= i < cookies.len() ==> (#[trigger] cookies[i]).0 != name,
        },
    decreases cookies.len(),
{
    if cookies.len() > 0 {
        let rest = cookies.drop_first();
        law_the_first_cookie_of_a_name_counts(rest, name);
        if cookies[0].0 != name {
            match value_of(rest, name) {
                Some(v) => {
                    let i = choose|i: int|
                        0 <= i < rest.len() && (#[trigger] rest[i]) == (name, v) && forall|j: int|
                            0 <= j < i ==> (#[trigger] rest[j]).0 != name;
                    assert(cookies[i + 1] == (name, v));
                    assert forall|j: int| 0 <= j < i + 1 implies (#[trigger] cookies[j]).0 != name by {
                        if j > 0 {
                            assert(rest[j - 1].0 != name);
                        }
                    }
                },
                None => {
                    assert forall|i: int| 0 <= i < cookies.len() implies (#[trigger] cookies[i]).0 != name by {
                        if i > 0 {
                            assert(rest[i - 1].0 != name);
                        }
                    }
                },
            }
        } else {
            assert(cookies[0] == (name, cookies[0].1));
        }
    }
}

proof fn lemma_placed_keeps(parts: Seq<(nat, Seq<char>)>, item: (nat, Seq<char>))
    ensures
        placed(parts, item).to_multiset() == parts.to_multiset().insert(item),
    decreases parts.len(),
{
    broadcast use vstd::seq_lib::group_to_multiset_ensures;

    if !(parts.len() == 0 || parts.last().0 <= item.0) {
        let front = parts.drop_last();
        lemma_placed_keeps(front, item);
        assert(front.push(parts.last()) =~= parts);
        assert(placed(parts, item).to_multiset() =~= parts.to_multiset().insert(item));
    }
}

/// No part of a session is lost or added: the parts are those cookies that belong to
/// it, each with its place.
pub proof fn law_no_part_of_a_session_is_lost(
    cookies: Seq<(Seq<char>, Seq<char>)>,
    cookie: (Seq<char>, Seq<char>),
)
    ensures
        session_parts(cookies.push(cookie)).to_multiset() == match cookie_index(cookie.0) {
            Some(i) => session_parts(cookies).to_multiset().insert((i, cookie.1)),
            None => session_parts(cookies).to_multiset(),
        },
{
    assert(cookies.push(cookie).drop_last() =~= cookies);
    if let Some(i) = cookie_index(cookie.0) {
        lemma_placed_keeps(session_parts(cookies), (i, cookie.1));
    }
}

/// The name that is given to a part of a session tells its place.
pub proof fn law_a_part_is_found_by_its_name(i: nat)
    requires
        i <= u32::MAX,
    ensures
        cookie_index(part_name(i)) == Some(i),
{
    let name = part_name(i);
    let base = COOKIE_NAME_SESSION@;
    assert(name.take(base.len() as int) =~= base);
    if i == 0 {
        assert(name.skip(base.len() as int) =~= Seq::<char>::empty());
    } else {
        law_a_number_survives_being_written(i, u32::MAX as nat);
        lemma_digits(i);
        assert(name.skip(base.len() as int) =~= decimal_of(i));
    }
}

/// The token is put together from its parts in order, beginning with the first, up
/// to the first that is missing.
pub proof fn law_how_a_token_is_put_together(cookies: Seq<(Seq<char>, Seq<char>)>, i: nat)
    requires
        i <= cookies.len(),
    ensures
        value_of(cookies, part_name(i)) is None ==> parts_from(cookies, i).len() == 0,
        value_of(cookies, part_name(i)) matches Some(v) ==> parts_from(cookies, i) == v + parts_from(
            cookies,
            i + 1,
        ),
{
}

/// A server is asked under a URL that has a scheme and no slash at its end; a scheme
/// that was typed in is kept.
pub proof fn law_the_url_of_a_server(input: Seq<char>)
    ensures
        server_url(input).len() > 0 ==> server_url(input).last() != '/',
        !holds_text(trim(input), "://"@) ==> server_url(input).is_prefix_of("https://"@ + trim(input)),
        holds_text(trim(input), "://"@) ==> server_url(input).is_prefix_of(trim(input)),
{
    let t = trim(input);
    law_what_is_cut_from_a_text(t, '/');
    law_what_is_cut_from_a_text("https://"@ + t, '/');
}

/// The version that a server tells is the first word of what it says, without white
/// space.
pub proof fn law_a_version_is_one_word(s: Seq<char>, i: int)
    requires
        0 <= i < s.len(),
        !is_white(s[i]),
    ensures
        ({
            let v = first_word(s);
            &&& v.len() > 0
            &&& forall|k: int| 0 <= k < v.len() ==> !is_white(#[trigger] v[k])
            &&& exists|k: int|
                0 <= k && k + v.len() <= s.len() && #[trigger] s.subrange(k, k + v.len()) == v && (forall|
                    j: int,
                |
                    0 <= j < k ==> is_white(#[trigger] s[j])) && (k + v.len() < s.len() ==> is_white(
                    s[k + v.len()],
                ))
        }),
{
    let t = trim_head(s);
    lemma_trim_head(s);
    law_a_word_ends_at_white_space(t);
    let v = first_word(s);
    let k = s.len() - t.len();
    if t.len() == 0 {
        assert(is_white(s[i]));
    }
    assert(v == word(t));
    assert(word(t).len() > 0);
    assert(v =~= t.subrange(0, v.len() as int));
    assert forall|j: int| 0 <= j < v.len() implies !is_white(#[trigger] v[j]) by {
        assert(v[j] == t[j]);
    }
    assert(s.subrange(k, k + v.len()) =~= t.subrange(0, v.len() as int));
    if k + v.len() < s.len() {
        assert(t[v.len() as int] == s[k + v.len()]);
    }
}

/// The values of a session are put together in order, and each header that sets a
/// cookie gives one: what stands before the first semicolon, without white space
/// around it.
pub proof fn law_cookies_are_read_in_order(
    parts: Seq<(nat, Seq<char>)>,
    part: (nat, Seq<char>),
    headers: Seq<Seq<char>>,
    cookie: Seq<char>,
    rest: Seq<char>,
)
    requires
        !cookie.contains(';'),
    ensures
        values_of(parts.push(part)) == values_of(parts) + part.1,
        values_of(Seq::empty()).len() == 0,
        cookie_in(cookie) == first_cut(trim(cookie)),
        cookie_in(cookie + seq![';'] + rest) == first_cut(trim(cookie)),
        cookies_in(headers.push(cookie)) == match first_cut(trim(cookie)) {
            Some(c) => cookies_in(headers).push(c),
            None => cookies_in(headers),
        },
        token_in(headers) == parts_from(cookies_in(headers), 0),
{
    assert(parts.push(part).drop_last() =~= parts);
    assert(headers.push(cookie).drop_last() =~= headers);
    crate::text::split_of_plain(cookie, ';');
    lemma_first_piece(cookie, rest);
}

proof fn lemma_first_piece(a: Seq<char>, b: Seq<char>)
    requires
        !a.contains(';'),
    ensures
        split(a + seq![';'] + b, ';')[0] == a,
        split(a + seq![';'] + b, ';').len() > 1,
    decreases b.len(),
{
    let s = a + seq![';'] + b;
    if b.len() == 0 {
        crate::text::split_of_plain(a, ';');
        assert(s.drop_last() =~= a);
    } else {
        lemma_first_piece(a, b.drop_last());
        assert(s.drop_last() =~= a + seq![';'] + b.drop_last());
    }
}

/// What an error means to a program: that there is no such file, that it may not, or
/// that something else is wrong.
pub proof fn law_what_an_error_means(e: Error)
    ensures
        kind_of(e) == ErrorKind::NotFound <==> e is NotFound,
        kind_of(e) == ErrorKind::PermissionDenied <==> e is PermissionDenied,
{
}

/// A size or a date that the server does not tell, or tells in a way that cannot be
/// read, is not known.
pub proof fn law_what_the_server_does_not_tell(text: Option<Seq<char>>, n: u64)
    ensures
        text is None ==> size_in(text) is None && date_in(text) is None,
        size_in(Some(decimal_of(n as nat))) == Some(n),
{
    law_a_number_survives_being_written(n as nat, u64::MAX as nat);
}

/// The path that a call is about.
pub open spec fn path_in(call: Call<Seq<char>>) -> Option<Seq<char>> {
    match call {
        Call::Ls(p) => Some(p),
        Call::Stat(p) => Some(p),
        Call::Cat(p) => Some(p),
        Call::Thumbnail(p) => Some(p),
        Call::Save(p) => Some(p),
        Call::Mkdir(p) => Some(p),
        Call::Rm(p) => Some(p),
        _ => None,
    }
}

/// A call names the path that it is about, and a move both of its paths, each for
/// what it is.
pub proof fn law_a_call_names_its_paths(call: Call<Seq<char>>)
    ensures
        path_in(call) matches Some(p) ==> query_of(call).contains(("path"@, p)),
        call matches Call::Mv { from, to } ==> query_of(call).contains(("from"@, from)) && query_of(
            call,
        ).contains(("to"@, to)),
        call matches Call::Login { storage } ==> query_of(call).contains(("label"@, storage)),
{
    let q = query_of(call);
    match call {
        Call::Mv { from, to } => {
            assert(q[0] == ("from"@, from));
            assert(q[1] == ("to"@, to));
        },
        Call::Login { storage } => assert(q[0] == ("label"@, storage)),
        _ => {
            if let Some(p) = path_in(call) {
                assert(q[0] == ("path"@, p));
            }
        },
    }
}

/// A call that changes something is never one that a browser may repeat by itself,
/// and one that only looks changes nothing.
pub proof fn law_which_calls_change_something(call: Call<Seq<char>>)
    ensures
        call is Save || call is Mkdir || call is Rm || call is Mv || call is Login <==> method_of(call)
            == Method::Post,
        call is Ls || call is Cat || call is Thumbnail || call is About <==> method_of(call)
            == Method::Get,
        call is Stat <==> method_of(call) == Method::Head,
        call is Logout <==> method_of(call) == Method::Delete,
        call is SaveOptions <==> method_of(call) == Method::Options,
{
}

/// The token goes with every call except those that are made before the login, and
/// such a call cannot be made without one.
pub proof fn law_the_token_goes_with_the_call(session: Option<Seq<char>>, call: Call<Seq<char>>)
    ensures
        headers_of(session, call) is None <==> session is None && !(call is Login || call is About),
        headers_of(session, call) matches Some(h) ==> {
            &&& h.contains(("X-Requested-With"@, "SDKHttpRequest"@))
            &&& session is Some && !(call is Login || call is About) ==> h.contains(
                ("Authorization"@, "Bearer "@ + session->0),
            )
            &&& call is Login || call is About ==> h.len() == 1
        },
{
    if let Some(h) = headers_of(session, call) {
        assert(h[0] == ("X-Requested-With"@, "SDKHttpRequest"@));
        if session is Some && !(call is Login || call is About) {
            assert(h[1] == ("Authorization"@, "Bearer "@ + session->0));
        }
    }
}

/// A save that may only replace a certain version says so, a delta is marked as one,
/// and names what it builds on; else nothing is said.
pub proof fn law_what_goes_with_a_save(since: Option<u64>, delta: bool, base: Option<Seq<char>>)
    ensures
        ({
            let h = save_headers_of(since, delta, base);
            let lease = if since is Some {
                1int
            } else {
                0
            };
            let kind = if delta {
                1int
            } else {
                0
            };
            let source = if base is Some {
                1int
            } else {
                0
            };
            &&& h.len() == lease + kind + source
            &&& since matches Some(t) ==> h.contains(
                ("If-Unmodified-Since"@, crate::sdk::http_date_text(t)),
            )
            &&& delta ==> h.contains(("Content-Type"@, DELTA_MEDIA_TYPE@))
            &&& base matches Some(b) ==> h.contains(("X-Copy-Source"@, b))
        }),
{
    let h = save_headers_of(since, delta, base);
    let k = if delta {
        1int
    } else {
        0
    };
    if delta {
        assert(h[0] == ("Content-Type"@, DELTA_MEDIA_TYPE@));
    }
    if let Some(t) = since {
        assert(h[k] == ("If-Unmodified-Since"@, crate::sdk::http_date_text(t)));
    }
    if let Some(b) = base {
        assert(h[h.len() - 1] == ("X-Copy-Source"@, b));
    }
}

/// What lies below an ignored directory is ignored with it; else a path is ignored for
/// one of its own names.
pub proof fn law_what_lies_below_an_ignored_directory_is_ignored(
    names: Set<Seq<char>>,
    dir: Seq<char>,
    name: Seq<char>,
)
    requires
        !name.contains('/'),
    ensures
        is_ignored(names, name) <==> names.contains(name),
        is_ignored(names, dir.push('/') + name) <==> is_ignored(names, dir) || names.contains(name),
{
    crate::text::split_of_append(Seq::empty(), name, '/');
    crate::text::split_of_append(dir, name, '/');
    let parts = split(dir, '/');
    let all = parts.push(name);
    let path = dir.push('/') + name;
    assert(split(path, '/') == all);
    assert(all[parts.len() as int] == name);
    if is_ignored(names, dir) {
        let i = choose|i: int| 0 <= i < parts.len() && names.contains(#[trigger] parts[i]);
        assert(names.contains(all[i]));
        assert(names.contains(split(path, '/')[i]));
    }
    if names.contains(name) {
        assert(names.contains(split(path, '/')[parts.len() as int]));
    }
    if is_ignored(names, path) {
        let i = choose|i: int| 0 <= i < all.len() && names.contains(#[trigger] split(path, '/')[i]);
        if i < parts.len() {
            assert(parts[i] == all[i]);
        }
    }
    crate::text::split_of_plain(name, '/');
    assert(split(name, '/')[0] == name);
    if names.contains(name) {
        assert(names.contains(split(name, '/')[0]));
    }
}

/// The command line is misused where it gives both a token and a user, and where it
/// gives either without a server.
pub proof fn law_when_the_command_line_is_misused(server: bool, token: bool, user: bool)
    ensures
        misuse(server, token, user) is Some <==> (token && user) || ((token || user) && !server),
{
}

/// The credentials come from one place: from the command line where it names a
/// server, with the token or the user that it gives, and else from what was stored.
pub proof fn law_where_the_credentials_come_from(
    server: Option<Seq<char>>,
    token: Option<Seq<char>>,
    user: Option<Seq<char>>,
    password: Option<Seq<char>>,
    storage: Option<Seq<char>>,
    insecure: bool,
    stored: Option<CredentialsView>,
)
    ensures
        ({
            let c = chosen(server, token, user, password, storage, insecure, stored);
            &&& server is None ==> c == stored
            &&& server is Some ==> (c is Some <==> token is Some || user is Some)
            &&& server is Some && c is Some ==> c->0.url == server->0 && c->0.insecure == insecure
            &&& server is Some && token is Some ==> c->0.token == token->0 && c->0.user.len() == 0
                && c->0.password.len() == 0
            &&& server is Some && token is None && user is Some ==> c->0.user == user->0
                && c->0.token.len() == 0
            &&& server is Some && token is None && user is Some && password is Some ==> c->0.password
                == password->0
            &&& server is Some && token is None && user is Some && password is None
                ==> c->0.password.len() == 0
            &&& server is Some && token is None && user is Some && storage is Some ==> c->0.storage
                == storage->0
        }),
{
}

/// A password is asked for where a user is given and no password, or an empty one.
pub proof fn law_when_a_password_is_asked_for(user: bool, password: Option<Seq<char>>)
    ensures
        lacks_password(user, password) <==> user && (password is None || password->0.len() == 0),
{
}

/// A logout takes the token away and nothing else.
pub proof fn law_a_logout_takes_the_token_away(s: Option<SessionView>)
    ensures
        logged_out(s) is Some <==> s is Some,
        s matches Some(before) ==> logged_out(s)->0.token.len() == 0 && logged_out(s)->0.url
            == before.url && logged_out(s)->0.insecure == before.insecure,
{
}

/// The file is rewritten only where the session changes: the same session again
/// leaves it as it is.
pub proof fn law_the_same_session_changes_nothing<R>(
    before: ConfigFile<R>,
    rest_is_empty: bool,
    r: Update<R>,
)
    requires
        updated(before, rest_is_empty, session_view(before.session), r),
    ensures
        r is Keep || (r is Delete && before.session is None),
        session_after(before, r) == session_view(before.session),
{
}

/// A part of a session is put behind all parts whose place is not greater, and before
/// those whose place is.
pub proof fn law_where_a_part_is_put(parts: Seq<(nat, Seq<char>)>, item: (nat, Seq<char>))
    requires
        is_ordered(parts),
    ensures
        exists|k: int|
            0 <= k <= parts.len() && placed(parts, item) == #[trigger] parts.take(k).push(item)
                + parts.skip(k) && (forall|j: int|
                0 <= j < k ==> (#[trigger] parts[j]).0 <= item.0) && (forall|j: int|
                k <= j < parts.len() ==> (#[trigger] parts[j]).0 > item.0),
    decreases parts.len(),
{
    let n = parts.len() as int;
    if n == 0 || parts.last().0 <= item.0 {
        assert(parts.take(n).push(item) + parts.skip(n) =~= parts.push(item));
        assert forall|j: int| 0 <= j < n implies (#[trigger] parts[j]).0 <= item.0 by {
            if j < n - 1 {
                assert(parts[j].0 <= parts[n - 1].0);
            }
        }
    } else {
        let front = parts.drop_last();
        assert(is_ordered(front)) by {
            assert forall|i: int, j: int|
                #![trigger front[i], front[j]]
                0 <= i < j < front.len() implies front[i].0 <= front[j].0 by {
                assert(parts[i].0 <= parts[j].0);
            }
        }
        law_where_a_part_is_put(front, item);
        let k = choose|k: int|
            0 <= k <= front.len() && placed(front, item) == #[trigger] front.take(k).push(item)
                + front.skip(k) && (forall|j: int|
                0 <= j < k ==> (#[trigger] front[j]).0 <= item.0) && (forall|j: int|
                k <= j < front.len() ==> (#[trigger] front[j]).0 > item.0);
        assert(parts.take(k).push(item) + parts.skip(k) =~= (front.take(k).push(item) + front.skip(
            k,
        )).push(parts.last()));
        assert forall|j: int| 0 <= j < k implies (#[trigger] parts[j]).0 <= item.0 by {
            assert(front[j] == parts[j]);
        }
        assert forall|j: int| k <= j < parts.len() implies (#[trigger] parts[j]).0 > item.0 by {
            if j < n - 1 {
                assert(front[j] == parts[j]);
            }
        }
    }
}

} // verus!
