//! How paths and times are written on a system with drives and backslashes.
use crate::model::{opt_view, Moment};
use crate::path::{is_path, lemma_normal_of_path, normal, RelPath};
use crate::text::{after, chars_of, contains, holds_text, starts, string_of, trim_end, without_end};
use vstd::prelude::*;
use vstd::utf8::{decode_utf8, encode_utf8, valid_utf8};

verus! {

/// What may stand before a path that is not looked at closely.
pub const VERBATIM: &'static str = "\\\\?\\";

/// A path without what may stand before it.
pub open spec fn unprefixed(s: Seq<char>) -> Seq<char> {
    if starts(s, VERBATIM@) {
        s.skip(VERBATIM@.len() as int)
    } else {
        s
    }
}

/// A path begins with the letter of a drive.
pub open spec fn has_drive(s: Seq<char>) -> bool {
    s.len() >= 2 && s[1] == ':' && (s[0] as u32) < 128
}

/// A path without the letter of its drive.
pub open spec fn undriven(s: Seq<char>) -> Seq<char> {
    if has_drive(s) {
        s.skip(2)
    } else {
        s
    }
}

/// A path without its volume, and without backslashes at its end.
pub open spec fn stripped(s: Seq<char>) -> Seq<char> {
    trim_end(undriven(unprefixed(s)), '\\')
}

/// See `stripped`.
pub fn strip_volume(s: &str) -> (r: String)
    ensures
        r@ == stripped(s@),
{
    let t = match after(s, VERBATIM) {
        Some(rest) => rest,
        None => s.to_owned(),
    };
    let cs = chars_of(t.as_str());
    let u = if cs.len() >= 2 && cs[1] == ':' && (cs[0] as u32) < 128 {
        let rest = string_of(&cs, 2, cs.len());
        proof {
            assert(rest@ =~= t@.skip(2));
        }
        rest
    } else {
        t
    };
    without_end(u.as_str(), '\\')
}

/// A capital letter.
pub open spec fn is_capital(c: u32) -> bool {
    65 <= c <= 90
}

/// Two characters are the same but for capitals.
pub open spec fn same_letter(a: char, b: char) -> bool {
    let x = a as u32;
    let y = b as u32;
    x == y || (is_capital(x) && x + 32 == y) || (is_capital(y) && y + 32 == x)
}

/// Two texts are the same but for capitals.
pub open spec fn same_but_case(a: Seq<char>, b: Seq<char>) -> bool {
    a.len() == b.len() && forall|i: int|
        0 <= i < a.len() ==> same_letter(#[trigger] a[i], b[i])
}

/// A text with slashes for backslashes.
pub open spec fn slashed(s: Seq<char>) -> Seq<char> {
    s.map_values(|c: char| if c == '\\' { '/' } else { c })
}

/// A text with backslashes for slashes.
pub open spec fn backslashed(s: Seq<char>) -> Seq<char> {
    s.map_values(|c: char| if c == '/' { '\\' } else { c })
}

/// The path below the root of the drive that a full path names, if it lies below
/// it. Capitals make no difference to the root.
pub open spec fn relative(root_novol: Seq<char>, full: Seq<char>) -> Option<Seq<char>> {
    let t = stripped(full);
    let n = root_novol.len() as int;
    if t.len() < n || !same_but_case(t.take(n), root_novol) {
        None
    } else if t.len() == n {
        Some(Seq::empty())
    } else if t[n] == '\\' {
        Some(normal(slashed(t.skip(n + 1))))
    } else {
        None
    }
}

fn same_letters(a: &Vec<char>, b: &Vec<char>) -> (r: bool)
    requires
        a@.len() >= b@.len(),
    ensures
        r == same_but_case(a@.take(b@.len() as int), b@),
{
    let ghost head = a@.take(b@.len() as int);
    let mut i: usize = 0;
    while i < b.len()
        invariant
            i <= b@.len() <= a@.len(),
            head == a@.take(b@.len() as int),
            forall|j: int| #![trigger head[j]] 0 <= j < i ==> same_letter(head[j], b@[j]),
        decreases b@.len() - i,
    {
        let x: u32 = a[i] as u32;
        let y: u32 = b[i] as u32;
        proof {
            assert(head[i as int] == a@[i as int]);
        }
        let alike = x == y || (65 <= x && x <= 90 && x + 32 == y) || (65 <= y && y <= 90 && y + 32
            == x);
        if !alike {
            return false;
        }
        i += 1;
    }
    true
}

fn swapped(cs: &Vec<char>, from: usize, a: char, b: char) -> (r: String)
    requires
        from <= cs@.len(),
    ensures
        r@ == cs@.skip(from as int).map_values(|c: char| if c == a { b } else { c }),
{
    let ghost rest = cs@.skip(from as int);
    let ghost want = rest.map_values(|c: char| if c == a { b } else { c });
    let mut out = String::new();
    let mut i: usize = from;
    proof {
        assert(out@ =~= want.take(0));
    }
    while i < cs.len()
        invariant
            from <= i <= cs@.len(),
            rest == cs@.skip(from as int),
            want == rest.map_values(|c: char| if c == a { b } else { c }),
            out@ == want.take(i - from),
        decreases cs@.len() - i,
    {
        let c = cs[i];
        proof {
            assert(rest[i - from] == c);
            assert(want.take(i + 1 - from) =~= want.take(i - from).push(want[i - from]));
        }
        if c == a {
            out.push(b);
        } else {
            out.push(c);
        }
        i += 1;
    }
    proof {
        assert(want.take(i - from) =~= want);
    }
    out
}

/// See `relative`. `root_novol` is the root of the drive without its volume.
pub fn rel_from_full(root_novol: &str, full: &str) -> (r: Option<RelPath>)
    ensures
        crate::model::opt_view(r) == relative(root_novol@, full@),
{
    let t = strip_volume(full);
    let cs = chars_of(t.as_str());
    let root = chars_of(root_novol);
    let n: usize = root.len();
    if cs.len() < n {
        return None;
    }
    if !same_letters(&cs, &root) {
        return None;
    }
    if cs.len() == n {
        return Some(RelPath::root());
    }
    if cs[n] != '\\' {
        return None;
    }
    let rest = swapped(&cs, n + 1, '\\', '/');
    proof {
        assert(rest@ =~= slashed(stripped(full@).skip(n + 1)));
    }
    Some(RelPath::new(rest.as_str()))
}

/// Where a path is on disk, below a root.
pub open spec fn absolute(root: Seq<char>, path: Seq<char>) -> Seq<char> {
    if path.len() == 0 {
        root
    } else if root.len() > 0 && (root.last() == '\\' || root.last() == '/') {
        root + backslashed(path)
    } else {
        root + seq!['\\'] + backslashed(path)
    }
}

/// See `absolute`.
pub fn abs_of(root: &str, path: &RelPath) -> (r: String)
    ensures
        r@ == absolute(root@, path@),
{
    let mut out = root.to_owned();
    if path.is_root() {
        return out;
    }
    let rs = chars_of(root);
    let ends = rs.len() > 0 && (rs[rs.len() - 1] == '\\' || rs[rs.len() - 1] == '/');
    if !ends {
        out.push('\\');
    }
    let cs = chars_of(path.as_str());
    let tail = swapped(&cs, 0, '/', '\\');
    proof {
        assert(cs@.skip(0) =~= path@);
        assert(tail@ =~= backslashed(path@));
    }
    out.append(tail.as_str());
    proof {
        assert(out@ =~= absolute(root@, path@));
    }
    out
}

/// The way to disk leads back: where a path is on disk names that path, if no
/// step of it holds a backslash.
pub proof fn law_the_way_to_disk_leads_back(root: Seq<char>, path: Seq<char>)
    requires
        has_drive(root),
        root[0] != '\\',
        root.last() != '\\',
        root.last() != '/',
        is_path(path),
        !path.contains('\\'),
    ensures
        relative(stripped(root), absolute(root, path)) == Some(path),
{
    reveal_strlit("\\\\?\\");
    let full = absolute(root, path);
    let bare = root.skip(2);
    assert(VERBATIM@[1] == '\\');
    assert(!starts(root, VERBATIM@)) by {
        if starts(root, VERBATIM@) {
            assert(root.take(VERBATIM@.len() as int)[1] == root[1]);
        }
    }
    assert(full.take(2) =~= root.take(2));
    assert(full[0] == root[0] && full[1] == root[1]);
    assert(!starts(full, VERBATIM@)) by {
        if starts(full, VERBATIM@) {
            assert(full.take(VERBATIM@.len() as int)[1] == full[1]);
        }
    }
    assert(undriven(unprefixed(root)) == bare);
    assert(bare.len() > 0 ==> bare.last() == root.last());
    assert(stripped(root) == bare);
    let n = bare.len() as int;
    assert forall|i: int| 0 <= i < bare.len() implies same_letter(#[trigger] bare[i], bare[i]) by {}
    if path.len() == 0 {
        assert(full =~= root);
        assert(bare.take(n) =~= bare);
    } else {
        let t = full.skip(2);
        assert(t =~= bare + seq!['\\'] + backslashed(path));
        assert(t.last() == backslashed(path).last());
        assert(path.last() != '\\') by {
            assert(path[path.len() - 1] == path.last());
        }
        assert(path.last() != '/') by {
            crate::path::lemma_split_at_last_slash(path);
            crate::path::law_parent_and_name(path);
            if path.last() == '/' {
                crate::path::lemma_last_slash(path);
            }
        }
        assert(stripped(full) == t);
        assert(t.take(n) =~= bare);
        assert(t[n] == '\\');
        assert(t.skip(n + 1) =~= backslashed(path));
        assert(slashed(backslashed(path)) =~= path) by {
            assert forall|i: int| 0 <= i < path.len() implies slashed(backslashed(path))[i]
                == path[i] by {
                assert(path[i] != '\\');
            }
        }
        lemma_normal_of_path(path);
    }
}

/// The seconds from the first day of the year 1601 to the epoch.
pub const EPOCH_DIFF_SECS: i64 = 11_644_473_600;

/// A time in steps of 100 nanoseconds since the year 1601; a time before the
/// epoch counts as the epoch.
pub open spec fn filetime_of(t: Moment) -> int {
    if t.secs >= 0 {
        (t.secs + EPOCH_DIFF_SECS) * 10_000_000 + t.nanos / 100
    } else {
        EPOCH_DIFF_SECS * 10_000_000
    }
}

/// See `filetime_of`.
pub fn filetime(t: Moment) -> (r: i64)
    requires
        filetime_of(t) <= i64::MAX,
    ensures
        r == filetime_of(t),
{
    if t.secs >= 0 {
        (t.secs + EPOCH_DIFF_SECS) * 10_000_000 + (t.nanos / 100) as i64
    } else {
        EPOCH_DIFF_SECS * 10_000_000
    }
}

/// A text in small letters.
pub uninterp spec fn small_letters(s: Seq<char>) -> Seq<char>;

/// A character of the first 128, in small letters.
pub open spec fn small_ascii(c: char) -> char {
    if is_capital(c as u32) {
        ((c as u32) + 32) as char
    } else {
        c
    }
}

/// `str::to_lowercase`: the text in small letters. Of a text in the first 128
/// characters, only the capitals change.
#[verifier::external_body]
fn to_small(s: &str) -> (r: String)
    ensures
        r@ == small_letters(s@),
        (forall|i: int| 0 <= i < s@.len() ==> (#[trigger] s@[i] as u32) < 128) ==> r@
            == s@.map_values(|c: char| small_ascii(c)),
{
    s.to_lowercase()
}

/// Whether a path lies in the recycle bin.
pub fn is_recycle_bin(path: Option<&str>) -> (r: bool)
    ensures
        r == match path {
            Some(s) => holds_text(small_letters(s@), "\\$recycle.bin\\"@),
            None => false,
        },
{
    match path {
        Some(s) => {
            let t = to_small(s);
            in_recycle_bin(t.as_str())
        },
        None => false,
    }
}

/// Whether a path in small letters lies in the recycle bin.
pub fn in_recycle_bin(small: &str) -> (r: bool)
    ensures
        r == holds_text(small@, "\\$recycle.bin\\"@),
{
    contains(small, "\\$recycle.bin\\")
}

/// What a rename that somebody asks for comes to.
#[derive(Debug)]
pub enum Renaming<P = RelPath> {
    /// It is done on the server.
    Rename(P, P),
    /// It is a removal.
    Delete(P),
    /// It is denied.
    Deny,
    /// It is none of our business.
    Accept,
}

impl View for Renaming {
    type V = Renaming<Seq<char>>;

    open spec fn view(&self) -> Renaming<Seq<char>> {
        match self {
            Renaming::Rename(a, b) => Renaming::Rename(a@, b@),
            Renaming::Delete(p) => Renaming::Delete(p@),
            Renaming::Deny => Renaming::Deny,
            Renaming::Accept => Renaming::Accept,
        }
    }
}

/// What a rename comes to, from a path if it is below the root, to one if it can be
/// told.
pub open spec fn renaming_of(
    from: Option<Seq<char>>,
    in_scope: bool,
    to: Option<Seq<char>>,
    recycled: bool,
) -> Renaming<Seq<char>> {
    match (from, to) {
        (Some(f), Some(t)) => if in_scope {
            Renaming::Rename(f, t)
        } else if recycled {
            Renaming::Delete(f)
        } else {
            Renaming::Deny
        },
        (Some(f), None) => if !in_scope && recycled {
            Renaming::Delete(f)
        } else {
            Renaming::Deny
        },
        (None, _) => Renaming::Accept,
    }
}

/// What a rename that somebody asks for comes to. `from` is what it is about, if
/// that is below the root; `in_scope` says that the target is.
pub fn renaming(from: Option<RelPath>, in_scope: bool, to: Option<RelPath>, recycled: bool) -> (r:
    Renaming)
    ensures
        r@ == renaming_of(opt_view(from), in_scope, opt_view(to), recycled),
{
    match from {
        Some(f) => {
            if in_scope {
                match to {
                    Some(t) => Renaming::Rename(f, t),
                    None => Renaming::Deny,
                }
            } else if recycled {
                Renaming::Delete(f)
            } else {
                Renaming::Deny
            }
        },
        None => Renaming::Accept,
    }
}

/// The value of a digit to the base of 16.
pub open spec fn hex_value(b: u8) -> Option<u8> {
    if 48 <= b <= 57 {
        Some((b - 48) as u8)
    } else if 65 <= b <= 70 {
        Some((b - 55) as u8)
    } else if 97 <= b <= 102 {
        Some((b - 87) as u8)
    } else {
        None
    }
}

fn hex(b: u8) -> (r: Option<u8>)
    ensures
        r == hex_value(b),
        r matches Some(v) ==> v < 16,
{
    if 48 <= b && b <= 57 {
        Some(b - 48)
    } else if 65 <= b && b <= 70 {
        Some(b - 55)
    } else if 97 <= b && b <= 102 {
        Some(b - 87)
    } else {
        None
    }
}

/// Three bytes begin that stand for one: a percent sign and two digits.
pub open spec fn is_escape(b: Seq<u8>) -> bool {
    b.len() >= 3 && b[0] == 37 && hex_value(b[1]) is Some && hex_value(b[2]) is Some
}

/// The bytes that are meant: each escape stands for one byte, all others for
/// themselves.
pub open spec fn unescaped(b: Seq<u8>) -> Seq<u8>
    decreases b.len(),
{
    if b.len() == 0 {
        Seq::empty()
    } else if is_escape(b) {
        seq![(hex_value(b[1])->0 * 16 + hex_value(b[2])->0) as u8] + unescaped(b.skip(3))
    } else {
        seq![b[0]] + unescaped(b.skip(1))
    }
}

/// The text that bytes are, with marks for what is no text.
pub uninterp spec fn lossy_text(bytes: Seq<u8>) -> Seq<char>;

/// `String::from_utf8_lossy`: the text that the bytes are. Bytes that are valid
/// give the text that they encode, in others each invalid part is replaced by a
/// mark.
#[verifier::external_body]
fn text_of_bytes(bytes: &[u8]) -> (r: String)
    ensures
        r@ == lossy_text(bytes@),
        valid_utf8(bytes@) ==> r@ == decode_utf8(bytes@),
{
    String::from_utf8_lossy(bytes).into_owned()
}

/// The bytes that a text with escapes means.
pub fn percent_bytes(s: &str) -> (r: Vec<u8>)
    ensures
        r@ == unescaped(encode_utf8(s@)),
{
    let b = s.as_bytes();
    let n: usize = b.len();
    let mut out: Vec<u8> = Vec::new();
    let mut i: usize = 0;
    proof {
        assert(b@.skip(0) =~= b@);
        assert(out@ + unescaped(b@) =~= unescaped(b@));
    }
    while i < n
        invariant
            i <= n,
            n == b@.len(),
            out@ + unescaped(b@.skip(i as int)) == unescaped(b@),
        decreases n - i,
    {
        let ghost rest = b@.skip(i as int);
        let ghost so_far = out@;
        proof {
            assert(rest[0] == b@[i as int]);
            assert(rest.skip(1) =~= b@.skip(i + 1));
        }
        let mut byte: u8 = b[i];
        let mut step: usize = 1;
        if byte == 37 && n - i >= 3 {
            proof {
                assert(rest[1] == b@[i + 1]);
                assert(rest[2] == b@[i + 2]);
                assert(rest.skip(3) =~= b@.skip(i + 3));
            }
            match (hex(b[i + 1]), hex(b[i + 2])) {
                (Some(h), Some(l)) => {
                    byte = h * 16 + l;
                    step = 3;
                },
                _ => {},
            }
        }
        out.push(byte);
        proof {
            assert(so_far.push(byte) + unescaped(b@.skip(i + step)) =~= so_far + (seq![byte]
                + unescaped(b@.skip(i + step))));
        }
        i += step;
    }
    proof {
        assert(b@.skip(i as int) =~= Seq::empty());
        assert(out@ + Seq::<u8>::empty() =~= out@);
    }
    out
}

/// The text that a text with escapes means.
pub fn percent_decode(s: &str) -> (r: String)
    ensures
        r@ == lossy_text(unescaped(encode_utf8(s@))),
        valid_utf8(unescaped(encode_utf8(s@))) ==> r@ == decode_utf8(unescaped(encode_utf8(s@))),
{
    let bytes = percent_bytes(s);
    text_of_bytes(bytes.as_slice())
}

/// Bytes without a percent sign mean themselves.
pub proof fn law_plain_bytes_mean_themselves(b: Seq<u8>)
    requires
        !b.contains(37u8),
    ensures
        unescaped(b) == b,
    decreases b.len(),
{
    if b.len() > 0 {
        assert(b[0] != 37);
        let rest = b.skip(1);
        assert(!rest.contains(37u8)) by {
            if rest.contains(37u8) {
                let j = choose|j: int| 0 <= j < rest.len() && rest[j] == 37u8;
                assert(b[j + 1] == 37u8);
            }
        }
        law_plain_bytes_mean_themselves(rest);
        assert(seq![b[0]] + rest =~= b);
    }
}

/// A rename within the drive is a rename, one to the bin is a removal, and any other
/// way out of the drive is denied; what does not begin in the drive is none of our
/// business.
pub proof fn law_what_a_rename_comes_to(
    from: Option<Seq<char>>,
    in_scope: bool,
    to: Option<Seq<char>>,
    recycled: bool,
)
    ensures
        ({
            let r = renaming_of(from, in_scope, to, recycled);
            &&& r is Accept <==> from is None
            &&& r is Rename <==> from is Some && in_scope && to is Some
            &&& r is Delete <==> from is Some && !in_scope && recycled
            &&& r matches Renaming::Rename(a, b) ==> from == Some(a) && to == Some(b)
            &&& r matches Renaming::Delete(p) ==> from == Some(p)
        }),
{
}

/// The volume makes no difference: what may stand before a path, the letter of its
/// drive and backslashes at its end are left out of it.
pub proof fn law_the_volume_makes_no_difference(letter: char, rest: Seq<char>)
    requires
        (letter as u32) < 128,
        letter != '\\',
    ensures
        stripped(seq![letter, ':'] + rest) == trim_end(rest, '\\'),
        stripped(VERBATIM@ + (seq![letter, ':'] + rest)) == trim_end(rest, '\\'),
{
    reveal_strlit("\\\\?\\");
    let s = seq![letter, ':'] + rest;
    assert(VERBATIM@[0] == '\\');
    assert(s[0] == letter && s[1] == ':');
    assert(!starts(s, VERBATIM@)) by {
        if starts(s, VERBATIM@) {
            assert(s.take(VERBATIM@.len() as int)[0] == s[0]);
        }
    }
    assert(s.skip(2) =~= rest);
    let long = VERBATIM@ + s;
    assert(long.take(VERBATIM@.len() as int) =~= VERBATIM@);
    assert(long.skip(VERBATIM@.len() as int) =~= s);
}

} // verus!
