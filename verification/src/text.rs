//! Strings, read and built character by character.
use vstd::prelude::*;

verus! {

/// `String::push` appends the character to the string.
pub assume_specification[ String::push ](s: &mut String, c: char)
    ensures
        final(s)@ == old(s)@.push(c),
;

/// `a` comes strictly before `b` in the order of their characters, the order
/// in which `String` compares.
pub open spec fn precedes(a: Seq<char>, b: Seq<char>) -> bool
    decreases a.len(),
{
    if b.len() == 0 {
        false
    } else if a.len() == 0 {
        true
    } else if a[0] != b[0] {
        (a[0] as int) < (b[0] as int)
    } else {
        precedes(a.drop_first(), b.drop_first())
    }
}

/// The order is irreflexive.
pub proof fn precedes_irreflexive(a: Seq<char>)
    ensures
        !precedes(a, a),
    decreases a.len(),
{
    if a.len() > 0 {
        precedes_irreflexive(a.drop_first());
    }
}

/// The order is transitive.
pub proof fn precedes_transitive(a: Seq<char>, b: Seq<char>, c: Seq<char>)
    requires
        precedes(a, b),
        precedes(b, c),
    ensures
        precedes(a, c),
    decreases a.len(),
{
    if a.len() > 0 && a[0] == b[0] && b[0] == c[0] {
        precedes_transitive(a.drop_first(), b.drop_first(), c.drop_first());
    }
}

/// Two different strings are always in one order or the other.
pub proof fn precedes_total(a: Seq<char>, b: Seq<char>)
    ensures
        a == b || precedes(a, b) || precedes(b, a),
    decreases a.len(),
{
    if a.len() == 0 || b.len() == 0 {
        if a.len() == b.len() {
            assert(a =~= b);
        }
    } else if a[0] == b[0] {
        precedes_total(a.drop_first(), b.drop_first());
        if a.drop_first() == b.drop_first() {
            assert(a =~= seq![a[0]] + a.drop_first());
            assert(b =~= seq![b[0]] + b.drop_first());
        }
    }
}

/// A string comes before each of its proper extensions.
pub proof fn precedes_extension(a: Seq<char>, tail: Seq<char>)
    requires
        tail.len() > 0,
    ensures
        precedes(a, a + tail),
    decreases a.len(),
{
    if a.len() > 0 {
        precedes_extension(a.drop_first(), tail);
        assert((a + tail).drop_first() =~= a.drop_first() + tail);
    }
}

/// How two strings stand to each other in the order of `precedes`.
#[derive(Clone, Copy, Debug, PartialEq, Eq, Structural)]
pub enum Order {
    Before,
    Same,
    After,
}

/// Where the first string stands relative to the second.
pub fn order(a: &str, b: &str) -> (r: Order)
    ensures
        match r {
            Order::Before => precedes(a@, b@),
            Order::Same => a@ == b@,
            Order::After => precedes(b@, a@),
        },
{
    broadcast use vstd::string::group_string_axioms;

    let mut x = a.chars();
    let mut y = b.chars();
    let ghost mut i: int = 0;
    loop
        invariant
            0 <= i <= a@.len(),
            i <= b@.len(),
            vstd::std_specs::iter::IteratorSpec::obeys_prophetic_iter_laws(&x),
            vstd::std_specs::iter::IteratorSpec::obeys_prophetic_iter_laws(&y),
            vstd::std_specs::iter::IteratorSpec::remaining(&x) == a@.skip(i),
            vstd::std_specs::iter::IteratorSpec::remaining(&y) == b@.skip(i),
            precedes(a@, b@) == precedes(a@.skip(i), b@.skip(i)),
            precedes(b@, a@) == precedes(b@.skip(i), a@.skip(i)),
            a@.take(i) == b@.take(i),
        decreases a@.len() - i,
    {
        let c = x.next();
        let d = y.next();
        match (c, d) {
            (None, None) => {
                proof {
                    assert(a@.take(i) =~= a@);
                    assert(b@.take(i) =~= b@);
                }
                return Order::Same;
            },
            (None, Some(_)) => {
                return Order::Before;
            },
            (Some(_), None) => {
                return Order::After;
            },
            (Some(c), Some(d)) => {
                proof {
                    vstd::utf8::char_u32_cast(c, c as u32);
                    vstd::utf8::char_u32_cast(d, d as u32);
                    assert(c == a@[i] && d == b@[i]);
                    assert(a@.skip(i)[0] == c && b@.skip(i)[0] == d);
                    assert(a@.skip(i).drop_first() =~= a@.skip(i + 1));
                    assert(b@.skip(i).drop_first() =~= b@.skip(i + 1));
                }
                if (c as u32) < (d as u32) {
                    return Order::Before;
                }
                if (d as u32) < (c as u32) {
                    return Order::After;
                }
                proof {
                    assert(a@.take(i + 1) =~= a@.take(i).push(c));
                    assert(b@.take(i + 1) =~= b@.take(i).push(d));
                    i = i + 1;
                }
            },
        }
    }
}

/// Whether two strings hold the same characters.
pub fn same(a: &str, b: &str) -> (r: bool)
    ensures
        r == (a@ == b@),
{
    proof {
        precedes_irreflexive(a@);
    }
    match order(a, b) {
        Order::Same => true,
        Order::Before => false,
        Order::After => false,
    }
}

/// The characters of a string.
pub fn chars_of(s: &str) -> (r: Vec<char>)
    ensures
        r@ == s@,
{
    broadcast use vstd::string::group_string_axioms;

    let mut out: Vec<char> = Vec::new();
    for c in it: s.chars()
        invariant
            out@ == s@.take(it.index()),
            it.seq() == s@,
    {
        out.push(c);
    }
    out
}

/// The string made of the characters from `from` up to `to`.
pub fn string_of(cs: &Vec<char>, from: usize, to: usize) -> (r: String)
    requires
        from <= to <= cs@.len(),
    ensures
        r@ == cs@.subrange(from as int, to as int),
{
    let mut out = String::new();
    let mut i: usize = from;
    while i < to
        invariant
            from <= i <= to <= cs@.len(),
            out@ == cs@.subrange(from as int, i as int),
        decreases to - i,
    {
        out.push(cs[i]);
        i += 1;
    }
    out
}

/// Two strings, one after the other.
pub fn concat(a: &str, b: &str) -> (r: String)
    ensures
        r@ == a@ + b@,
{
    let mut out = a.to_owned();
    out.append(b);
    out
}

/// The pieces of a string between the separators: one more than there are
/// separators, in order, any of them possibly empty.
pub open spec fn split(s: Seq<char>, sep: char) -> Seq<Seq<char>>
    decreases s.len(),
{
    if s.len() == 0 {
        seq![Seq::<char>::empty()]
    } else {
        let before = split(s.drop_last(), sep);
        if s.last() == sep {
            before.push(Seq::<char>::empty())
        } else {
            before.drop_last().push(before.last().push(s.last()))
        }
    }
}

/// The pieces with a separator between each two of them.
pub open spec fn join(parts: Seq<Seq<char>>, sep: Seq<char>) -> Seq<char>
    decreases parts.len(),
{
    if parts.len() == 0 {
        Seq::<char>::empty()
    } else if parts.len() == 1 {
        parts[0]
    } else {
        join(parts.drop_last(), sep) + sep + parts.last()
    }
}

/// Splitting gives at least one piece, and no piece holds the separator.
pub proof fn split_pieces(s: Seq<char>, sep: char)
    ensures
        split(s, sep).len() > 0,
        forall|i: int|
            #![trigger split(s, sep)[i]]
            0 <= i < split(s, sep).len() ==> !split(s, sep)[i].contains(sep),
    decreases s.len(),
{
    if s.len() > 0 {
        let before = split(s.drop_last(), sep);
        split_pieces(s.drop_last(), sep);
        if s.last() != sep {
            let last = before.last().push(s.last());
            assert(before.last() == before[before.len() - 1]);
            assert forall|j: int| 0 <= j < last.len() implies last[j] != sep by {
                if j < before.last().len() {
                    assert(before.last().contains(before.last()[j]));
                }
            }
            assert forall|i: int|
                #![trigger split(s, sep)[i]]
                0 <= i < split(s, sep).len() implies !split(s, sep)[i].contains(sep) by {
                if i < split(s, sep).len() - 1 {
                    assert(split(s, sep)[i] == before[i]);
                } else {
                    assert(split(s, sep)[i] == last);
                }
            }
        } else {
            assert forall|i: int|
                #![trigger split(s, sep)[i]]
                0 <= i < split(s, sep).len() implies !split(s, sep)[i].contains(sep) by {
                if i < split(s, sep).len() - 1 {
                    assert(split(s, sep)[i] == before[i]);
                } else {
                    assert(split(s, sep)[i] == Seq::<char>::empty());
                }
            }
        }
    }
}

/// Joining what was split gives the string back.
pub proof fn join_of_split(s: Seq<char>, sep: char)
    ensures
        join(split(s, sep), seq![sep]) == s,
    decreases s.len(),
{
    split_pieces(s, sep);
    if s.len() > 0 {
        let before = split(s.drop_last(), sep);
        let now = split(s, sep);
        split_pieces(s.drop_last(), sep);
        join_of_split(s.drop_last(), sep);
        assert(s =~= s.drop_last().push(s.last()));
        if s.last() == sep {
            assert(now.drop_last() =~= before);
            assert(join(now, seq![sep]) =~= join(before, seq![sep]) + seq![sep]);
        } else {
            assert(now.drop_last() =~= before.drop_last());
            assert(now.last() == before.last().push(s.last()));
            if now.len() == 1 {
                assert(join(now, seq![sep]) =~= s);
            } else {
                assert(join(now, seq![sep]) =~= join(before, seq![sep]).push(s.last()));
            }
        }
    }
}

/// Splitting the join of pieces without separators gives the pieces back.
pub proof fn split_of_join(parts: Seq<Seq<char>>, sep: char)
    requires
        parts.len() > 0,
        forall|i: int| #![trigger parts[i]] 0 <= i < parts.len() ==> !parts[i].contains(sep),
    ensures
        split(join(parts, seq![sep]), sep) == parts,
    decreases parts.len(),
{
    if parts.len() == 1 {
        split_of_plain(parts[0], sep);
        assert(split(parts[0], sep) =~= parts);
    } else {
        let front = parts.drop_last();
        assert forall|i: int| #![trigger front[i]] 0 <= i < front.len() implies !front[i].contains(
            sep,
        ) by {
            assert(front[i] == parts[i]);
        }
        split_of_join(front, sep);
        let joined = join(front, seq![sep]);
        assert(!parts[parts.len() - 1].contains(sep));
        split_of_append(joined, parts.last(), sep);
        assert(joined + seq![sep] + parts.last() =~= joined.push(sep) + parts.last());
        assert(front.push(parts.last()) =~= parts);
    }
}

pub proof fn split_of_plain(s: Seq<char>, sep: char)
    requires
        !s.contains(sep),
    ensures
        split(s, sep) == seq![s],
    decreases s.len(),
{
    if s.len() > 0 {
        let front = s.drop_last();
        assert forall|j: int| 0 <= j < front.len() implies front[j] != sep by {
            assert(s.contains(s[j]));
        }
        assert(s.contains(s[s.len() - 1]));
        split_of_plain(front, sep);
        assert(split(s, sep) =~= seq![front.push(s.last())]);
        assert(front.push(s.last()) =~= s);
    } else {
        assert(s =~= Seq::<char>::empty());
    }
}

/// What follows a separator and holds none itself is one more piece.
pub proof fn split_of_append(a: Seq<char>, b: Seq<char>, sep: char)
    requires
        !b.contains(sep),
    ensures
        split(a.push(sep) + b, sep) == split(a, sep).push(b),
    decreases b.len(),
{
    let whole = a.push(sep) + b;
    if b.len() == 0 {
        assert(whole =~= a.push(sep));
        assert(whole.drop_last() =~= a);
        assert(b =~= Seq::<char>::empty());
    } else {
        let front = b.drop_last();
        assert forall|j: int| 0 <= j < front.len() implies front[j] != sep by {
            assert(b.contains(b[j]));
        }
        assert(b.contains(b[b.len() - 1]));
        split_of_append(a, front, sep);
        assert(whole.drop_last() =~= a.push(sep) + front);
        assert(split(a, sep).push(front).drop_last() =~= split(a, sep));
        assert(front.push(b.last()) =~= b);
    }
}

/// Strings by their characters.
pub open spec fn strings_view(v: Seq<String>) -> Seq<Seq<char>> {
    Seq::new(v.len(), |i: int| v[i]@)
}

/// The pieces of a string between the separators.
pub fn pieces(s: &str, sep: char) -> (r: Vec<String>)
    ensures
        strings_view(r@) == split(s@, sep),
{
    let cs = chars_of(s);
    let mut out: Vec<String> = Vec::new();
    let mut cur = String::new();
    let mut i: usize = 0;
    proof {
        assert(strings_view(out@).push(cur@) =~= split(cs@.take(0), sep));
    }
    while i < cs.len()
        invariant
            cs@ == s@,
            i <= cs@.len(),
            strings_view(out@).push(cur@) == split(cs@.take(i as int), sep),
        decreases cs@.len() - i,
    {
        let ghost before = strings_view(out@).push(cur@);
        proof {
            assert(cs@.take(i + 1).drop_last() =~= cs@.take(i as int));
            assert(cs@.take(i + 1).last() == cs@[i as int]);
            assert(before.drop_last() =~= strings_view(out@));
            assert(before.last() == cur@);
        }
        if cs[i] == sep {
            let ghost done = out@;
            out.push(cur);
            cur = String::new();
            proof {
                assert(strings_view(out@) =~= before);
            }
        } else {
            cur.push(cs[i]);
        }
        i += 1;
    }
    proof {
        assert(cs@.take(i as int) =~= s@);
    }
    let ghost whole = strings_view(out@).push(cur@);
    out.push(cur);
    proof {
        assert(strings_view(out@) =~= whole);
    }
    out
}

/// Whether a string is among the strings.
pub fn listed(v: &Vec<String>, s: &str) -> (r: bool)
    ensures
        r == strings_view(v@).contains(s@),
{
    let mut i: usize = 0;
    while i < v.len()
        invariant
            i <= v@.len(),
            forall|j: int| #![trigger v@[j]] 0 <= j < i ==> v@[j]@ != s@,
        decreases v@.len() - i,
    {
        if same(v[i].as_str(), s) {
            proof {
                assert(strings_view(v@)[i as int] == s@);
            }
            return true;
        }
        i += 1;
    }
    proof {
        if strings_view(v@).contains(s@) {
            let j = choose|j: int| 0 <= j < v@.len() && strings_view(v@)[j] == s@;
            assert(v@[j]@ == s@);
        }
    }
    false
}

/// `s` without the characters `c` at its end.
pub open spec fn trim_end(s: Seq<char>, c: char) -> Seq<char>
    decreases s.len(),
{
    if s.len() > 0 && s.last() == c {
        trim_end(s.drop_last(), c)
    } else {
        s
    }
}

/// `s` without the characters `c` at its end.
pub fn without_end(s: &str, c: char) -> (r: String)
    ensures
        r@ == trim_end(s@, c),
{
    let cs = chars_of(s);
    let mut n: usize = cs.len();
    proof {
        assert(cs@.take(n as int) =~= s@);
    }
    while n > 0 && cs[n - 1] == c
        invariant
            cs@ == s@,
            n <= cs@.len(),
            trim_end(s@, c) == trim_end(cs@.take(n as int), c),
        decreases n,
    {
        proof {
            assert(cs@.take(n as int).drop_last() =~= cs@.take(n - 1));
        }
        n -= 1;
    }
    proof {
        assert(cs@.subrange(0, n as int) =~= cs@.take(n as int));
        if n > 0 {
            assert(cs@.take(n as int).last() == cs@[n - 1]);
        }
    }
    string_of(&cs, 0, n)
}

/// The characters that Unicode calls white space.
pub open spec fn is_white(c: char) -> bool {
    let u = c as u32;
    ||| 0x9 <= u <= 0xd
    ||| u == 0x20
    ||| u == 0x85
    ||| u == 0xa0
    ||| u == 0x1680
    ||| 0x2000 <= u <= 0x200a
    ||| u == 0x2028
    ||| u == 0x2029
    ||| u == 0x202f
    ||| u == 0x205f
    ||| u == 0x3000
}

/// Whether Unicode calls a character white space.
pub fn white(c: char) -> (r: bool)
    ensures
        r == is_white(c),
{
    let u: u32 = c as u32;
    (0x9 <= u && u <= 0xd) || u == 0x20 || u == 0x85 || u == 0xa0 || u == 0x1680 || (0x2000 <= u
        && u <= 0x200a) || u == 0x2028 || u == 0x2029 || u == 0x202f || u == 0x205f || u == 0x3000
}

/// `s` without the white space at its end.
pub open spec fn trim_tail(s: Seq<char>) -> Seq<char>
    decreases s.len(),
{
    if s.len() > 0 && is_white(s.last()) {
        trim_tail(s.drop_last())
    } else {
        s
    }
}

/// `s` without the white space at its start.
pub open spec fn trim_head(s: Seq<char>) -> Seq<char>
    decreases s.len(),
{
    if s.len() > 0 && is_white(s[0]) {
        trim_head(s.drop_first())
    } else {
        s
    }
}

/// `s` without the white space at both its ends.
pub open spec fn trim(s: Seq<char>) -> Seq<char> {
    trim_head(trim_tail(s))
}

/// `s` without the white space at both its ends.
pub fn trimmed(s: &str) -> (r: String)
    ensures
        r@ == trim(s@),
{
    let cs = chars_of(s);
    let mut n: usize = cs.len();
    proof {
        assert(cs@.take(n as int) =~= s@);
    }
    while n > 0 && white(cs[n - 1])
        invariant
            cs@ == s@,
            n <= cs@.len(),
            trim_tail(s@) == trim_tail(cs@.take(n as int)),
        decreases n,
    {
        proof {
            assert(cs@.take(n as int).drop_last() =~= cs@.take(n - 1));
        }
        n -= 1;
    }
    let ghost tail = cs@.take(n as int);
    proof {
        if n > 0 {
            assert(tail.last() == cs@[n - 1]);
        }
        assert(trim_tail(s@) == tail);
    }
    let mut i: usize = 0;
    proof {
        assert(tail.skip(0) =~= tail);
    }
    while i < n && white(cs[i])
        invariant
            i <= n <= cs@.len(),
            tail == cs@.take(n as int),
            trim_head(tail) == trim_head(tail.skip(i as int)),
        decreases n - i,
    {
        proof {
            assert(tail.skip(i as int).drop_first() =~= tail.skip(i + 1));
            assert(tail.skip(i as int)[0] == cs@[i as int]);
        }
        i += 1;
    }
    proof {
        if i < n {
            assert(tail.skip(i as int)[0] == cs@[i as int]);
        }
        assert(cs@.subrange(i as int, n as int) =~= tail.skip(i as int));
    }
    string_of(&cs, i, n)
}

/// `s` begins with `p`.
pub open spec fn starts(s: Seq<char>, p: Seq<char>) -> bool {
    s.len() >= p.len() && s.take(p.len() as int) == p
}

/// `p` stands in `s` at place `i`.
pub open spec fn stands_at(s: Seq<char>, p: Seq<char>, i: int) -> bool {
    0 <= i && i + p.len() <= s.len() && s.subrange(i, i + p.len() as int) == p
}

/// `p` stands somewhere in `s`.
pub open spec fn holds_text(s: Seq<char>, p: Seq<char>) -> bool {
    exists|i: int| stands_at(s, p, i)
}

/// Whether `p` stands in `s` at place `i`.
fn stands(s: &Vec<char>, p: &Vec<char>, i: usize) -> (r: bool)
    requires
        i <= s@.len(),
    ensures
        r == stands_at(s@, p@, i as int),
{
    let total: usize = s.len();
    if total - i < p.len() {
        return false;
    }
    let mut k: usize = 0;
    while k < p.len()
        invariant
            k <= p@.len(),
            total == s@.len(),
            i + p@.len() <= total,
            s@.subrange(i as int, i + k) == p@.take(k as int),
        decreases p@.len() - k,
    {
        if s[i + k] != p[k] {
            proof {
                if stands_at(s@, p@, i as int) {
                    assert(s@.subrange(i as int, i + p@.len() as int)[k as int] == s@[i + k]);
                }
            }
            return false;
        }
        proof {
            assert(s@.subrange(i as int, i + k + 1) =~= s@.subrange(i as int, i + k).push(
                s@[i + k],
            ));
            assert(p@.take(k + 1) =~= p@.take(k as int).push(p@[k as int]));
        }
        k += 1;
    }
    proof {
        assert(p@.take(k as int) =~= p@);
    }
    true
}

/// Whether `s` begins with `p`.
pub fn starts_with(s: &str, p: &str) -> (r: bool)
    ensures
        r == starts(s@, p@),
{
    let a = chars_of(s);
    let b = chars_of(p);
    let r = stands(&a, &b, 0);
    proof {
        if s@.len() >= p@.len() {
            assert(s@.subrange(0, p@.len() as int) =~= s@.take(p@.len() as int));
        }
    }
    r
}

/// What follows `p` in `s`, if `s` begins with it.
pub fn after(s: &str, p: &str) -> (r: Option<String>)
    ensures
        match r {
            Some(t) => starts(s@, p@) && t@ == s@.skip(p@.len() as int),
            None => !starts(s@, p@),
        },
{
    if !starts_with(s, p) {
        return None;
    }
    let a = chars_of(s);
    let b = chars_of(p);
    let t = string_of(&a, b.len(), a.len());
    proof {
        assert(t@ =~= s@.skip(p@.len() as int));
    }
    Some(t)
}

/// Whether `p` stands somewhere in `s`.
pub fn contains(s: &str, p: &str) -> (r: bool)
    ensures
        r == holds_text(s@, p@),
{
    let a = chars_of(s);
    let b = chars_of(p);
    let mut i: usize = 0;
    while i < a.len()
        invariant
            a@ == s@,
            b@ == p@,
            i <= a@.len(),
            forall|j: int| 0 <= j < i ==> !#[trigger] stands_at(s@, p@, j),
        decreases a@.len() - i,
    {
        if stands(&a, &b, i) {
            return true;
        }
        i += 1;
    }
    let r = stands(&a, &b, i);
    proof {
        if !r && holds_text(s@, p@) {
            let j = choose|j: int| stands_at(s@, p@, j);
            assert(j <= a@.len());
        }
    }
    r
}

/// An ASCII digit.
pub open spec fn is_digit(c: char) -> bool {
    '0' as u32 <= c as u32 <= '9' as u32
}

/// Nothing but ASCII digits, and at least one.
pub open spec fn is_number(s: Seq<char>) -> bool {
    s.len() > 0 && forall|i: int| 0 <= i < s.len() ==> is_digit(#[trigger] s[i])
}

/// The number that digits stand for.
pub open spec fn number(s: Seq<char>) -> nat
    decreases s.len(),
{
    if s.len() == 0 {
        0
    } else {
        number(s.drop_last()) * 10 + (s.last() as u32 - '0' as u32) as nat
    }
}

/// The number that `s` stands for, in decimal digits and possibly with a plus
/// sign before them, if it is at most `max`.
pub open spec fn parsed(s: Seq<char>, max: nat) -> Option<nat> {
    let d = if s.len() > 0 && s[0] == '+' {
        s.drop_first()
    } else {
        s
    };
    if is_number(d) && number(d) <= max {
        Some(number(d))
    } else {
        None
    }
}

proof fn lemma_number_grows(s: Seq<char>, i: int)
    requires
        0 <= i <= s.len(),
        forall|j: int| 0 <= j < s.len() ==> is_digit(#[trigger] s[j]),
    ensures
        number(s.take(i)) <= number(s),
    decreases s.len() - i,
{
    if i < s.len() {
        lemma_number_grows(s, i + 1);
        assert(s.take(i + 1).drop_last() =~= s.take(i));
        assert(is_digit(s[i]));
    } else {
        assert(s.take(i) =~= s);
    }
}

/// Reads a decimal number of at most `max`.
pub fn parse_number(s: &str, max: u64) -> (r: Option<u64>)
    ensures
        match r {
            Some(n) => parsed(s@, max as nat) == Some(n as nat),
            None => parsed(s@, max as nat) is None,
        },
{
    let cs = chars_of(s);
    let start: usize = if cs.len() > 0 && cs[0] == '+' {
        1
    } else {
        0
    };
    let ghost d = s@.skip(start as int);
    proof {
        if start == 1 {
            assert(d =~= s@.drop_first());
        } else {
            assert(d =~= s@);
        }
    }
    if cs.len() == start {
        return None;
    }
    let mut n: u64 = 0;
    let mut i: usize = start;
    proof {
        assert(d.take(0) =~= Seq::<char>::empty());
    }
    while i < cs.len()
        invariant
            cs@ == s@,
            start <= i <= cs@.len(),
            start <= 1,
            d == s@.skip(start as int),
            n == number(d.take(i - start)),
            forall|j: int| 0 <= j < i - start ==> is_digit(#[trigger] d[j]),
            parsed(s@, max as nat) == if is_number(d) && number(d) <= max {
                Some(number(d))
            } else {
                None
            },
        decreases cs@.len() - i,
    {
        let c = cs[i];
        let ghost k = i - start;
        proof {
            assert(d[k] == c);
        }
        if (c as u32) < ('0' as u32) || (c as u32) > ('9' as u32) {
            proof {
                assert(!is_digit(d[k]));
            }
            return None;
        }
        let v: u64 = (c as u32 - '0' as u32) as u64;
        proof {
            assert(d.take(k + 1).drop_last() =~= d.take(k));
            assert(d.take(k + 1).last() == c);
            assert(number(d.take(k + 1)) == n * 10 + v);
        }
        if n > (u64::MAX - v) / 10 {
            proof {
                if is_number(d) {
                    lemma_number_grows(d, k + 1);
                }
            }
            return None;
        }
        n = n * 10 + v;
        i += 1;
    }
    proof {
        assert(d.take(i - start) =~= d);
        assert(is_number(d));
    }
    if n <= max {
        Some(n)
    } else {
        None
    }
}

/// The decimal digits of a number.
pub open spec fn decimal_of(n: nat) -> Seq<char>
    decreases n,
{
    let last = ('0' as u32 + n % 10) as char;
    if n < 10 {
        seq![last]
    } else {
        decimal_of(n / 10).push(last)
    }
}

fn digit(n: u64) -> (r: char)
    requires
        n < 10,
    ensures
        r == ('0' as u32 + n) as char,
{
    if n == 0 {
        '0'
    } else if n == 1 {
        '1'
    } else if n == 2 {
        '2'
    } else if n == 3 {
        '3'
    } else if n == 4 {
        '4'
    } else if n == 5 {
        '5'
    } else if n == 6 {
        '6'
    } else if n == 7 {
        '7'
    } else if n == 8 {
        '8'
    } else {
        '9'
    }
}

/// The decimal digits of a number.
pub fn decimal(n: u64) -> (r: String)
    ensures
        r@ == decimal_of(n as nat),
    decreases n,
{
    let mut s = if n < 10 {
        String::new()
    } else {
        decimal(n / 10)
    };
    s.push(digit(n % 10));
    proof {
        if n < 10 {
            assert(s@ =~= decimal_of(n as nat));
        }
    }
    s
}

} // verus!
