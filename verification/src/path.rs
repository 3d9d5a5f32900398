//! Paths below the root of the drive.
use crate::text::{chars_of, concat, join, order, precedes, same, split, string_of, Order};
use vstd::prelude::*;

verus! {

/// A segment that a path may hold: not empty, and not a step to the same or to
/// the upper directory.
pub open spec fn is_step(seg: Seq<char>) -> bool {
    &&& seg.len() > 0
    &&& seg != seq!['.']
    &&& seg != seq!['.', '.']
}

/// The segments that a path keeps, in order.
pub open spec fn kept(parts: Seq<Seq<char>>) -> Seq<Seq<char>>
    decreases parts.len(),
{
    if parts.len() == 0 {
        parts
    } else if is_step(parts.last()) {
        kept(parts.drop_last()).push(parts.last())
    } else {
        kept(parts.drop_last())
    }
}

/// `s` with every empty, `.` and `..` segment left out.
pub open spec fn normal(s: Seq<char>) -> Seq<char> {
    join(kept(split(s, '/')), seq!['/'])
}

/// `s` is a path: the root, or steps with one slash between each two.
pub open spec fn is_path(s: Seq<char>) -> bool {
    s.len() == 0 || forall|i: int|
        #![trigger split(s, '/')[i]]
        0 <= i < split(s, '/').len() ==> is_step(split(s, '/')[i])
}

/// Where the last slash of `s` is, or -1.
pub open spec fn last_slash(s: Seq<char>) -> int
    decreases s.len(),
{
    if s.len() == 0 {
        -1
    } else if s.last() == '/' {
        s.len() - 1
    } else {
        last_slash(s.drop_last())
    }
}

/// What follows the last slash.
pub open spec fn base_name(s: Seq<char>) -> Seq<char> {
    s.skip(last_slash(s) + 1)
}

/// What comes before the last slash, if there is one.
pub open spec fn parent_of(s: Seq<char>) -> Option<Seq<char>> {
    if last_slash(s) < 0 {
        None
    } else {
        Some(s.take(last_slash(s)))
    }
}

/// The directory that holds `s`: its parent, or the root.
pub open spec fn dir_of(s: Seq<char>) -> Seq<char> {
    match parent_of(s) {
        Some(p) => p,
        None => Seq::<char>::empty(),
    }
}

/// The path of `name` in the directory `dir`.
pub open spec fn child_of(dir: Seq<char>, name: Seq<char>) -> Seq<char> {
    if dir.len() == 0 {
        normal(name)
    } else {
        normal(dir + seq!['/'] + name)
    }
}

/// `s` lies below `dir`.
pub open spec fn below(s: Seq<char>, dir: Seq<char>) -> bool {
    &&& s.len() > dir.len()
    &&& s.take(dir.len() as int) == dir
    &&& s[dir.len() as int] == '/'
}

/// `s` is `dir` or lies below it.
pub open spec fn within(s: Seq<char>, dir: Seq<char>) -> bool {
    s == dir || below(s, dir)
}

/// `s`, which is `from` or lies below it, carried over to `to`.
pub open spec fn rebased(s: Seq<char>, from: Seq<char>, to: Seq<char>) -> Seq<char> {
    normal(to + s.skip(from.len() as int))
}

/// How the server is told of a file.
pub open spec fn file_text(s: Seq<char>) -> Seq<char> {
    seq!['/'] + s
}

/// How the server is told of a directory.
pub open spec fn dir_text(s: Seq<char>) -> Seq<char> {
    if s.len() == 0 {
        seq!['/']
    } else {
        seq!['/'] + s + seq!['/']
    }
}

/// A path below the root of the drive, without `.`, `..` and empty segments.
/// The root itself is the empty path.
#[derive(Debug, Hash)]
pub struct RelPath(String);

impl View for RelPath {
    type V = Seq<char>;

    closed spec fn view(&self) -> Seq<char> {
        self.0@
    }
}

impl RelPath {
    #[verifier::type_invariant]
    spec fn inv(self) -> bool {
        is_path(self.0@)
    }

    /// The path with the steps of `path`.
    pub fn new(path: &str) -> (r: RelPath)
        ensures
            r@ == normal(path@),
            is_path(r@),
    {
        let cs = chars_of(path);
        let mut out = String::new();
        let mut seg = String::new();
        let mut i: usize = 0;
        while i < cs.len()
            invariant
                cs@ == path@,
                0 <= i <= cs@.len(),
                split(cs@.take(i as int), '/').len() > 0,
                split(cs@.take(i as int), '/').last() == seg@,
                out@ == join(kept(split(cs@.take(i as int), '/').drop_last()), seq!['/']),
            decreases cs@.len() - i,
        {
            let c = cs[i];
            let ghost before = split(cs@.take(i as int), '/');
            proof {
                assert(cs@.take(i + 1).drop_last() =~= cs@.take(i as int));
                assert(cs@.take(i + 1).last() == c);
                crate::text::split_pieces(cs@.take(i as int), '/');
            }
            if c == '/' {
                let flushed = Self::flushed(out, &seg, Ghost(before.drop_last()));
                out = flushed;
                seg = String::new();
                proof {
                    assert(before.push(Seq::<char>::empty()).drop_last() =~= before);
                    assert(before.drop_last().push(before.last()) =~= before);
                }
            } else {
                seg.push(c);
                proof {
                    assert(split(cs@.take(i + 1), '/').drop_last() =~= before.drop_last());
                }
            }
            i += 1;
        }
        let ghost before = split(path@, '/');
        proof {
            assert(cs@.take(i as int) =~= path@);
            assert(before.drop_last().push(before.last()) =~= before);
            lemma_normal_is_path(path@);
        }
        RelPath(Self::flushed(out, &seg, Ghost(before.drop_last())))
    }

    fn flushed(out: String, seg: &String, done: Ghost<Seq<Seq<char>>>) -> (r: String)
        requires
            out@ == join(kept(done@), seq!['/']),
        ensures
            r@ == join(kept(done@.push(seg@)), seq!['/']),
    {
        proof {
            reveal_strlit(".");
            reveal_strlit("..");
            assert("."@ =~= seq!['.']);
            assert(".."@ =~= seq!['.', '.']);
            assert(done@.push(seg@).drop_last() =~= done@);
            lemma_kept(done@);
        }
        if seg.as_str().is_empty() || same(seg.as_str(), ".") || same(seg.as_str(), "..") {
            return out;
        }
        proof {
            assert(kept(done@).push(seg@).drop_last() =~= kept(done@));
            if kept(done@).len() > 0 {
                lemma_join_nonempty(kept(done@));
            }
        }
        if out.as_str().is_empty() {
            return seg.clone();
        }
        let mut r = out;
        r.push('/');
        r.append(seg.as_str());
        proof {
            assert(r@ =~= out@ + seq!['/'] + seg@);
        }
        r
    }

    /// The root of the drive.
    pub fn root() -> (r: RelPath)
        ensures
            r@ == Seq::<char>::empty(),
            is_path(r@),
    {
        RelPath(String::new())
    }

    /// The path as a string, without a leading slash.
    pub fn as_str(&self) -> (r: &str)
        ensures
            r@ == self@,
            is_path(r@),
    {
        proof {
            use_type_invariant(self);
        }
        self.0.as_str()
    }

    /// Whether this is the root.
    pub fn is_root(&self) -> (r: bool)
        ensures
            r == (self@.len() == 0),
    {
        self.0.as_str().is_empty()
    }

    fn cut(&self) -> (r: (Vec<char>, Option<usize>))
        ensures
            r.0@ == self@,
            match r.1 {
                Some(i) => i == last_slash(self@) && i < r.0@.len(),
                None => last_slash(self@) < 0,
            },
    {
        let cs = chars_of(self.0.as_str());
        let mut n: usize = cs.len();
        proof {
            assert(cs@.take(n as int) =~= self@);
        }
        while n > 0
            invariant
                cs@ == self@,
                n <= cs@.len(),
                last_slash(self@) == last_slash(cs@.take(n as int)),
            decreases n,
        {
            proof {
                assert(cs@.take(n as int).drop_last() =~= cs@.take(n - 1));
                assert(cs@.take(n as int).last() == cs@[n - 1]);
            }
            if cs[n - 1] == '/' {
                return (cs, Some(n - 1));
            }
            n -= 1;
        }
        (cs, None)
    }

    /// The last segment. The name of the root is empty.
    pub fn name(&self) -> (r: &str)
        ensures
            r@ == base_name(self@),
    {
        let (cs, slash) = self.cut();
        let len: usize = cs.len();
        let start: usize = match slash {
            Some(i) => i + 1,
            None => 0,
        };
        proof {
            lemma_last_slash(self@);
            assert(base_name(self@) =~= self@.subrange(start as int, self@.len() as int));
        }
        self.0.as_str().substring_char(start, len)
    }

    /// The directory that holds this path; none for what lies directly in the
    /// root, and none for the root.
    pub fn parent(&self) -> (r: Option<RelPath>)
        ensures
            match r {
                Some(p) => parent_of(self@) == Some(p@),
                None => parent_of(self@) is None,
            },
    {
        let (cs, slash) = self.cut();
        match slash {
            Some(i) => {
                let s = string_of(&cs, 0, i);
                proof {
                    use_type_invariant(self);
                    assert(s@ =~= self@.take(i as int));
                    lemma_parent_is_path(self@);
                }
                Some(RelPath(s))
            },
            None => None,
        }
    }

    /// The directory that holds this path, the root if there is no other.
    pub fn parent_or_root(&self) -> (r: RelPath)
        ensures
            r@ == dir_of(self@),
    {
        match self.parent() {
            Some(p) => p,
            None => RelPath::root(),
        }
    }

    /// The path of `name` below this directory.
    pub fn join(&self, name: &str) -> (r: RelPath)
        ensures
            r@ == child_of(self@, name@),
            is_path(r@),
    {
        if self.is_root() {
            RelPath::new(name)
        } else {
            let mut s = self.0.clone();
            s.push('/');
            s.append(name);
            proof {
                assert(s@ =~= self@ + seq!['/'] + name@);
            }
            RelPath::new(s.as_str())
        }
    }

    /// Whether this path lies below `other`. No path lies below itself.
    pub fn is_descendant_of(&self, other: &RelPath) -> (r: bool)
        ensures
            r == below(self@, other@),
    {
        let a = chars_of(self.0.as_str());
        let b = chars_of(other.0.as_str());
        if a.len() <= b.len() {
            return false;
        }
        let mut i: usize = 0;
        while i < b.len()
            invariant
                a@ == self@,
                b@ == other@,
                i <= b@.len() < a@.len(),
                a@.take(i as int) == b@.take(i as int),
            decreases b@.len() - i,
        {
            if a[i] != b[i] {
                proof {
                    assert(self@.take(b@.len() as int)[i as int] == a@[i as int]);
                }
                return false;
            }
            proof {
                assert(a@.take(i + 1) =~= a@.take(i as int).push(a@[i as int]));
                assert(b@.take(i + 1) =~= b@.take(i as int).push(b@[i as int]));
            }
            i += 1;
        }
        proof {
            assert(b@.take(i as int) =~= b@);
        }
        a[b.len()] == '/'
    }

    /// Whether this path is `other` or lies below it.
    pub fn is_within(&self, other: &RelPath) -> (r: bool)
        ensures
            r == within(self@, other@),
    {
        self == other || self.is_descendant_of(other)
    }

    /// How the server names this path as a file.
    pub fn as_file(&self) -> (r: String)
        ensures
            r@ == file_text(self@),
    {
        proof {
            reveal_strlit("/");
            assert("/"@ =~= seq!['/']);
        }
        concat("/", self.0.as_str())
    }

    /// How the server names this path as a directory.
    pub fn as_dir(&self) -> (r: String)
        ensures
            r@ == dir_text(self@),
    {
        let mut s = self.as_file();
        if !self.is_root() {
            s.push('/');
            proof {
                assert(s@ =~= seq!['/'] + self@ + seq!['/']);
            }
        } else {
            proof {
                assert(s@ =~= seq!['/']);
            }
        }
        s
    }

    /// This path, which is `from` or lies below it, carried over to `to`.
    pub fn rebase(&self, from: &RelPath, to: &RelPath) -> (r: RelPath)
        requires
            within(self@, from@),
        ensures
            r@ == rebased(self@, from@, to@),
            is_path(r@),
    {
        let cs = chars_of(self.0.as_str());
        let n: usize = chars_of(from.0.as_str()).len();
        let tail = string_of(&cs, n, cs.len());
        let moved = concat(to.0.as_str(), tail.as_str());
        proof {
            assert(tail@ =~= self@.skip(from@.len() as int));
        }
        RelPath::new(moved.as_str())
    }

    /// Where this path stands relative to `other` in the order of paths.
    pub fn order(&self, other: &RelPath) -> (r: Order)
        ensures
            match r {
                Order::Before => precedes(self@, other@),
                Order::Same => self@ == other@,
                Order::After => precedes(other@, self@),
            },
    {
        order(self.0.as_str(), other.0.as_str())
    }
}

impl Clone for RelPath {
    fn clone(&self) -> (r: RelPath)
        ensures
            r == *self,
    {
        proof {
            use_type_invariant(self);
        }
        RelPath(self.0.clone())
    }
}

impl PartialEq for RelPath {
    fn eq(&self, other: &RelPath) -> (r: bool) {
        self.0 == other.0
    }
}

impl Eq for RelPath {

}

impl vstd::std_specs::cmp::PartialEqSpecImpl for RelPath {
    open spec fn obeys_eq_spec() -> bool {
        true
    }

    open spec fn eq_spec(&self, other: &RelPath) -> bool {
        self@ == other@
    }
}

proof fn lemma_kept(s: Seq<Seq<char>>)
    ensures
        forall|i: int|
            #![trigger kept(s)[i]]
            0 <= i < kept(s).len() ==> is_step(kept(s)[i]) && s.contains(kept(s)[i]),
    decreases s.len(),
{
    if s.len() > 0 {
        let front = s.drop_last();
        lemma_kept(front);
        assert forall|i: int| #![trigger kept(s)[i]] 0 <= i < kept(s).len() implies is_step(
            kept(s)[i],
        ) && s.contains(kept(s)[i]) by {
            if i < kept(front).len() {
                assert(kept(s)[i] == kept(front)[i]);
                let j = choose|j: int| 0 <= j < front.len() && front[j] == kept(s)[i];
                assert(s[j] == kept(s)[i]);
            } else {
                assert(kept(s)[i] == s[s.len() - 1]);
            }
        }
    }
}

proof fn lemma_join_nonempty(parts: Seq<Seq<char>>)
    requires
        parts.len() > 0,
        forall|i: int| #![trigger parts[i]] 0 <= i < parts.len() ==> is_step(parts[i]),
    ensures
        join(parts, seq!['/']).len() > 0,
    decreases parts.len(),
{
    if parts.len() > 1 {
        assert(is_step(parts[parts.len() - 1]));
    } else {
        assert(is_step(parts[0]));
    }
}

proof fn lemma_kept_all(s: Seq<Seq<char>>)
    requires
        forall|i: int| #![trigger s[i]] 0 <= i < s.len() ==> is_step(s[i]),
    ensures
        kept(s) == s,
    decreases s.len(),
{
    if s.len() > 0 {
        let front = s.drop_last();
        assert forall|i: int| #![trigger front[i]] 0 <= i < front.len() implies is_step(front[i]) by {
            assert(front[i] == s[i]);
        }
        lemma_kept_all(front);
        assert(is_step(s[s.len() - 1]));
        assert(front.push(s.last()) =~= s);
    }
}

/// Normalising gives a path: no way out of the root is left in it.
pub proof fn lemma_normal_is_path(s: Seq<char>)
    ensures
        is_path(normal(s)),
{
    let parts = kept(split(s, '/'));
    lemma_kept(split(s, '/'));
    crate::text::split_pieces(s, '/');
    if parts.len() > 0 {
        assert forall|i: int| #![trigger parts[i]] 0 <= i < parts.len() implies !parts[i].contains(
            '/',
        ) by {
            let j = choose|j: int| 0 <= j < split(s, '/').len() && split(s, '/')[j] == parts[i];
            assert(!split(s, '/')[j].contains('/'));
        }
        crate::text::split_of_join(parts, '/');
        assert(split(normal(s), '/') == parts);
    }
}

/// Normalising a path changes nothing.
pub proof fn lemma_normal_of_path(s: Seq<char>)
    requires
        is_path(s),
    ensures
        normal(s) == s,
{
    if s.len() > 0 {
        lemma_kept_all(split(s, '/'));
        crate::text::join_of_split(s, '/');
    } else {
        assert(split(s, '/') =~= seq![Seq::<char>::empty()]);
        assert(split(s, '/').drop_last() =~= Seq::<Seq<char>>::empty());
        reveal_with_fuel(kept, 2);
        assert(!is_step(split(s, '/').last()));
        assert(s =~= Seq::<char>::empty());
    }
}

pub proof fn lemma_last_slash(s: Seq<char>)
    ensures
        -1 <= last_slash(s) < s.len(),
        last_slash(s) >= 0 ==> s[last_slash(s)] == '/',
        forall|i: int| #![trigger s[i]] last_slash(s) < i < s.len() ==> s[i] != '/',
    decreases s.len(),
{
    if s.len() > 0 && s.last() != '/' {
        lemma_last_slash(s.drop_last());
        assert forall|i: int| #![trigger s[i]] last_slash(s) < i < s.len() implies s[i] != '/' by {
            if i < s.len() - 1 {
                assert(s.drop_last()[i] == s[i]);
            }
        }
    }
}

/// A path with a slash is split at its last one into the segments before it
/// and the last segment.
pub proof fn lemma_split_at_last_slash(s: Seq<char>)
    ensures
        last_slash(s) >= 0 ==> split(s, '/') == split(s.take(last_slash(s)), '/').push(base_name(s)),
        last_slash(s) < 0 ==> split(s, '/') == seq![s],
{
    lemma_last_slash(s);
    let n = last_slash(s);
    let b = base_name(s);
    assert forall|i: int| 0 <= i < b.len() implies b[i] != '/' by {
        assert(b[i] == s[n + 1 + i]);
    }
    if n >= 0 {
        crate::text::split_of_append(s.take(n), b, '/');
        assert(s.take(n).push('/') + b =~= s);
    } else {
        assert(b =~= s);
        crate::text::split_of_join(seq![s], '/');
        assert(join(seq![s], seq!['/']) == s);
    }
}

pub proof fn lemma_parent_is_path(s: Seq<char>)
    requires
        is_path(s),
        last_slash(s) >= 0,
    ensures
        is_path(s.take(last_slash(s))),
        s.take(last_slash(s)).len() > 0,
{
    lemma_last_slash(s);
    lemma_split_at_last_slash(s);
    let p = s.take(last_slash(s));
    crate::text::split_pieces(p, '/');
    assert forall|i: int| #![trigger split(p, '/')[i]] 0 <= i < split(p, '/').len() implies is_step(
        split(p, '/')[i],
    ) by {
        assert(split(s, '/')[i] == split(p, '/')[i]);
    }
    if p.len() == 0 {
        assert(is_step(split(p, '/')[0]));
    }
}

/// Normalising twice is normalising once.
pub proof fn law_normal_is_idempotent(s: Seq<char>)
    ensures
        normal(normal(s)) == normal(s),
{
    lemma_normal_is_path(s);
    lemma_normal_of_path(normal(s));
}

proof fn lemma_split_concat(a: Seq<char>, b: Seq<char>)
    ensures
        split(a.push('/') + b, '/') == split(a, '/') + split(b, '/'),
    decreases b.len(),
{
    let whole = a.push('/') + b;
    if b.len() == 0 {
        assert(whole =~= a.push('/'));
        assert(whole.drop_last() =~= a);
        assert(split(a, '/') + split(b, '/') =~= split(a, '/').push(Seq::<char>::empty()));
    } else {
        lemma_split_concat(a, b.drop_last());
        crate::text::split_pieces(b.drop_last(), '/');
        assert(whole.drop_last() =~= a.push('/') + b.drop_last());
        let before = split(b.drop_last(), '/');
        if b.last() == '/' {
            assert(split(whole, '/') =~= split(a, '/') + split(b, '/'));
        } else {
            assert((split(a, '/') + before).drop_last() =~= split(a, '/') + before.drop_last());
            assert((split(a, '/') + before).last() == before.last());
            assert(split(whole, '/') =~= split(a, '/') + split(b, '/'));
        }
    }
}

proof fn lemma_kept_concat(a: Seq<Seq<char>>, b: Seq<Seq<char>>)
    ensures
        kept(a + b) == kept(a) + kept(b),
    decreases b.len(),
{
    if b.len() == 0 {
        assert(a + b =~= a);
        assert(kept(a) + kept(b) =~= kept(a));
    } else {
        assert((a + b).drop_last() =~= a + b.drop_last());
        lemma_kept_concat(a, b.drop_last());
        assert(kept(a + b) =~= kept(a) + kept(b));
    }
}

/// The join of some steps and more steps begins with the join of the first
/// ones, and a slash follows them.
proof fn lemma_join_concat(a: Seq<Seq<char>>, b: Seq<Seq<char>>)
    requires
        a.len() > 0,
        b.len() > 0,
    ensures
        join(a + b, seq!['/']) == join(a, seq!['/']) + seq!['/'] + join(b, seq!['/']),
    decreases b.len(),
{
    assert((a + b).drop_last() =~= a + b.drop_last());
    assert((a + b).last() == b.last());
    if b.len() == 1 {
        assert(a + b.drop_last() =~= a);
    } else {
        lemma_join_concat(a, b.drop_last());
        assert(join(a + b, seq!['/']) =~= join(a, seq!['/']) + seq!['/'] + join(b, seq!['/']));
    }
}

/// Whatever the name, joining it to a directory never leaves the directory.
pub proof fn law_join_stays_within(dir: Seq<char>, name: Seq<char>)
    requires
        is_path(dir),
    ensures
        dir.len() > 0 ==> within(child_of(dir, name), dir),
{
    if dir.len() > 0 {
        let s = dir + seq!['/'] + name;
        assert(s =~= dir.push('/') + name);
        lemma_split_concat(dir, name);
        lemma_kept_concat(split(dir, '/'), split(name, '/'));
        lemma_kept_all(split(dir, '/'));
        crate::text::split_pieces(dir, '/');
        crate::text::join_of_split(dir, '/');
        let more = kept(split(name, '/'));
        if more.len() == 0 {
            assert(split(dir, '/') + more =~= split(dir, '/'));
        } else {
            lemma_join_concat(split(dir, '/'), more);
            let r = child_of(dir, name);
            assert(r.take(dir.len() as int) =~= dir);
            assert(r[dir.len() as int] == '/');
        }
    }
}

/// A path is its directory joined with its name.
pub proof fn law_parent_and_name(s: Seq<char>)
    requires
        is_path(s),
        s.len() > 0,
    ensures
        child_of(dir_of(s), base_name(s)) == s,
        is_step(base_name(s)),
        dir_of(s).len() > 0 ==> below(s, dir_of(s)),
{
    assert(is_step(base_name(s))) by {
        lemma_name_is_step(s);
    }
    assert(normal(s) == s) by {
        lemma_normal_of_path(s);
    }
    let n = last_slash(s);
    assert(-1 <= n < s.len() && (n >= 0 ==> s[n] == '/')) by {
        lemma_last_slash(s);
    }
    if n >= 0 {
        assert(s.take(n).len() > 0) by {
            lemma_parent_is_path(s);
        }
        assert(s.take(n) + seq!['/'] + base_name(s) =~= s);
        assert(below(s, s.take(n)));
    } else {
        assert(base_name(s) =~= s);
    }
}

proof fn lemma_name_is_step(s: Seq<char>)
    requires
        is_path(s),
        s.len() > 0,
    ensures
        is_step(base_name(s)),
{
    lemma_split_at_last_slash(s);
    let parts = split(s, '/');
    let k = parts.len() - 1;
    assert(parts.len() > 0);
    assert(is_step(parts[k]));
    if last_slash(s) < 0 {
        lemma_last_slash(s);
        assert(base_name(s) =~= s);
    }
}

/// Joining one step to a directory gives a path with that directory and name.
pub proof fn law_child_of_a_step(dir: Seq<char>, name: Seq<char>)
    requires
        is_path(dir),
        is_step(name),
        !name.contains('/'),
    ensures
        dir_of(child_of(dir, name)) == dir,
        base_name(child_of(dir, name)) == name,
        child_of(dir, name).len() > 0,
{
    lemma_step_is_path(name);
    if dir.len() == 0 {
        lemma_normal_of_path(name);
        lemma_last_slash(name);
        if last_slash(name) >= 0 {
            assert(name.contains(name[last_slash(name)]));
        }
        assert(base_name(name) =~= name);
        assert(dir =~= Seq::<char>::empty());
    } else {
        let s = dir + seq!['/'] + name;
        lemma_path_and_step(dir, name);
        lemma_normal_of_path(s);
        lemma_slash_before_step(dir, name);
        assert(s.take(dir.len() as int) =~= dir);
        assert(base_name(s) =~= name);
    }
}

proof fn lemma_step_is_path(name: Seq<char>)
    requires
        is_step(name),
        !name.contains('/'),
    ensures
        split(name, '/') == seq![name],
        is_path(name),
{
    crate::text::split_of_join(seq![name], '/');
    assert(join(seq![name], seq!['/']) == name);
}

proof fn lemma_path_and_step(dir: Seq<char>, name: Seq<char>)
    requires
        is_path(dir),
        dir.len() > 0,
        is_step(name),
        !name.contains('/'),
    ensures
        is_path(dir + seq!['/'] + name),
{
    let s = dir + seq!['/'] + name;
    lemma_step_is_path(name);
    assert(s =~= dir.push('/') + name);
    lemma_split_concat(dir, name);
    assert forall|i: int| #![trigger split(s, '/')[i]] 0 <= i < split(s, '/').len() implies is_step(
        split(s, '/')[i],
    ) by {
        if i < split(dir, '/').len() {
            assert(split(s, '/')[i] == split(dir, '/')[i]);
        } else {
            assert(split(s, '/')[i] == name);
        }
    }
}

proof fn lemma_slash_before_step(dir: Seq<char>, name: Seq<char>)
    requires
        !name.contains('/'),
    ensures
        last_slash(dir + seq!['/'] + name) == dir.len(),
{
    let s = dir + seq!['/'] + name;
    lemma_last_slash(s);
    let n = last_slash(s);
    assert(s[dir.len() as int] == '/');
    if n > dir.len() {
        assert(s[n] == name[n - dir.len() - 1]);
        assert(name.contains(name[n - dir.len() - 1]));
    }
}

/// Lying below is a strict order: nothing lies below itself, no two paths lie
/// below each other, and what lies below something lies below all that it
/// lies below.
pub proof fn law_below_is_a_strict_order(a: Seq<char>, b: Seq<char>, c: Seq<char>)
    ensures
        !below(a, a),
        below(a, b) ==> !below(b, a),
        below(a, b) && below(b, c) ==> below(a, c),
{
    if below(a, b) && below(b, c) {
        assert(a.take(c.len() as int) =~= b.take(c.len() as int)) by {
            assert forall|i: int| 0 <= i < c.len() implies a[i] == b[i] by {
                assert(a.take(b.len() as int)[i] == b[i]);
            }
        }
        assert(a.take(b.len() as int)[c.len() as int] == b[c.len() as int]);
    }
}

/// Two directories that a path lies below are below one another.
pub proof fn lemma_below_two(s: Seq<char>, a: Seq<char>, b: Seq<char>)
    requires
        within(s, a),
        within(s, b),
    ensures
        within(a, b) || within(b, a),
{
    if s != a && s != b {
        if a.len() == b.len() {
            assert(a =~= b);
        } else if a.len() > b.len() {
            assert(a.take(b.len() as int) =~= b) by {
                assert forall|i: int| 0 <= i < b.len() implies a[i] == b[i] by {
                    assert(s.take(a.len() as int)[i] == s[i]);
                    assert(s.take(b.len() as int)[i] == s[i]);
                }
            }
            assert(s.take(a.len() as int)[b.len() as int] == s[b.len() as int]);
        } else {
            assert(b.take(a.len() as int) =~= a) by {
                assert forall|i: int| 0 <= i < a.len() implies a[i] == b[i] by {
                    assert(s.take(a.len() as int)[i] == s[i]);
                    assert(s.take(b.len() as int)[i] == s[i]);
                }
            }
            assert(s.take(b.len() as int)[a.len() as int] == s[a.len() as int]);
        }
    }
}

/// Carrying a subtree over to another directory keeps every place in it: what
/// was at the top is at the new top, what was below lies below the new top with
/// the same steps, and carrying it back restores it.
pub proof fn law_rebase(s: Seq<char>, from: Seq<char>, to: Seq<char>)
    requires
        is_path(s),
        is_path(from),
        is_path(to),
        from.len() > 0,
        to.len() > 0,
        within(s, from),
    ensures
        rebased(s, from, to) == to + s.skip(from.len() as int),
        within(rebased(s, from, to), to),
        rebased(rebased(s, from, to), to, from) == s,
{
    let tail = s.skip(from.len() as int);
    lemma_rebased_is_path(s, from, to);
    lemma_normal_of_path(to + tail);
    let r = to + tail;
    if s == from {
        assert(r =~= to);
    } else {
        assert(r.take(to.len() as int) =~= to);
        assert(r[to.len() as int] == s[from.len() as int]);
    }
    assert(r.skip(to.len() as int) =~= tail);
    assert(from + tail =~= s) by {
        if s != from {
            assert forall|i: int| 0 <= i < s.len() implies (from + tail)[i] == s[i] by {
                if i < from.len() {
                    assert(s.take(from.len() as int)[i] == s[i]);
                }
            }
        }
    }
    lemma_normal_of_path(s);
}

proof fn lemma_rebased_is_path(s: Seq<char>, from: Seq<char>, to: Seq<char>)
    requires
        is_path(s),
        is_path(from),
        is_path(to),
        from.len() > 0,
        to.len() > 0,
        within(s, from),
    ensures
        is_path(to + s.skip(from.len() as int)),
{
    let tail = s.skip(from.len() as int);
    if s == from {
        assert(to + tail =~= to);
    } else {
        let rest = s.skip(from.len() as int + 1);
        assert(s =~= from.push('/') + rest) by {
            assert forall|i: int| 0 <= i < s.len() implies (from.push('/') + rest)[i] == s[i] by {
                if i < from.len() {
                    assert(s.take(from.len() as int)[i] == s[i]);
                }
            }
        }
        assert(to + tail =~= to.push('/') + rest) by {
            assert forall|i: int| 0 <= i < (to + tail).len() implies (to + tail)[i] == (to.push(
                '/',
            ) + rest)[i] by {
                if i == to.len() {
                    assert(tail[0] == s[from.len() as int]);
                }
            }
        }
        lemma_split_concat(from, rest);
        lemma_split_concat(to, rest);
        let r = to + tail;
        assert forall|i: int| #![trigger split(r, '/')[i]] 0 <= i < split(r, '/').len() implies is_step(
            split(r, '/')[i],
        ) by {
            if i < split(to, '/').len() {
                assert(split(r, '/')[i] == split(to, '/')[i]);
            } else {
                let j = i - split(to, '/').len();
                assert(split(r, '/')[i] == split(rest, '/')[j]);
                assert(split(s, '/')[split(from, '/').len() + j] == split(rest, '/')[j]);
            }
        }
    }
}

} // verus!
