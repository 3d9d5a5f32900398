//! How the content of a file is handed on while it comes: in large pieces that
//! begin and end on even places.
use vstd::prelude::*;

verus! {

/// Every piece but the last has a length that is a multiple of this.
pub const ALIGN: usize = 4096;

/// A piece is handed on once so much has come.
pub const FLUSH_AT: usize = 1_048_576;

/// What has come and was not handed on yet, and how much was.
pub struct Pipe {
    pub buf: Vec<u8>,
    pub sent: u64,
}

/// The same by its contents.
#[verifier::ext_equal]
pub struct PipeView {
    pub buf: Seq<u8>,
    pub sent: u64,
}

impl View for Pipe {
    type V = PipeView;

    open spec fn view(&self) -> PipeView {
        PipeView { buf: self.buf@, sent: self.sent }
    }
}

/// The largest even length that is not more than `n`.
pub open spec fn aligned(n: nat) -> nat {
    (n - n % ALIGN as nat) as nat
}

/// What is handed on when some more bytes come.
pub open spec fn piece(p: PipeView, chunk: Seq<u8>) -> Seq<u8> {
    let all = p.buf + chunk;
    if all.len() >= FLUSH_AT {
        all.take(aligned(all.len()) as int)
    } else {
        Seq::empty()
    }
}

/// The pipe after some more bytes have come.
pub open spec fn pumped(p: PipeView, chunk: Seq<u8>) -> PipeView {
    let out = piece(p, chunk);
    PipeView {
        buf: (p.buf + chunk).skip(out.len() as int),
        sent: (p.sent + out.len()) as u64,
    }
}

fn copy_range(v: &Vec<u8>, from: usize, to: usize) -> (r: Vec<u8>)
    requires
        from <= to <= v@.len(),
    ensures
        r@ == v@.subrange(from as int, to as int),
{
    let mut out: Vec<u8> = Vec::new();
    let mut i: usize = from;
    while i < to
        invariant
            from <= i <= to <= v@.len(),
            out@ == v@.subrange(from as int, i as int),
        decreases to - i,
    {
        out.push(v[i]);
        proof {
            assert(v@.subrange(from as int, i + 1) =~= v@.subrange(from as int, i as int).push(
                v@[i as int],
            ));
        }
        i += 1;
    }
    out
}

impl Pipe {
    /// An empty pipe.
    pub fn new() -> (r: Pipe)
        ensures
            r@ == (PipeView { buf: Seq::empty(), sent: 0 }),
    {
        let r = Pipe { buf: Vec::new(), sent: 0 };
        proof {
            assert(r@.buf =~= Seq::empty());
        }
        r
    }

    /// Some more bytes come. What is to be handed on, if anything is, and where in
    /// the file it belongs.
    pub fn push(&mut self, chunk: &[u8]) -> (r: Option<(u64, Vec<u8>)>)
        requires
            old(self)@.buf.len() + chunk@.len() <= usize::MAX,
            old(self)@.sent + old(self)@.buf.len() + chunk@.len() <= u64::MAX,
        ensures
            final(self)@ == pumped(old(self)@, chunk@),
            match r {
                Some((at, bytes)) => {
                    &&& at == old(self)@.sent
                    &&& bytes@ == piece(old(self)@, chunk@)
                    &&& bytes@.len() > 0
                },
                None => piece(old(self)@, chunk@).len() == 0,
            },
    {
        let ghost before = self@;
        let mut i: usize = 0;
        proof {
            assert(before.buf + chunk@.take(0) =~= before.buf);
        }
        while i < chunk.len()
            invariant
                i <= chunk@.len(),
                before.buf.len() + chunk@.len() <= usize::MAX,
                self.buf@ == before.buf + chunk@.take(i as int),
                self.sent == before.sent,
            decreases chunk@.len() - i,
        {
            self.buf.push(chunk[i]);
            proof {
                assert(before.buf + chunk@.take(i + 1) =~= (before.buf + chunk@.take(i as int)).push(
                    chunk@[i as int],
                ));
            }
            i += 1;
        }
        proof {
            assert(chunk@.take(i as int) =~= chunk@);
        }
        let ghost all = before.buf + chunk@;
        let n: usize = self.buf.len();
        if n < FLUSH_AT {
            proof {
                assert(all.skip(0) =~= all);
            }
            return None;
        }
        let cut: usize = n - n % ALIGN;
        let out = copy_range(&self.buf, 0, cut);
        let rest = copy_range(&self.buf, cut, n);
        let at: u64 = self.sent;
        self.sent = at + cut as u64;
        self.buf = rest;
        proof {
            assert(out@ =~= all.take(cut as int));
            assert(rest@ =~= all.skip(cut as int));
        }
        Some((at, out))
    }

    /// No more bytes come. What is left to be handed on, if anything is, and where
    /// in the file it belongs.
    pub fn finish(&mut self) -> (r: Option<(u64, Vec<u8>)>)
        requires
            old(self)@.sent + old(self)@.buf.len() <= u64::MAX,
        ensures
            final(self)@ == (PipeView {
                buf: Seq::empty(),
                sent: (old(self)@.sent + old(self)@.buf.len()) as u64,
            }),
            match r {
                Some((at, bytes)) => at == old(self)@.sent && bytes@ == old(self)@.buf
                    && bytes@.len() > 0,
                None => old(self)@.buf.len() == 0,
            },
    {
        let n: usize = self.buf.len();
        if n == 0 {
            proof {
                assert(self.buf@ =~= Seq::empty());
            }
            return None;
        }
        let mut out: Vec<u8> = Vec::new();
        std::mem::swap(&mut out, &mut self.buf);
        let at: u64 = self.sent;
        self.sent = at + n as u64;
        Some((at, out))
    }
}

/// All chunks in one.
pub open spec fn joined(chunks: Seq<Seq<u8>>) -> Seq<u8>
    decreases chunks.len(),
{
    if chunks.len() == 0 {
        Seq::empty()
    } else {
        joined(chunks.drop_last()) + chunks.last()
    }
}

/// The pipe after some chunks have come.
pub open spec fn all_pumped(p: PipeView, chunks: Seq<Seq<u8>>) -> PipeView
    decreases chunks.len(),
{
    if chunks.len() == 0 {
        p
    } else {
        pumped(all_pumped(p, chunks.drop_last()), chunks.last())
    }
}

/// What is handed on while some chunks come.
pub open spec fn handed_on(p: PipeView, chunks: Seq<Seq<u8>>) -> Seq<u8>
    decreases chunks.len(),
{
    if chunks.len() == 0 {
        Seq::empty()
    } else {
        handed_on(p, chunks.drop_last()) + piece(
            all_pumped(p, chunks.drop_last()),
            chunks.last(),
        )
    }
}

/// Every byte comes through, once and in its place: what was handed on and what is
/// still in the pipe is what has come, and each piece belongs where those before
/// it end.
pub proof fn law_every_byte_comes_through(chunks: Seq<Seq<u8>>)
    requires
        joined(chunks).len() <= u64::MAX,
    ensures
        ({
            let empty = PipeView { buf: Seq::empty(), sent: 0 };
            let end = all_pumped(empty, chunks);
            &&& handed_on(empty, chunks) + end.buf == joined(chunks)
            &&& end.sent == handed_on(empty, chunks).len()
        }),
    decreases chunks.len(),
{
    let empty = PipeView { buf: Seq::empty(), sent: 0 };
    if chunks.len() == 0 {
        assert(handed_on(empty, chunks) + empty.buf =~= joined(chunks));
    } else {
        let init = chunks.drop_last();
        law_every_byte_comes_through(init);
        let p = all_pumped(empty, init);
        let out = piece(p, chunks.last());
        let all = p.buf + chunks.last();
        assert(all.len() >= aligned(all.len()));
        assert(out.len() <= all.len());
        assert(out + all.skip(out.len() as int) =~= all);
        assert(handed_on(empty, chunks) + all_pumped(empty, chunks).buf =~= handed_on(empty, init) + (
        out + all.skip(out.len() as int)));
        assert(handed_on(empty, init) + all =~= joined(init) + chunks.last());
    }
}

/// What is handed on before the end is a multiple of the even length, so that each
/// piece begins on an even place, and little stays in the pipe.
pub proof fn law_pieces_are_even(p: PipeView, chunk: Seq<u8>)
    requires
        p.sent as nat % ALIGN as nat == 0,
        p.sent + p.buf.len() + chunk.len() <= u64::MAX,
    ensures
        piece(p, chunk).len() % ALIGN as nat == 0,
        pumped(p, chunk).sent as nat % ALIGN as nat == 0,
        pumped(p, chunk).buf.len() < FLUSH_AT,
{
    let n = (p.buf + chunk).len();
    let k = aligned(n);
    assert(k % ALIGN as nat == 0) by {
        vstd::arithmetic::div_mod::lemma_fundamental_div_mod(n as int, ALIGN as int);
        assert(k == ALIGN as int * (n as int / ALIGN as int));
        vstd::arithmetic::div_mod::lemma_mod_multiples_basic(
            n as int / ALIGN as int,
            ALIGN as int,
        );
        assert(ALIGN as int * (n as int / ALIGN as int) == (n as int / ALIGN as int) * ALIGN as int)
            by (nonlinear_arith);
    }
}

/// Whether a file is as large as was said of it.
pub fn size_fits(size: u64, expected: i64) -> (r: bool)
    ensures
        r == ((size as i64) == expected),
{
    (#[verifier::truncate]
    (size as i64)) == expected
}

/// Nothing is handed on before enough has come, and once it has, all is but what is
/// over the last even place.
pub proof fn law_pieces_are_large(p: PipeView, chunk: Seq<u8>)
    ensures
        p.buf.len() + chunk.len() < FLUSH_AT ==> piece(p, chunk).len() == 0,
        p.buf.len() + chunk.len() >= FLUSH_AT ==> piece(p, chunk).len() > p.buf.len() + chunk.len()
            - ALIGN,
{
}

} // verus!
