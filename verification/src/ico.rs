//! The frame of an icon file that fits best.
use vstd::prelude::*;

verus! {

/// How wide an icon is to be.
pub const WIDTH: u32 = 32;

/// Two bytes as a number, the low one first.
pub open spec fn le16(b: Seq<u8>, at: int) -> nat {
    b[at] as nat + 256 * b[at + 1] as nat
}

/// Four bytes as a number, the low one first.
pub open spec fn le32(b: Seq<u8>, at: int) -> nat {
    b[at] as nat + 256 * b[at + 1] as nat + 65536 * b[at + 2] as nat + 16777216 * b[at + 3] as nat
}

/// Where entry `i` of the directory of the file begins.
pub open spec fn entry_at(i: int) -> int {
    6 + i * 16
}

/// How far the width of an entry is from the one that is wanted. A width of 0
/// stands for 256.
pub open spec fn misfit(b: Seq<u8>, i: int) -> nat {
    let w = if b[entry_at(i)] == 0 {
        256int
    } else {
        b[entry_at(i)] as int
    };
    (if w >= WIDTH {
        w - WIDTH
    } else {
        WIDTH - w
    }) as nat
}

/// The first of the first `n` entries that fits best.
pub open spec fn best_entry(b: Seq<u8>, n: nat) -> int
    decreases n,
{
    if n <= 1 {
        0
    } else {
        let before = best_entry(b, (n - 1) as nat);
        if misfit(b, n - 1) < misfit(b, before) {
            n - 1
        } else {
            before
        }
    }
}

/// The frame of an icon file that fits best, by its place and its length: none if
/// the file has none, or ends too early.
pub open spec fn frame_of(b: Seq<u8>) -> Option<(nat, nat)> {
    if b.len() < 6 {
        None
    } else {
        let n = le16(b, 4);
        if n == 0 || entry_at(n as int) > b.len() {
            None
        } else {
            let at = entry_at(best_entry(b, n));
            let size = le32(b, at + 8);
            let offset = le32(b, at + 12);
            if offset + size <= b.len() {
                Some((offset, size))
            } else {
                None
            }
        }
    }
}

fn read16(b: &[u8], at: usize) -> (r: u32)
    requires
        at + 2 <= b@.len(),
    ensures
        r == le16(b@, at as int),
        r < 65536,
{
    b[at] as u32 + 256 * b[at + 1] as u32
}

fn read32(b: &[u8], at: usize) -> (r: u64)
    requires
        at + 4 <= b@.len(),
    ensures
        r == le32(b@, at as int),
        r <= u32::MAX,
{
    b[at] as u64 + 256 * b[at + 1] as u64 + 65536 * b[at + 2] as u64 + 16777216 * b[at + 3] as u64
}

fn read_misfit(b: &[u8], at: usize) -> (r: u32)
    requires
        at < b@.len(),
    ensures
        forall|i: int| #[trigger] entry_at(i) == at ==> r == misfit(b@, i),
{
    let w: u32 = if b[at] == 0 {
        256
    } else {
        b[at] as u32
    };
    if w >= WIDTH {
        w - WIDTH
    } else {
        WIDTH - w
    }
}

proof fn lemma_best(b: Seq<u8>, n: nat)
    ensures
        0 <= best_entry(b, n) < if n == 0 {
            1
        } else {
            n as int
        },
    decreases n,
{
    if n > 1 {
        lemma_best(b, (n - 1) as nat);
    }
}

/// The frame of an icon file that fits best. See `frame_of`.
pub fn icon_from_ico(b: &[u8]) -> (r: Option<(usize, usize)>)
    ensures
        match r {
            Some((offset, size)) => frame_of(b@) == Some((offset as nat, size as nat)),
            None => frame_of(b@) is None,
        },
{
    let len: usize = b.len();
    if len < 6 {
        return None;
    }
    let n: u32 = read16(b, 4);
    if n == 0 {
        return None;
    }
    if 6 + n as u64 * 16 > len as u64 {
        return None;
    }
    let mut best: u32 = 0;
    let mut fit: u32 = read_misfit(b, 6);
    proof {
        assert(entry_at(0) == 6);
    }
    let mut i: u32 = 1;
    while i < n
        invariant
            1 <= i <= n < 65536,
            len == b@.len(),
            6 + n * 16 <= len,
            best == best_entry(b@, i as nat),
            best < i,
            fit == misfit(b@, best as int),
        decreases n - i,
    {
        let at: usize = 6 + i as usize * 16;
        proof {
            assert(entry_at(i as int) == at);
        }
        let other: u32 = read_misfit(b, at);
        if other < fit {
            best = i;
            fit = other;
        }
        i += 1;
    }
    let at: usize = 6 + best as usize * 16;
    proof {
        assert(entry_at(best as int) == at);
        assert(entry_at(n as int) == 6 + n * 16);
    }
    let size: u64 = read32(b, at + 8);
    let offset: u64 = read32(b, at + 12);
    if offset + size <= len as u64 {
        Some((offset as usize, size as usize))
    } else {
        None
    }
}

proof fn lemma_best_is_least(b: Seq<u8>, n: nat, i: int)
    requires
        0 <= i < n,
    ensures
        misfit(b, best_entry(b, n)) <= misfit(b, i),
        misfit(b, best_entry(b, n)) == misfit(b, i) ==> best_entry(b, n) <= i,
    decreases n,
{
    if n > 1 {
        lemma_best(b, (n - 1) as nat);
        if i < n - 1 {
            lemma_best_is_least(b, (n - 1) as nat, i);
        }
    }
}

/// No entry fits better than the one that is chosen, and among those that fit as
/// well it is the first.
pub proof fn law_the_best_frame_is_chosen(b: Seq<u8>, i: int)
    requires
        frame_of(b) is Some,
        0 <= i < le16(b, 4),
    ensures
        misfit(b, best_entry(b, le16(b, 4))) <= misfit(b, i),
        misfit(b, best_entry(b, le16(b, 4))) == misfit(b, i) ==> best_entry(b, le16(b, 4)) <= i,
{
    lemma_best_is_least(b, le16(b, 4), i);
}

/// A frame fits the better the nearer its width is to the one that is wanted, whether
/// it is larger or smaller; a width that is written as 0 is 256.
pub proof fn law_how_well_a_frame_fits(b: Seq<u8>, i: int)
    ensures
        ({
            let width = if b[6 + 16 * i] == 0 {
                256
            } else {
                b[6 + 16 * i] as int
            };
            &&& misfit(b, i) == width - WIDTH || misfit(b, i) == WIDTH - width
            &&& misfit(b, i) >= 0
        }),
{
}

} // verus!
