//! Replaying plans on the server.
use crate::model::{opt_view, Conflict, Observation};
use crate::path::RelPath;
use vstd::prelude::*;

verus! {

/// What came of replaying a plan.
#[derive(Debug)]
#[allow(inconsistent_fields)]
pub enum Outcome<P = RelPath, B = Vec<u8>> {
    /// The file is on the server, or there is no file any more.
    Saved { obs: Option<Observation>, sig: Option<B>, reedited: bool },
    /// The server had another version: ours is there as a copy.
    Diverted {
        theirs: Option<Observation>,
        copy: P,
        obs: Option<Observation>,
        sig: Option<B>,
        reedited: bool,
        conflict: Conflict<P>,
    },
    Moved,
    /// The file to be moved was not there, or not in the version that was seen.
    MoveLost { theirs: Option<Observation>, resurrect: Option<P>, conflict: Option<Conflict<P>> },
    Removed,
    /// The file to be removed was not in the version that was seen.
    RemoveLost { theirs: Observation, conflict: Conflict<P> },
    /// The path is being renamed or removed as a whole: later.
    Busy,
    Failed,
}

/// An optional signature by its bytes.
pub open spec fn sig_view(s: Option<Vec<u8>>) -> Option<Seq<u8>> {
    match s {
        Some(b) => Some(b@),
        None => None,
    }
}

/// An optional conflict by the characters of its paths.
pub open spec fn conflict_view(c: Option<Conflict>) -> Option<Conflict<Seq<char>>> {
    match c {
        Some(c) => Some(c@),
        None => None,
    }
}

impl View for Outcome {
    type V = Outcome<Seq<char>, Seq<u8>>;

    open spec fn view(&self) -> Outcome<Seq<char>, Seq<u8>> {
        match self {
            Outcome::Saved { obs, sig, reedited } => Outcome::Saved {
                obs: *obs,
                sig: sig_view(*sig),
                reedited: *reedited,
            },
            Outcome::Diverted { theirs, copy, obs, sig, reedited, conflict } => Outcome::Diverted {
                theirs: *theirs,
                copy: copy@,
                obs: *obs,
                sig: sig_view(*sig),
                reedited: *reedited,
                conflict: conflict@,
            },
            Outcome::Moved => Outcome::Moved,
            Outcome::MoveLost { theirs, resurrect, conflict } => Outcome::MoveLost {
                theirs: *theirs,
                resurrect: opt_view(*resurrect),
                conflict: conflict_view(*conflict),
            },
            Outcome::Removed => Outcome::Removed,
            Outcome::RemoveLost { theirs, conflict } => Outcome::RemoveLost {
                theirs: *theirs,
                conflict: conflict@,
            },
            Outcome::Busy => Outcome::Busy,
            Outcome::Failed => Outcome::Failed,
        }
    }
}

} // verus!
