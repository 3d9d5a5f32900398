//! How an edited file is uploaded by a client without a journal: what is asked of
//! the server and of the local files, step by step, and what the ledger says
//! after the answers.
use crate::agenda::Upload;
use crate::config::Ignore;
use crate::journal::lease;
use crate::ledger::{observed, unobserved, with_write, Ledger, LedgerView, Write};
use crate::model::{paths_view, seen_in, whole_secs, Meta, Moment, Observation};
use crate::path::RelPath;
use crate::replay::{
    ancestors, ancestors_of, copy_of, copy_path, is_covered, is_frozen, lease_time, Sent,
    COPY_TRIES,
};
use crate::sdk::{Error, FileInfo};
use crate::table::PathSet;
use vstd::prelude::*;

verus! {

/// How the server is kept from losing a version: it is asked for the version it
/// has before the upload, or it is told which version may be replaced.
#[derive(Clone, Copy, Debug, PartialEq, Eq, Structural)]
pub enum Guard {
    Compare,
    Lease,
}

/// An upload that has found its file.
#[derive(Debug)]
pub struct Trip<P = RelPath> {
    pub guard: Guard,
    pub path: P,
    pub found: Meta,
}

impl View for Trip {
    type V = Trip<Seq<char>>;

    open spec fn view(&self) -> Trip<Seq<char>> {
        Trip { guard: self.guard, path: self.path@, found: self.found }
    }
}

/// How far an upload has come.
#[derive(Debug)]
#[allow(inconsistent_fields)]
pub enum Errand<P = RelPath> {
    /// The local file is being looked at.
    Found { guard: Guard, path: P },
    /// The version of the server is being looked at.
    Compared { trip: Trip<P>, recorded: Option<Observation> },
    /// A name for a copy is being tried.
    Named { trip: Trip<P>, n: u64 },
    /// The file is being sent.
    Sent { trip: Trip<P>, target: P, since: Option<u64> },
    /// The directories above the target are being made.
    Dirs { trip: Trip<P>, target: P, since: Option<u64> },
    /// The file is being sent again.
    Again { trip: Trip<P>, target: P, since: Option<u64> },
    /// What has been sent is being looked at.
    Stored { trip: Trip<P>, target: P },
    /// The local file is being looked at again.
    Reviewed { trip: Trip<P>, target: P, uploaded: Option<Observation> },
    /// The local file is taking the name of the copy.
    Moved { trip: Trip<P>, target: P, uploaded: Option<Observation>, after: Option<Moment> },
    /// The platform is being told.
    Told,
}

impl View for Errand {
    type V = Errand<Seq<char>>;

    open spec fn view(&self) -> Errand<Seq<char>> {
        match self {
            Errand::Found { guard, path } => Errand::Found { guard: *guard, path: path@ },
            Errand::Compared { trip, recorded } => Errand::Compared {
                trip: trip@,
                recorded: *recorded,
            },
            Errand::Named { trip, n } => Errand::Named { trip: trip@, n: *n },
            Errand::Sent { trip, target, since } => Errand::Sent {
                trip: trip@,
                target: target@,
                since: *since,
            },
            Errand::Dirs { trip, target, since } => Errand::Dirs {
                trip: trip@,
                target: target@,
                since: *since,
            },
            Errand::Again { trip, target, since } => Errand::Again {
                trip: trip@,
                target: target@,
                since: *since,
            },
            Errand::Stored { trip, target } => Errand::Stored { trip: trip@, target: target@ },
            Errand::Reviewed { trip, target, uploaded } => Errand::Reviewed {
                trip: trip@,
                target: target@,
                uploaded: *uploaded,
            },
            Errand::Moved { trip, target, uploaded, after } => Errand::Moved {
                trip: trip@,
                target: target@,
                uploaded: *uploaded,
                after: *after,
            },
            Errand::Told => Errand::Told,
        }
    }
}

/// What is to be done next.
#[derive(Debug)]
#[allow(inconsistent_fields)]
pub enum Act<P = RelPath, L = Vec<RelPath>> {
    /// Look at a local file.
    Look(P),
    /// Ask the server what it has at a path.
    Stat(P),
    /// See that nothing has a name, here or on the server.
    IsVacant(P),
    /// Send the local file at `source`; with `since`, only if the server still
    /// has the version of that time.
    Send { source: P, target: P, since: Option<u64> },
    /// Have the server make directories, and go on whatever comes of it.
    Mkdirs(L),
    /// Give the local file another name, and go on whatever comes of it.
    Relocate { from: P, to: P },
    /// Tell the platform that a file is as it is on the server.
    Settle { target: P, mtime: Option<Moment> },
}

impl View for Act {
    type V = Act<Seq<char>, Seq<Seq<char>>>;

    open spec fn view(&self) -> Act<Seq<char>, Seq<Seq<char>>> {
        match self {
            Act::Look(p) => Act::Look(p@),
            Act::Stat(p) => Act::Stat(p@),
            Act::IsVacant(p) => Act::IsVacant(p@),
            Act::Send { source, target, since } => Act::Send {
                source: source@,
                target: target@,
                since: *since,
            },
            Act::Mkdirs(l) => Act::Mkdirs(paths_view(l@)),
            Act::Relocate { from, to } => Act::Relocate { from: from@, to: to@ },
            Act::Settle { target, mtime } => Act::Settle { target: target@, mtime: *mtime },
        }
    }
}

/// How a local file was found.
#[derive(Clone, Copy, Debug, PartialEq, Eq, Structural)]
pub enum Sight {
    Here(Meta),
    Missing,
    Unreadable,
}

/// What came of an act.
#[derive(Debug)]
pub enum Answer {
    Looked(Sight),
    Stat(Result<FileInfo, Error>),
    IsVacant(bool),
    Sent(Sent),
    Done,
}

/// What follows: another act, the end, or a failure.
#[derive(Debug)]
pub enum Leg {
    Do(Errand, Act),
    End(Upload),
    Failed,
}

/// The same by the characters of the paths.
pub enum LegView {
    Do(Errand<Seq<char>>, Act<Seq<char>, Seq<Seq<char>>>),
    End(Upload),
    Failed,
}

impl View for Leg {
    type V = LegView;

    open spec fn view(&self) -> LegView {
        match self {
            Leg::Do(e, a) => LegView::Do(e@, a@),
            Leg::End(u) => LegView::End(*u),
            Leg::Failed => LegView::Failed,
        }
    }
}

/// The answer can come of the act that the errand waits for.
pub open spec fn answers(errand: Errand<Seq<char>>, answer: Answer) -> bool {
    match errand {
        Errand::Found { .. } => answer is Looked,
        Errand::Compared { .. } => answer is Stat,
        Errand::Named { n, .. } => answer is IsVacant && n < COPY_TRIES,
        Errand::Sent { .. } => answer is Sent,
        Errand::Dirs { .. } => answer is Done,
        Errand::Again { .. } => answer is Sent,
        Errand::Stored { .. } => answer is Stat,
        Errand::Reviewed { .. } => answer is Looked,
        Errand::Moved { .. } => answer is Done,
        Errand::Told => answer is Done,
    }
}

/// The ledger after a file was found to hold no edits any more.
pub open spec fn unmarked(l: LedgerView, p: Seq<char>) -> LedgerView {
    if l.dirty.contains(p) {
        with_write(LedgerView { dirty: l.dirty.remove(p), ..l }, Write::Unmark(p))
    } else {
        l
    }
}

/// The ledger after a file was found to hold edits.
pub open spec fn marked(l: LedgerView, p: Seq<char>) -> LedgerView {
    if l.dirty.contains(p) {
        l
    } else {
        with_write(LedgerView { dirty: l.dirty.insert(p), ..l }, Write::Mark(p))
    }
}

/// The first leg of an upload. With a lease, a file that is being renamed or
/// removed has to wait.
pub open spec fn first_leg(
    l: LedgerView,
    guard: Guard,
    frozen: Set<Seq<char>>,
    ignored: bool,
    path: Seq<char>,
) -> LegView {
    if guard == Guard::Lease && is_frozen(frozen, path) {
        LegView::End(Upload::Retry)
    } else if !l.dirty.contains(path) || ignored {
        LegView::End(Upload::Done)
    } else {
        LegView::Do(Errand::Found { guard, path }, Act::Look(path))
    }
}

/// The file is sent to its target.
pub open spec fn send(trip: Trip<Seq<char>>, target: Seq<char>, since: Option<u64>) -> LegView {
    LegView::Do(
        Errand::Sent { trip, target, since },
        Act::Send { source: trip.path, target, since },
    )
}

/// The target is known. Where versions are compared, it is asked once more
/// whether there is still something to upload.
pub open spec fn depart(l: LedgerView, trip: Trip<Seq<char>>, target: Seq<char>) -> LegView {
    if trip.guard == Guard::Compare && !l.dirty.contains(trip.path) {
        LegView::End(Upload::Done)
    } else {
        send(trip, target, None)
    }
}

/// The next name is tried for a copy.
pub open spec fn name_copy(trip: Trip<Seq<char>>, n: u64) -> LegView {
    LegView::Do(Errand::Named { trip, n }, Act::IsVacant(copy_path(trip.path, n as nat)))
}

/// The server has another version than the one last seen, or one where none was
/// seen.
pub open spec fn is_conflict(
    recorded: Option<Observation>,
    server: Result<FileInfo, Error>,
) -> bool {
    match (recorded, server) {
        (Some(rec), Ok(info)) => rec != seen_in(info),
        (None, Ok(_)) => true,
        _ => false,
    }
}

/// The file has been sent.
pub open spec fn land(
    l: LedgerView,
    trip: Trip<Seq<char>>,
    target: Seq<char>,
    uploaded: Option<Observation>,
) -> (LedgerView, LegView) {
    let seen = match uploaded {
        Some(o) => if target == trip.path {
            observed(l, trip.path, o)
        } else {
            l
        },
        None => l,
    };
    (
        unmarked(unmarked(seen, trip.path), target),
        LegView::Do(Errand::Reviewed { trip, target, uploaded }, Act::Look(trip.path)),
    )
}

/// What follows from what came of sending the file.
pub open spec fn after_sent(
    l: LedgerView,
    trip: Trip<Seq<char>>,
    target: Seq<char>,
    since: Option<u64>,
    sent: Sent,
    again: bool,
) -> (LedgerView, LegView) {
    match sent {
        Sent::Done(mtime) => match trip.guard {
            Guard::Compare => (
                l,
                LegView::Do(Errand::Stored { trip, target }, Act::Stat(target)),
            ),
            Guard::Lease => land(
                l,
                trip,
                target,
                match mtime {
                    Some(m) => Some(
                        Observation { size: trip.found.size, time: whole_secs(Some(m)) },
                    ),
                    None => None,
                },
            ),
        },
        Sent::Refused(Error::PreconditionFailed) => if trip.guard == Guard::Lease
            && since is Some {
            (l, name_copy(trip, 0))
        } else {
            (l, LegView::Failed)
        },
        Sent::Refused(Error::NotFound) => if again {
            (l, LegView::Failed)
        } else {
            (
                l,
                LegView::Do(
                    Errand::Dirs { trip, target, since },
                    Act::Mkdirs(ancestors_of(target)),
                ),
            )
        },
        Sent::Refused(Error::PermissionDenied) => if again {
            (l, LegView::Failed)
        } else {
            (
                l,
                LegView::Do(
                    Errand::Dirs { trip, target, since },
                    Act::Mkdirs(ancestors_of(target)),
                ),
            )
        },
        _ => (l, LegView::Failed),
    }
}

/// When a local file was last written, as far as it can be told.
pub open spec fn written_at(sight: Sight) -> Option<Moment> {
    match sight {
        Sight::Here(meta) => meta.mtime,
        _ => None,
    }
}

/// The ledger and the leg that follow an answer.
pub open spec fn next_leg(
    l: LedgerView,
    errand: Errand<Seq<char>>,
    answer: Answer,
) -> (LedgerView, LegView) {
    match errand {
        Errand::Found { guard, path } => match answer->Looked_0 {
            Sight::Here(found) => {
                let trip = Trip { guard, path, found };
                let recorded = lease(l.observations, path);
                match guard {
                    Guard::Compare => (
                        l,
                        LegView::Do(Errand::Compared { trip, recorded }, Act::Stat(path)),
                    ),
                    Guard::Lease => (l, send(trip, path, Some(lease_time(recorded)))),
                }
            },
            Sight::Missing => (unmarked(l, path), LegView::End(Upload::Done)),
            Sight::Unreadable => (l, LegView::Failed),
        },
        Errand::Compared { trip, recorded } => if is_conflict(recorded, answer->Stat_0) {
            (l, name_copy(trip, 0))
        } else {
            (l, depart(l, trip, trip.path))
        },
        Errand::Named { trip, n } => if answer->IsVacant_0 {
            (l, depart(l, trip, copy_path(trip.path, n as nat)))
        } else if n + 1 < COPY_TRIES {
            (l, name_copy(trip, (n + 1) as u64))
        } else {
            (l, LegView::Failed)
        },
        Errand::Sent { trip, target, since } => after_sent(
            l,
            trip,
            target,
            since,
            answer->Sent_0,
            false,
        ),
        Errand::Dirs { trip, target, since } => (
            l,
            LegView::Do(
                Errand::Again { trip, target, since },
                Act::Send { source: trip.path, target, since },
            ),
        ),
        Errand::Again { trip, target, since } => after_sent(
            l,
            trip,
            target,
            since,
            answer->Sent_0,
            true,
        ),
        Errand::Stored { trip, target } => land(
            l,
            trip,
            target,
            match answer->Stat_0 {
                Ok(info) => Some(seen_in(info)),
                Err(_) => None,
            },
        ),
        Errand::Reviewed { trip, target, uploaded } => {
            let after = written_at(answer->Looked_0);
            if after != trip.found.mtime {
                (marked(l, trip.path), LegView::End(Upload::Retry))
            } else if target != trip.path {
                (
                    l,
                    LegView::Do(
                        Errand::Moved { trip, target, uploaded, after },
                        Act::Relocate { from: trip.path, to: target },
                    ),
                )
            } else {
                (l, LegView::Do(Errand::Told, Act::Settle { target, mtime: after }))
            }
        },
        Errand::Moved { trip, target, uploaded, after } => {
            let left = unobserved(l, trip.path);
            (
                match uploaded {
                    Some(o) => observed(left, target, o),
                    None => left,
                },
                LegView::Do(Errand::Told, Act::Settle { target, mtime: after }),
            )
        },
        Errand::Told => (l, LegView::End(Upload::Done)),
    }
}

/// Begins the upload of a file.
pub fn upload(
    ledger: &Ledger,
    guard: Guard,
    frozen: &PathSet,
    ignore: &Ignore,
    path: &RelPath,
) -> (r: Leg)
    ensures
        r@ == first_leg(
            ledger@,
            guard,
            frozen@,
            crate::config::is_ignored(ignore@, path@),
            path@,
        ),
{
    if guard == Guard::Lease && is_covered(frozen, path) {
        return Leg::End(Upload::Retry);
    }
    if !ledger.dirty.contains(path) || ignore.matches(path) {
        return Leg::End(Upload::Done);
    }
    Leg::Do(Errand::Found { guard, path: path.clone() }, Act::Look(path.clone()))
}

fn sending(trip: Trip, target: RelPath, since: Option<u64>) -> (r: Leg)
    ensures
        r@ == send(trip@, target@, since),
{
    let act = Act::Send { source: trip.path.clone(), target: target.clone(), since };
    Leg::Do(Errand::Sent { trip, target, since }, act)
}

fn departing(ledger: &Ledger, trip: Trip, target: RelPath) -> (r: Leg)
    ensures
        r@ == depart(ledger@, trip@, target@),
{
    if trip.guard == Guard::Compare && !ledger.dirty.contains(&trip.path) {
        Leg::End(Upload::Done)
    } else {
        sending(trip, target, None)
    }
}

fn naming(trip: Trip, n: u64) -> (r: Leg)
    requires
        n < COPY_TRIES,
    ensures
        r@ == name_copy(trip@, n),
{
    let act = Act::IsVacant(copy_of(&trip.path, n));
    Leg::Do(Errand::Named { trip, n }, act)
}

fn landing(ledger: &mut Ledger, trip: Trip, target: RelPath, uploaded: Option<Observation>) -> (r:
    Leg)
    ensures
        (final(ledger)@, r@) == land(old(ledger)@, trip@, target@, uploaded),
{
    match uploaded {
        Some(o) => {
            if target == trip.path {
                ledger.observe(&trip.path, o);
            }
        },
        None => {},
    }
    ledger.dirty_clear(&trip.path);
    ledger.dirty_clear(&target);
    let act = Act::Look(trip.path.clone());
    Leg::Do(Errand::Reviewed { trip, target, uploaded }, act)
}

fn weigh(
    ledger: &mut Ledger,
    trip: Trip,
    target: RelPath,
    since: Option<u64>,
    sent: Sent,
    again: bool,
) -> (r: Leg)
    ensures
        (final(ledger)@, r@) == after_sent(old(ledger)@, trip@, target@, since, sent, again),
{
    match sent {
        Sent::Done(mtime) => match trip.guard {
            Guard::Compare => {
                let act = Act::Stat(target.clone());
                Leg::Do(Errand::Stored { trip, target }, act)
            },
            Guard::Lease => {
                let uploaded = match mtime {
                    Some(m) => Some(Observation::new(trip.found.size, Some(m))),
                    None => None,
                };
                landing(ledger, trip, target, uploaded)
            },
        },
        Sent::Refused(Error::PreconditionFailed) => {
            if trip.guard == Guard::Lease && since.is_some() {
                naming(trip, 0)
            } else {
                Leg::Failed
            }
        },
        Sent::Refused(Error::NotFound) | Sent::Refused(Error::PermissionDenied) => {
            if again {
                Leg::Failed
            } else {
                let act = Act::Mkdirs(ancestors(&target));
                Leg::Do(Errand::Dirs { trip, target, since }, act)
            }
        },
        _ => Leg::Failed,
    }
}

fn conflicts(recorded: Option<Observation>, server: &Result<FileInfo, Error>) -> (r: bool)
    ensures
        r == is_conflict(recorded, *server),
{
    match server {
        Ok(info) => match recorded {
            Some(rec) => rec != Observation::of(info),
            None => true,
        },
        Err(_) => false,
    }
}

/// Goes on with an upload after an answer.
pub fn proceed(ledger: &mut Ledger, errand: Errand, answer: Answer) -> (r: Leg)
    requires
        answers(errand@, answer),
    ensures
        (final(ledger)@, r@) == next_leg(old(ledger)@, errand@, answer),
{
    match errand {
        Errand::Found { guard, path } => match answer {
            Answer::Looked(Sight::Here(found)) => {
                let recorded = match ledger.observations.get(&path) {
                    Some(o) => Some(*o),
                    None => None,
                };
                let target = path.clone();
                let trip = Trip { guard, path, found };
                match guard {
                    Guard::Compare => Leg::Do(
                        Errand::Compared { trip, recorded },
                        Act::Stat(target),
                    ),
                    Guard::Lease => {
                        let since: u64 = match recorded {
                            Some(o) => o.time,
                            None => 0,
                        };
                        sending(trip, target, Some(since))
                    },
                }
            },
            Answer::Looked(Sight::Missing) => {
                ledger.dirty_clear(&path);
                Leg::End(Upload::Done)
            },
            _ => Leg::Failed,
        },
        Errand::Compared { trip, recorded } => match answer {
            Answer::Stat(server) => {
                if conflicts(recorded, &server) {
                    naming(trip, 0)
                } else {
                    let target = trip.path.clone();
                    departing(ledger, trip, target)
                }
            },
            _ => Leg::Failed,
        },
        Errand::Named { trip, n } => match answer {
            Answer::IsVacant(vacant) => {
                if vacant {
                    let target = copy_of(&trip.path, n);
                    departing(ledger, trip, target)
                } else if n + 1 < COPY_TRIES {
                    naming(trip, n + 1)
                } else {
                    Leg::Failed
                }
            },
            _ => Leg::Failed,
        },
        Errand::Sent { trip, target, since } => match answer {
            Answer::Sent(s) => weigh(ledger, trip, target, since, s, false),
            _ => Leg::Failed,
        },
        Errand::Dirs { trip, target, since } => {
            let act = Act::Send { source: trip.path.clone(), target: target.clone(), since };
            Leg::Do(Errand::Again { trip, target, since }, act)
        },
        Errand::Again { trip, target, since } => match answer {
            Answer::Sent(s) => weigh(ledger, trip, target, since, s, true),
            _ => Leg::Failed,
        },
        Errand::Stored { trip, target } => {
            let uploaded = match &answer {
                Answer::Stat(Ok(info)) => Some(Observation::of(info)),
                _ => None,
            };
            landing(ledger, trip, target, uploaded)
        },
        Errand::Reviewed { trip, target, uploaded } => {
            let after = match answer {
                Answer::Looked(Sight::Here(meta)) => meta.mtime,
                _ => None,
            };
            if after != trip.found.mtime {
                let _ = ledger.dirty_set(&trip.path);
                Leg::End(Upload::Retry)
            } else if target != trip.path {
                let act = Act::Relocate { from: trip.path.clone(), to: target.clone() };
                Leg::Do(Errand::Moved { trip, target, uploaded, after }, act)
            } else {
                Leg::Do(Errand::Told, Act::Settle { target, mtime: after })
            }
        },
        Errand::Moved { trip, target, uploaded, after } => {
            ledger.unobserve(&trip.path);
            match uploaded {
                Some(o) => {
                    ledger.observe(&target, o);
                },
                None => {},
            }
            Leg::Do(Errand::Told, Act::Settle { target, mtime: after })
        },
        Errand::Told => Leg::End(Upload::Done),
    }
}

/// An edit that comes while the file is being uploaded is not lost: the file
/// still counts as edited, and is uploaded again.
pub proof fn law_an_edit_during_an_upload_is_kept(
    l: LedgerView,
    trip: Trip<Seq<char>>,
    target: Seq<char>,
    uploaded: Option<Observation>,
    sight: Sight,
)
    requires
        written_at(sight) != trip.found.mtime,
    ensures
        ({
            let (after, leg) = next_leg(
                l,
                Errand::Reviewed { trip, target, uploaded },
                Answer::Looked(sight),
            );
            after.dirty.contains(trip.path) && leg == LegView::End(Upload::Retry)
        }),
{
}

/// The file that an errand is about.
pub open spec fn errand_path(errand: Errand<Seq<char>>) -> Option<Seq<char>> {
    match errand {
        Errand::Found { guard, path } => Some(path),
        Errand::Compared { trip, recorded } => Some(trip.path),
        Errand::Named { trip, n } => Some(trip.path),
        Errand::Sent { trip, target, since } => Some(trip.path),
        Errand::Dirs { trip, target, since } => Some(trip.path),
        Errand::Again { trip, target, since } => Some(trip.path),
        Errand::Stored { trip, target } => Some(trip.path),
        Errand::Reviewed { trip, target, uploaded } => Some(trip.path),
        Errand::Moved { trip, target, uploaded, after } => Some(trip.path),
        Errand::Told => None,
    }
}

/// What a file is uploaded to, as far as it is known.
pub open spec fn errand_target(errand: Errand<Seq<char>>) -> Option<Seq<char>> {
    match errand {
        Errand::Sent { trip, target, since } => Some(target),
        Errand::Dirs { trip, target, since } => Some(target),
        Errand::Again { trip, target, since } => Some(target),
        Errand::Stored { trip, target } => Some(target),
        Errand::Reviewed { trip, target, uploaded } => Some(target),
        Errand::Moved { trip, target, uploaded, after } => Some(target),
        _ => None,
    }
}

/// An upload changes nothing that the ledger says of other files.
pub proof fn law_an_upload_touches_no_other_file(
    l: LedgerView,
    errand: Errand<Seq<char>>,
    answer: Answer,
    p: Seq<char>,
)
    requires
        errand_path(errand) != Some(p),
        errand_target(errand) != Some(p),
    ensures
        next_leg(l, errand, answer).0.dirty.contains(p) == l.dirty.contains(p),
        lease(next_leg(l, errand, answer).0.observations, p) == lease(l.observations, p),
        next_leg(l, errand, answer).0.pins == l.pins,
{
}

/// The version that an upload sends out, if it does.
pub open spec fn sending_of(leg: LegView) -> Option<(Seq<char>, Option<u64>)> {
    match leg {
        LegView::Do(_, Act::Send { source, target, since }) => Some((target, since)),
        _ => None,
    }
}

/// An upload with a lease names the version that it may replace whenever it is
/// sent to the path of the file: the one that was last seen, or none at all.
pub proof fn law_a_leased_upload_names_what_it_replaces(
    l: LedgerView,
    path: Seq<char>,
    answer: Answer,
)
    requires
        answer is Looked,
    ensures
        ({
            let (after, leg) = next_leg(l, Errand::Found { guard: Guard::Lease, path }, answer);
            sending_of(leg) matches Some((target, since)) ==> target == path && since == Some(
                lease_time(lease(l.observations, path)),
            )
        }),
{
}

/// If the server has another version than the one last seen, the file is not
/// sent to its own path: all that follows is the search for the name of a copy,
/// and it is sent only to a name that was just found free. Once all names are
/// taken, the upload fails, and the file stays here to be tried again.
pub proof fn law_another_version_is_never_overwritten(
    l: LedgerView,
    trip: Trip<Seq<char>>,
    recorded: Option<Observation>,
    server: Result<FileInfo, Error>,
)
    requires
        is_conflict(recorded, server),
    ensures
        next_leg(l, Errand::Compared { trip, recorded }, Answer::Stat(server)) == (
            l,
            name_copy(trip, 0),
        ),
        forall|n: u64, vacant: bool|
            n < COPY_TRIES ==> (sending_of(
                #[trigger] next_leg(l, Errand::Named { trip, n }, Answer::IsVacant(vacant)).1,
            ) matches Some((target, since)) ==> vacant && target == copy_path(
                trip.path,
                n as nat,
            )),
        forall|n: u64|
            n < COPY_TRIES ==> #[trigger] next_leg(
                l,
                Errand::Named { trip, n },
                Answer::IsVacant(false),
            ) == (
                l,
                if n + 1 < COPY_TRIES {
                    name_copy(trip, (n + 1) as u64)
                } else {
                    LegView::Failed
                },
            ),
{
}

/// A file is sent to its own path, or to the name of a copy that was asked about
/// and found free, and is given no other name here: it never overwrites another
/// file.
pub proof fn law_a_copy_goes_to_a_free_name(
    l: LedgerView,
    errand: Errand<Seq<char>>,
    answer: Answer,
)
    requires
        answers(errand, answer),
    ensures
        next_leg(l, errand, answer).1 matches LegView::Do(e, act) ==> {
            &&& e matches Errand::Named { trip, n } ==> act == Act::<
                Seq<char>,
                Seq<Seq<char>>,
            >::IsVacant(copy_path(trip.path, n as nat))
            &&& errand_target(e) matches Some(target) ==> {
                ||| errand_target(errand) == Some(target)
                ||| errand !is Named && errand_path(errand) == Some(target)
                ||| errand matches Errand::Named { trip, n } && answer == Answer::IsVacant(true)
                    && target == copy_path(trip.path, n as nat)
            }
            &&& act matches Act::Send { source, target, since } ==> errand_target(e) == Some(target)
            &&& act matches Act::Relocate { from, to } ==> errand_target(e) == Some(to)
        },
{
}

/// An upload begins with a look at the file. There is nothing to upload where the
/// file holds no edits or is ignored, and one with a lease waits while the file or a
/// directory above it is being renamed or removed.
pub proof fn law_how_an_upload_begins(
    l: LedgerView,
    guard: Guard,
    frozen: Set<Seq<char>>,
    ignored: bool,
    path: Seq<char>,
    dir: Seq<char>,
)
    ensures
        ({
            let leg = first_leg(l, guard, frozen, ignored, path);
            &&& guard == Guard::Lease && frozen.contains(dir) && (path == dir || crate::path::below(
                path,
                dir,
            )) ==> leg == LegView::End(Upload::Retry)
            &&& leg == LegView::End(Upload::Retry) ==> guard == Guard::Lease && exists|d: Seq<char>| #[trigger]
                frozen.contains(d) && (path == d || crate::path::below(path, d))
            &&& leg == LegView::End(Upload::Done) ==> !l.dirty.contains(path) || ignored
            &&& l.dirty.contains(path) && !ignored && leg != LegView::End(Upload::Retry) ==> leg
                == LegView::Do(Errand::Found { guard, path }, Act::Look(path))
            &&& leg !is Failed
        }),
{
}

/// The server has another version if it has one that is not the one last seen; what
/// cannot be asked is no other version.
pub proof fn law_what_another_version_is(
    recorded: Option<Observation>,
    server: Result<FileInfo, Error>,
)
    ensures
        server is Err ==> !is_conflict(recorded, server),
        server is Ok && recorded is None ==> is_conflict(recorded, server),
        server is Ok && recorded is Some ==> (is_conflict(recorded, server) <==> recorded->0
            != seen_in(server->Ok_0)),
{
}

/// An upload fails only where the file cannot be read, where all names for a copy
/// are taken, or where the server refuses the file: another version is in the way of
/// one that may not replace it, the file has been sent once more already, or it is
/// any other error.
pub proof fn law_when_an_upload_fails(l: LedgerView, errand: Errand<Seq<char>>, answer: Answer)
    requires
        answers(errand, answer),
    ensures
        next_leg(l, errand, answer).1 is Failed <==> match errand {
            Errand::Found { guard, path } => answer->Looked_0 is Unreadable,
            Errand::Named { trip, n } => !answer->IsVacant_0 && n + 1 >= COPY_TRIES,
            Errand::Sent { trip, target, since } => match answer->Sent_0 {
                Sent::Done(m) => false,
                Sent::Refused(e) => !(e is NotFound || e is PermissionDenied || (e is PreconditionFailed
                    && trip.guard == Guard::Lease && since is Some)),
                _ => true,
            },
            Errand::Again { trip, target, since } => match answer->Sent_0 {
                Sent::Done(m) => false,
                Sent::Refused(e) => !(e is PreconditionFailed && trip.guard == Guard::Lease
                    && since is Some),
                _ => true,
            },
            _ => false,
        },
        next_leg(l, errand, answer).1 is Failed ==> next_leg(l, errand, answer).0 == l,
{
}

/// An upload is done only where there is no file any more, where its edits went
/// elsewhere meanwhile, or where all has been told; it is tried again only where the
/// file was written meanwhile.
pub proof fn law_when_an_upload_is_done(l: LedgerView, errand: Errand<Seq<char>>, answer: Answer)
    requires
        answers(errand, answer),
    ensures
        next_leg(l, errand, answer).1 matches LegView::End(Upload::Done) ==> {
            ||| errand is Told
            ||| errand is Found && answer->Looked_0 is Missing
            ||| errand matches Errand::Compared { trip, recorded } && trip.guard == Guard::Compare
                && !l.dirty.contains(trip.path)
            ||| errand matches Errand::Named { trip, n } && trip.guard == Guard::Compare
                && !l.dirty.contains(trip.path)
        },
        next_leg(l, errand, answer).1 matches LegView::End(Upload::Retry) ==> errand matches Errand::Reviewed {
            trip,
            target,
            uploaded,
        } && written_at(answer->Looked_0) != trip.found.mtime,
        errand matches Errand::Found { guard, path } ==> answer->Looked_0 is Missing ==> {
            let (after, leg) = next_leg(l, errand, answer);
            leg == LegView::End(Upload::Done) && !after.dirty.contains(path)
        },
{
}

/// Where the server lacks the directory, or does not let the file in, the directories
/// above it are made and the file is sent once more: from the same place, to the same
/// place and on the same condition.
pub proof fn law_the_directories_are_made_and_the_file_sent_again(
    l: LedgerView,
    trip: Trip<Seq<char>>,
    target: Seq<char>,
    since: Option<u64>,
    answer: Answer,
)
    ensures
        forall|e: Error|
            e is NotFound || e is PermissionDenied ==> (#[trigger] next_leg(
                l,
                Errand::Sent { trip, target, since },
                Answer::Sent(Sent::Refused(e)),
            )) == (
                l,
                LegView::Do(
                    Errand::Dirs { trip, target, since },
                    Act::<Seq<char>, Seq<Seq<char>>>::Mkdirs(ancestors_of(target)),
                ),
            ),
        next_leg(l, Errand::Dirs { trip, target, since }, answer) == (
            l,
            LegView::Do(
                Errand::Again { trip, target, since },
                Act::<Seq<char>, Seq<Seq<char>>>::Send { source: trip.path, target, since },
            ),
        ),
{
}

/// A file that was sent with a lease, and refused because another version is there,
/// goes beside it: the search for the name of a copy begins with the first.
pub proof fn law_a_refused_lease_makes_a_copy(
    l: LedgerView,
    trip: Trip<Seq<char>>,
    target: Seq<char>,
    since: u64,
)
    requires
        trip.guard == Guard::Lease,
    ensures
        forall|e: Errand<Seq<char>>|
            e == (Errand::Sent { trip, target, since: Some(since) }) || e == (Errand::Again {
                trip,
                target,
                since: Some(since),
            }) ==> #[trigger] next_leg(
                l,
                e,
                Answer::Sent(Sent::Refused(Error::PreconditionFailed)),
            ) == (
                l,
                LegView::Do(
                    Errand::Named { trip, n: 0 },
                    Act::<Seq<char>, Seq<Seq<char>>>::IsVacant(copy_path(trip.path, 0)),
                ),
            ),
{
}

/// Once the server has the file, the file holds no edits any more, until it is looked
/// at once more. If it went to its own place, the version is known that is there now:
/// the one that the server tells of, or the size that was found with the time that
/// the server gave it. If it went elsewhere, what is known of its own place stays.
pub proof fn law_what_a_sent_file_teaches(
    l: LedgerView,
    trip: Trip<Seq<char>>,
    target: Seq<char>,
    since: Option<u64>,
    mtime: Option<Moment>,
    info: Result<FileInfo, Error>,
)
    ensures
        ({
            let (after, leg) = next_leg(
                l,
                Errand::Sent { trip, target, since },
                Answer::Sent(Sent::Done(mtime)),
            );
            if trip.guard == Guard::Compare {
                after == l && leg == LegView::Do(
                    Errand::Stored { trip, target },
                    Act::<Seq<char>, Seq<Seq<char>>>::Stat(target),
                )
            } else {
                &&& !after.dirty.contains(trip.path) && !after.dirty.contains(target)
                &&& target == trip.path && mtime is Some ==> after.observations.dom().contains(target)
                    && after.observations[target].size == trip.found.size
                    && after.observations[target].time == whole_secs(mtime)
                &&& target != trip.path || mtime is None ==> after.observations == l.observations
                &&& leg matches LegView::Do(Errand::Reviewed { .. }, Act::Look(p)) && p == trip.path
            }
        }),
        ({
            let (after, leg) = next_leg(l, Errand::Stored { trip, target }, Answer::Stat(info));
            &&& !after.dirty.contains(trip.path) && !after.dirty.contains(target)
            &&& target == trip.path && info is Ok ==> after.observations.dom().contains(target)
                && after.observations[target] == seen_in(info->Ok_0)
            &&& target != trip.path || info is Err ==> after.observations == l.observations
            &&& leg matches LegView::Do(Errand::Reviewed { .. }, Act::Look(p)) && p == trip.path
        }),
{
}

/// A file that was not written meanwhile is told of where it went; one that went to
/// the name of a copy gets that name here too, and what is known is known of that name.
pub proof fn law_how_an_upload_ends(
    l: LedgerView,
    trip: Trip<Seq<char>>,
    target: Seq<char>,
    uploaded: Option<Observation>,
    sight: Sight,
    answer: Answer,
)
    requires
        written_at(sight) == trip.found.mtime,
    ensures
        ({
            let (after, leg) = next_leg(
                l,
                Errand::Reviewed { trip, target, uploaded },
                Answer::Looked(sight),
            );
            &&& after == l
            &&& target == trip.path ==> leg == LegView::Do(
                Errand::<Seq<char>>::Told,
                Act::<Seq<char>, Seq<Seq<char>>>::Settle { target, mtime: trip.found.mtime },
            )
            &&& target != trip.path ==> (leg matches LegView::Do(
                Errand::Moved { .. },
                Act::Relocate { from, to },
            ) && from == trip.path && to == target)
        }),
        target != trip.path ==> {
            let (after, leg) = next_leg(
                l,
                Errand::Moved { trip, target, uploaded, after: trip.found.mtime },
                answer,
            );
            &&& !after.observations.dom().contains(trip.path)
            &&& uploaded is Some ==> after.observations.dom().contains(target)
                && after.observations[target] == uploaded->0
            &&& leg == LegView::Do(
                Errand::<Seq<char>>::Told,
                Act::<Seq<char>, Seq<Seq<char>>>::Settle { target, mtime: trip.found.mtime },
            )
        },
{
}

/// Marks and their removal touch the file that they are about and nothing else.
pub proof fn law_marks_are_set_and_removed(l: LedgerView, p: Seq<char>, q: Seq<char>)
    ensures
        marked(l, p).dirty.contains(p),
        !unmarked(l, p).dirty.contains(p),
        q != p ==> marked(l, p).dirty.contains(q) == l.dirty.contains(q) && unmarked(
            l,
            p,
        ).dirty.contains(q) == l.dirty.contains(q),
        marked(l, p).observations == l.observations && unmarked(l, p).observations == l.observations,
        marked(l, p).pins == l.pins && unmarked(l, p).pins == l.pins,
{
}

} // verus!
