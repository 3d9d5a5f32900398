//! What holds where the drive meets the disk, the system and the user.
use crate::config::{logged_out, recalled, SessionView};
use crate::gui::{
    colour_of, command_of, hex_run, icon_of, is_hex, manages_files, menu_of, painted, picked_item,
    repainted, tip_of, tray_menu_of, Item, Pick, Status, TrayEvent,
};
use crate::ico::{best_entry, frame_of, le16};
use crate::login::{
    after_browser, after_form, after_probe, commanded, outcome_of, AskView, DialogState, LoginView,
};
use crate::model::{Moment, Operation};
use crate::path::normal;
use crate::platform::{errno_of, millis_of, phone_entry, phone_error, EntryKind, FsErrorView};
use crate::rows::{
    as_loaded, conflict_of, conflicts_in, edits_in, entry_of, marks_in, paths_in, plans_in,
    stored_version, versions_in, ConflictRow, Found, JournalRow,
};
use crate::sdk::{error_text, server_url, Error, ErrorKind, FileType};
use crate::text::{split, starts, trim};
use crate::view::InfoView;
use crate::volume::{
    filetime_of, hex_value, relative, same_but_case, same_letter, small_ascii, stripped, unescaped,
};
use vstd::prelude::*;

verus! {

/// What a row stands for is told by its letter, and what is missing makes it garbage:
/// a move needs a destination and a version, a removal a version.
pub proof fn law_what_a_row_stands_for(row: JournalRow<Seq<char>>)
    ensures
        row.op == "w"@ ==> entry_of(row) == Found::Mark(normal(row.path)),
        row.op == "s"@ ==> (entry_of(row) matches Found::Plan(plan) && plan is Save && plan->Save_path
            == normal(row.path) && plan->replaces == stored_version(row.size, row.time)
            && plan->reuses is Some == row.base is Some),
        row.op == "m"@ && row.dest is Some && row.size is Some && row.time is Some ==> (entry_of(
            row,
        ) matches Found::Plan(plan) && plan is Move && plan->from == normal(row.path) && plan->to
            == normal(row.dest->0) && plan->moves.size == as_loaded(row.size->0) && plan->moves.time
            == as_loaded(row.time->0)),
        row.op == "m"@ && (row.dest is None || row.size is None || row.time is None) ==> entry_of(row)
            == Found::<Seq<char>>::Garbage,
        row.op == "r"@ && row.size is Some && row.time is Some ==> (entry_of(row) matches Found::Plan(
            plan,
        ) && plan is Remove && plan->Remove_path == normal(row.path) && plan->removes.size
            == as_loaded(row.size->0) && plan->removes.time == as_loaded(row.time->0)),
        row.op == "r"@ && (row.size is None || row.time is None) ==> entry_of(row)
            == Found::<Seq<char>>::Garbage,
        row.op != "w"@ && row.op != "s"@ && row.op != "m"@ && row.op != "r"@ ==> entry_of(row)
            == Found::<Seq<char>>::Garbage,
{
    reveal_strlit("w");
    reveal_strlit("s");
    reveal_strlit("m");
    reveal_strlit("r");
    assert("w"@[0] == 'w' && "s"@[0] == 's' && "m"@[0] == 'm' && "r"@[0] == 'r');
}

/// Each row gives what it stands for, in order: a mark a write, a plan itself with
/// its number, and garbage nothing.
pub proof fn law_rows_are_read_in_order(
    rows: Seq<JournalRow<Seq<char>>>,
    row: JournalRow<Seq<char>>,
)
    ensures
        marks_in(rows.push(row)) == match entry_of(row) {
            Found::Mark(p) => marks_in(rows).push(Operation::Write(p)),
            _ => marks_in(rows),
        },
        plans_in(rows.push(row)) == match entry_of(row) {
            Found::Plan(plan) => plans_in(rows).push((row.seq, plan)),
            _ => plans_in(rows),
        },
        marks_in(Seq::empty()).len() == 0,
        plans_in(Seq::empty()).len() == 0,
{
    assert(rows.push(row).drop_last() =~= rows);
}

/// A file holds edits where a row marks it or is to save it.
pub proof fn law_which_files_hold_edits(rows: Seq<JournalRow<Seq<char>>>, p: Seq<char>)
    ensures
        edits_in(rows).contains(p) <==> exists|i: int|
            0 <= i < rows.len() && ((#[trigger] rows[i]).op == "w"@ || rows[i].op == "s"@) && normal(
                rows[i].path,
            ) == p,
    decreases rows.len(),
{
    if rows.len() > 0 {
        let front = rows.drop_last();
        let n = rows.len() - 1;
        law_which_files_hold_edits(front, p);
        assert(rows[n] == rows.last());
        if edits_in(front).contains(p) {
            let i = choose|i: int|
                0 <= i < front.len() && ((#[trigger] front[i]).op == "w"@ || front[i].op == "s"@)
                    && normal(front[i].path) == p;
            assert(rows[i] == front[i]);
        }
        if exists|i: int|
            0 <= i < rows.len() && ((#[trigger] rows[i]).op == "w"@ || rows[i].op == "s"@) && normal(
                rows[i].path,
            ) == p {
            let i = choose|i: int|
                0 <= i < rows.len() && ((#[trigger] rows[i]).op == "w"@ || rows[i].op == "s"@)
                    && normal(rows[i].path) == p;
            if i < n {
                assert(front[i] == rows[i]);
            }
        }
    }
}

/// Of a file the version is known that its last row gives; without a row none is.
pub proof fn law_the_last_row_of_a_file_counts(
    rows: Seq<(Seq<char>, i64, i64)>,
    path: Seq<char>,
    size: i64,
    time: i64,
    p: Seq<char>,
)
    ensures
        ({
            let before = versions_in(rows);
            let after = versions_in(rows.push((path, size, time)));
            &&& after.dom().contains(normal(path))
            &&& after[normal(path)].size == as_loaded(size)
            &&& after[normal(path)].time == as_loaded(time)
            &&& p != normal(path) ==> after.dom().contains(p) == before.dom().contains(p)
            &&& p != normal(path) && before.dom().contains(p) ==> after[p] == before[p]
        }),
        versions_in(Seq::empty()).dom() == Set::<Seq<char>>::empty(),
{
    assert(rows.push((path, size, time)).drop_last() =~= rows);
}

/// A path is pinned where a row names it.
pub proof fn law_which_paths_the_rows_name(rows: Seq<Seq<char>>, p: Seq<char>)
    ensures
        paths_in(rows).contains(p) <==> exists|i: int|
            0 <= i < rows.len() && normal(#[trigger] rows[i]) == p,
    decreases rows.len(),
{
    if rows.len() > 0 {
        let front = rows.drop_last();
        let n = rows.len() - 1;
        law_which_paths_the_rows_name(front, p);
        assert(rows[n] == rows.last());
        if paths_in(front).contains(p) {
            let i = choose|i: int| 0 <= i < front.len() && normal(#[trigger] front[i]) == p;
            assert(rows[i] == front[i]);
        }
        if exists|i: int| 0 <= i < rows.len() && normal(#[trigger] rows[i]) == p {
            let i = choose|i: int| 0 <= i < rows.len() && normal(#[trigger] rows[i]) == p;
            if i < n {
                assert(front[i] == rows[i]);
            }
        }
    }
}

/// A digit to the base of 16 has its value, in capitals and in small letters, and
/// nothing else is one.
pub proof fn law_the_digits_to_the_base_of_sixteen(b: u8)
    ensures
        hex_value(b) matches Some(v) ==> v < 16,
        b < 10 ==> hex_value((48 + b) as u8) == Some(b),
        10 <= b < 16 ==> hex_value((65 + b - 10) as u8) == Some(b) && hex_value((97 + b - 10) as u8)
            == Some(b),
        hex_value(b) is Some <==> (48 <= b <= 57) || (65 <= b <= 70) || (97 <= b <= 102),
{
}

/// A percent sign with two digits stands for one byte: sixteen times the first and
/// the second.
pub proof fn law_an_escape_stands_for_a_byte(high: u8, low: u8, rest: Seq<u8>)
    requires
        hex_value(high) is Some,
        hex_value(low) is Some,
    ensures
        ({
            let whole = seq![37u8, high, low] + rest;
            let meant = unescaped(whole);
            &&& meant.len() == 1 + unescaped(rest).len()
            &&& meant[0] == 16 * hex_value(high)->0 + hex_value(low)->0
            &&& meant.skip(1) == unescaped(rest)
        }),
{
    let whole = seq![37u8, high, low] + rest;
    law_the_digits_to_the_base_of_sixteen(high);
    law_the_digits_to_the_base_of_sixteen(low);
    assert(whole[0] == 37 && whole[1] == high && whole[2] == low);
    assert(whole.skip(3) =~= rest);
    assert(unescaped(whole).skip(1) =~= unescaped(rest));
}

/// Two letters are the same but for capitals where they are the same letter, one
/// small and one not.
pub proof fn law_letters_and_capitals(a: char, b: char)
    ensures
        same_letter(a, a),
        same_letter(a, b) == same_letter(b, a),
        same_letter(a, b) && a != b ==> (('A' <= a && a <= 'Z') || ('A' <= b && b <= 'Z')),
        'A' <= a && a <= 'Z' ==> small_ascii(a) as u32 == a as u32 + 32 && same_letter(
            a,
            small_ascii(a),
        ),
        !('A' <= a && a <= 'Z') ==> small_ascii(a) == a,
{
}

/// A file lies below the root only if its way on disk begins with that of the root,
/// but for capitals, and goes on with a step of its own; the root itself is the empty
/// path.
pub proof fn law_what_lies_below_the_root(root: Seq<char>, full: Seq<char>)
    ensures
        ({
            let t = stripped(full);
            let n = root.len() as int;
            &&& relative(root, full) is Some ==> t.len() >= n && same_but_case(t.take(n), root) && (
            t.len() > n ==> t[n] == '\\')
            &&& t.len() == n && same_but_case(t, root) ==> relative(root, full) == Some(
                Seq::<char>::empty(),
            )
            &&& t.len() > n && t[n] == '\\' && same_but_case(t.take(n), root) ==> relative(root, full) is Some
            &&& t.len() > n && t[n] != '\\' ==> relative(root, full) is None
        }),
{
    let t = stripped(full);
    if t.len() == root.len() {
        assert(t.take(t.len() as int) =~= t);
    }
}

/// A time is told to the system in steps of 100 nanoseconds since the year 1601; one
/// before the epoch counts as the epoch.
pub proof fn law_times_are_told_in_steps(t: Moment, u: Moment)
    requires
        t.secs >= 0,
    ensures
        filetime_of(t) == 116_444_736_000_000_000 + 10_000_000 * t.secs + t.nanos / 100,
        u.secs < 0 ==> filetime_of(u) == 116_444_736_000_000_000,
{
}

/// The number of an error is that of the system where it has one, and else tells a
/// missing file and a refusal from the rest.
pub proof fn law_the_number_of_an_error(raw: i32, kind: ErrorKind)
    ensures
        errno_of(Some(raw), kind) == -raw,
        errno_of(None, ErrorKind::NotFound) == -2,
        errno_of(None, ErrorKind::PermissionDenied) == -13,
        errno_of(None, ErrorKind::Other) == -5,
{
}

/// A program on a phone is told what kind of trouble there is: what has a meaning of
/// its own keeps it, trouble with the line is told as such, and the rest in words.
pub proof fn law_what_a_phone_is_told_of_an_error(e: Error)
    ensures
        phone_error(e) is InvalidCredentials <==> e is InvalidCredentials,
        phone_error(e) is NotAuthenticated <==> e is NotAuthenticated,
        phone_error(e) is PermissionDenied <==> e is PermissionDenied,
        phone_error(e) is NotFound <==> e is NotFound,
        phone_error(e) is Network <==> e is Http,
        e matches Error::Http(why) ==> phone_error(e) == (FsErrorView::Network { msg: why@ }),
        phone_error(e) matches FsErrorView::Other { msg } ==> msg == error_text(e),
{
}

/// A program on a phone is told of a file what the listing says: its name, what it
/// is, its size, and its time in milliseconds if it is not before the epoch.
pub proof fn law_what_a_phone_is_told_of_a_file(e: InfoView)
    ensures
        phone_entry(e).name == e.name,
        phone_entry(e).size == e.size,
        phone_entry(e).kind == EntryKind::Directory <==> e.kind == FileType::Directory,
        phone_entry(e).kind == EntryKind::File <==> e.kind == FileType::File,
        phone_entry(e).mtime_ms is Some <==> e.mtime is Some && e.mtime->0.secs >= 0,
        e.mtime is Some && 0 <= e.mtime->0.secs && e.mtime->0.nanos < 1_000_000_000
            && e.mtime->0.secs < 9_000_000_000_000_000 ==> phone_entry(e).mtime_ms->0 == 1000
            * e.mtime->0.secs + e.mtime->0.nanos / 1_000_000,
        phone_entry(e).mtime_ms == millis_of(e.mtime),
{
}

/// A login begins with a look at the server that was typed in, and ends at once where
/// the form was closed or nothing was typed.
pub proof fn law_how_a_login_begins(l: LoginView, accepted: bool, raw: Seq<char>)
    ensures
        accepted && trim(raw).len() > 0 ==> after_form(l, accepted, raw).1 == AskView::Probe(
            server_url(raw),
        ) && after_form(l, accepted, raw).0.url == server_url(raw),
        !accepted || trim(raw).len() == 0 ==> after_form(l, accepted, raw) == (l, AskView::End(None)),
        after_form(l, accepted, raw).0.insecure == l.insecure,
{
}

/// Trouble is told, and a window that is closed ends the login without credentials.
pub proof fn law_trouble_with_a_login_is_told(l: LoginView, why: Seq<char>)
    ensures
        after_probe(l, Some(why)) is Alert,
        after_probe(l, None) == AskView::Browse(l.url),
        after_browser(l, Err(why)) is Alert,
        after_browser(l, Ok(None)) == AskView::End(None),
        after_browser(l, Err(why)) matches AskView::Alert(text) ==> starts(text, why),
        after_probe(l, Some(why)) matches AskView::Alert(text) ==> starts(text, l.url) && text.skip(
            text.len() - why.len(),
        ) == why,
{
    if let AskView::Alert(text) = after_browser(l, Err(why)) {
        assert(text.take(why.len() as int) =~= why);
    }
    if let AskView::Alert(text) = after_probe(l, Some(why)) {
        assert(text.take(l.url.len() as int) =~= l.url);
        assert(text.skip(text.len() - why.len()) =~= why);
    }
}

/// Each entry of the menu is picked by a number of its own, and does what it says: no
/// two entries can be mistaken for each other.
pub proof fn law_the_menu_is_unmistakable(a: Item, b: Item, autostart: bool)
    ensures
        command_of(a) == command_of(b) <==> a == b,
        command_of(a) == 0 <==> a == Item::Separator,
        picked_item(a, autostart) == picked_item(b, autostart) <==> a == b,
        picked_item(a, autostart) matches Pick::Autostart { start, opt_out } ==> start == !autostart
            && opt_out == autostart,
        picked_item(Item::Quit, autostart) == Pick::Send(TrayEvent::Quit),
        picked_item(Item::Logout, autostart) == Pick::Send(TrayEvent::Logout),
        picked_item(Item::Browse, autostart) == Pick::Send(TrayEvent::Browse),
        picked_item(Item::Restart, autostart) == Pick::Send(TrayEvent::Restart),
        picked_item(Item::Login, autostart) == Pick::Prompt,
        picked_item(Item::Logs, autostart) == Pick::ShowLog,
{
}

/// A program is a file manager where one of its categories says so.
pub proof fn law_which_programs_manage_files(categories: Seq<char>, i: int)
    ensures
        !manages_files(None),
        0 <= i < split(categories, ';').len() && split(categories, ';')[i] == "FileManager"@
            ==> manages_files(Some(categories)),
        manages_files(Some(categories)) ==> exists|j: int|
            0 <= j < split(categories, ';').len() && #[trigger] split(categories, ';')[j]
                == "FileManager"@,
{
    if manages_files(Some(categories)) {
        let j = choose|j: int|
            0 <= j < split(categories, ';').len() && split(categories, ';')[j] == "FileManager"@;
        assert(split(categories, ';')[j] == "FileManager"@);
    }
}

/// The run of digits is the longest that there is, up to the number.
pub proof fn law_a_run_of_digits(s: Seq<char>, most: nat)
    ensures
        hex_run(s, most) <= most && hex_run(s, most) <= s.len(),
        forall|i: int| 0 <= i < hex_run(s, most) ==> is_hex(#[trigger] s[i]),
        hex_run(s, most) < most && hex_run(s, most) < s.len() ==> !is_hex(
            s[hex_run(s, most) as int],
        ),
    decreases most,
{
    if !(most == 0 || s.len() == 0 || !is_hex(s[0])) {
        let rest = s.skip(1);
        law_a_run_of_digits(rest, (most - 1) as nat);
        let n = hex_run(s, most);
        assert forall|i: int| 0 <= i < n implies is_hex(#[trigger] s[i]) by {
            if i > 0 {
                assert(is_hex(rest[i - 1]));
            }
        }
        if n < most && n < s.len() {
            assert(rest[n - 1] == s[n as int]);
        }
    }
}

/// In an icon for a dark panel every line is white, an area keeps its colour where it
/// is white, and is empty else; what is no colour stays as it is.
pub proof fn law_how_an_icon_is_painted(s: Seq<char>, hex: Seq<char>)
    ensures
        repainted("stroke"@, hex) == "stroke:#ffffff"@,
        hex == "ffffff"@ || hex == "FFFFFF"@ || hex == "fff"@ || hex == "FFF"@ ==> repainted(
            "fill"@,
            hex,
        ) == "fill"@ + ":#"@ + hex,
        hex.len() != 3 && hex.len() != 6 ==> repainted("fill"@, hex) == "fill:none"@,
        s.len() > 0 && colour_of(s) is None ==> painted(s) == seq![s[0]] + painted(s.skip(1)),
        colour_of(s) matches Some((what, digits)) ==> (what == "stroke"@ || what == "fill"@)
            && 3 <= digits.len() <= 6,
{
    reveal_strlit("stroke");
    reveal_strlit("fill");
    reveal_strlit("ffffff");
    reveal_strlit("FFFFFF");
    reveal_strlit("fff");
    reveal_strlit("FFF");
    assert("stroke"@.len() == 6 && "fill"@.len() == 4);
    if starts(s, "stroke:#"@) {
        law_a_run_of_digits(s.skip(8), 6);
    }
    if starts(s, "fill:#"@) {
        law_a_run_of_digits(s.skip(6), 6);
    }
}

/// The frame of an icon lies within the file, and is the one that the chosen entry
/// tells of. Bytes are read with the low one first.
pub proof fn law_a_frame_lies_within_the_file(b: Seq<u8>)
    ensures
        frame_of(b) matches Some((offset, size)) ==> {
            let at = 6 + 16 * best_entry(b, le16(b, 4));
            &&& offset + size <= b.len()
            &&& size == b[at + 8] + 0x100 * b[at + 9] + 0x1_0000 * b[at + 10] + 0x100_0000 * b[at + 11]
            &&& offset == b[at + 12] + 0x100 * b[at + 13] + 0x1_0000 * b[at + 14] + 0x100_0000 * b[at
                + 15]
        },
        b.len() < 6 || le16(b, 4) == 0 || 6 + 16 * le16(b, 4) > b.len() ==> frame_of(b) is None,
        b.len() >= 6 ==> le16(b, 4) == b[4] + 0x100 * b[5],
{
}

/// Whoever is signed in can sign out and start anew, and whoever is not can sign in;
/// both can leave. Files are opened where there is something to open them with.
pub proof fn law_what_the_menus_offer(signed_in: bool, has_manager: bool, status: Status)
    ensures
        ({
            let m = menu_of(signed_in, has_manager);
            &&& m.contains(Item::Quit)
            &&& m.contains(Item::Login) <==> !signed_in
            &&& m.contains(Item::Logout) <==> signed_in
            &&& m.contains(Item::Restart) <==> signed_in
            &&& m.contains(Item::Browse) <==> signed_in && has_manager
            &&& m.last() == Item::Quit
        }),
        ({
            let m = tray_menu_of(status);
            let out = status == Status::LoggedOut;
            &&& m.contains(Item::Quit)
            &&& m.contains(Item::Autostart)
            &&& m.contains(Item::Login) <==> out
            &&& m.contains(Item::Logout) <==> !out
            &&& m.contains(Item::Restart) <==> !out
            &&& m.contains(Item::Browse) <==> !out
            &&& m.contains(Item::Logs) <==> !out
            &&& m.last() == Item::Quit
        }),
{
    let m = menu_of(signed_in, has_manager);
    assert(m[m.len() - 1] == Item::Quit);
    if signed_in && has_manager {
        assert(m[0] == Item::Browse && m[1] == Item::Logout && m[2] == Item::Restart);
    } else if signed_in {
        assert(m[0] == Item::Logout && m[1] == Item::Restart);
    } else {
        assert(m[0] == Item::Login);
    }
    let t = tray_menu_of(status);
    assert(t[t.len() - 1] == Item::Quit);
    if status == Status::LoggedOut {
        assert(t[0] == Item::Login && t[1] == Item::Autostart);
    } else {
        assert(t[0] == Item::Browse && t[1] == Item::Logs && t[2] == Item::Autostart);
        assert(t[4] == Item::Logout && t[5] == Item::Restart);
    }
}

/// A form is submitted by its button and cancelled by the other, whatever else comes
/// with the command; any other control leaves it as it is. It is over once it is
/// not open any more.
pub proof fn law_how_a_form_ends(state: DialogState, command: u64)
    ensures
        command % 0x10000 == 1 ==> commanded(state, command) == DialogState::Submitted,
        command % 0x10000 == 2 ==> commanded(state, command) == DialogState::Cancelled,
        command % 0x10000 > 2 || command % 0x10000 == 0 ==> commanded(state, command) == state,
        outcome_of(state) is None <==> state == DialogState::Open,
        outcome_of(state) == Some(true) <==> state == DialogState::Submitted,
{
}

/// A session is found again where it has a server and a token.
pub proof fn law_which_session_is_found_again(s: Option<SessionView>)
    ensures
        recalled(s) is Some <==> s is Some && s->0.url.len() > 0 && s->0.token.len() > 0,
        recalled(s) is Some ==> recalled(s) == s,
        recalled(logged_out(s)) is None,
{
}

/// The tray tells apart how things stand: each standing has an icon and a tip of its
/// own.
pub proof fn law_the_tray_tells_how_things_stand(a: Status, b: Status)
    ensures
        icon_of(a) == icon_of(b) <==> a == b,
        tip_of(a) == tip_of(b) <==> a == b,
{
    reveal_strlit("icon-base");
    reveal_strlit("icon-ok");
    reveal_strlit("icon-sync");
    reveal_strlit("icon-error");
    assert("icon-base"@[5] == 'b' && "icon-ok"@[5] == 'o' && "icon-sync"@[5] == 's'
        && "icon-error"@[5] == 'e');
    reveal_strlit("Filestash");
    reveal_strlit("Filestash — not signed in");
    reveal_strlit("Filestash — syncing");
    reveal_strlit("Filestash — sync error");
    assert("Filestash"@.len() == 9 && "Filestash — not signed in"@.len() == 25
        && "Filestash — syncing"@.len() == 19 && "Filestash — sync error"@.len() == 22);
}

/// Each row of a conflict gives the conflict that it stands for, in order, and a row
/// that stands for none gives nothing.
pub proof fn law_conflicts_are_read_in_order(
    rows: Seq<ConflictRow<Seq<char>>>,
    row: ConflictRow<Seq<char>>,
)
    ensures
        conflicts_in(rows.push(row)) == match conflict_of(row) {
            Some(c) => conflicts_in(rows).push(c),
            None => conflicts_in(rows),
        },
        conflicts_in(Seq::empty()).len() == 0,
        conflict_of(row) matches Some(c) ==> {
            &&& c.seq == row.seq
            &&& c.at.secs == row.at
            &&& c.expected == stored_version(row.expected.0, row.expected.1)
            &&& c.found == stored_version(row.found.0, row.found.1)
            &&& c.ours is Some == row.ours is Some
        },
        row.op == "w"@ ==> conflict_of(row) is Some && conflict_of(row)->0.op == Operation::Write(
            normal(row.path),
        ),
        row.op == "rm"@ ==> conflict_of(row) is Some && conflict_of(row)->0.op == Operation::Delete(
            normal(row.path),
        ),
        row.op == "mv"@ && row.dest is Some ==> conflict_of(row) is Some && conflict_of(row)->0.op
            == Operation::Rename(normal(row.path), normal(row.dest->0)),
        row.op == "mv"@ && row.dest is None ==> conflict_of(row) is None,
{
    assert(rows.push(row).drop_last() =~= rows);
    reveal_strlit("w");
    reveal_strlit("rm");
    reveal_strlit("mv");
    assert("w"@[0] == 'w' && "rm"@[0] == 'r' && "mv"@[0] == 'm');
}

} // verus!
