# fdrive

The core of a drive client for a Filestash server, written in Verus: the rules by which
local edits reach the server, files reach the disk, and nobody's work is lost. Every rule
is an executable function with a contract; what the rules promise together is stated as
laws (`law_...`) and proved.

## The idea

What happens to local files is recorded as operations. When things have been quiet for a
moment, the operations are folded into as few plans as possible: the whole dance by which
an editor saves a file becomes one save. Plans are stored, and replayed on the server under
leases: a plan lands only if the server still has the version that was last seen. If it has
another one, ours is uploaded beside it as a conflicted copy, and the user decides.

All of this is a set of state machines. They take what happened, or what came of the last
action, and say what to do next. They never touch a disk or a network themselves.

## Layout

| where | what |
|---|---|
| `src/text`, `path`, `table` | texts, paths below the root, sorted maps and sets of paths |
| `src/model`, `journal` | operations, plans, and how the former fold into the latter |
| `src/ledger`, `rows` | what is known of files, and how it is stored |
| `src/state`, `compact`, `settle`, `play` | the journal: recording, folding, picking, settling |
| `src/replay`, `delta`, `scheduler` | replaying plans, deltas, and what runs at a time |
| `src/fetch`, `cache`, `view`, `listing` | bringing files here, pruning, what a directory shows |
| `src/conflict`, `client` | deciding conflicts, renaming and removing directories |
| `src/upload`, `agenda` | a client without a journal |
| `src/sdk`, `config`, `args`, `app_config` | requests, replies, sessions, settings |
| `src/inodes`, `platform`, `placeholder`, `volume`, `pipe`, `ico`, `gui`, `login` | what the platforms need |
| `src/*_laws`, `durability` | what holds of all of it |
| `app/` | files, the database, HTTP and mounts around the library |
| `tests/` | scenarios and edge cases |

A few functions of other crates are trusted to do what is said of them: reading and writing
HTTP dates (`httpdate`), URLs (`url`), signatures and deltas (`fast_rsync`), digests
(`sha2`) and the search for colours in an icon (`regex`). Each stands behind a small
function with its own contract.
