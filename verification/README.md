# mail-util

A local tool that analyzes an mbsync-cached IMAP inbox, suggests folders and Sieve rules for
sorting it, and applies them by creating folders and moving mail, without losing a message
and without corrupting mbsync's sync state.

`src/` is the library, verified with Verus: every function carries its contract, and the
properties that hold of the tool as a whole are proof functions whose names begin with
`law_`. `app/` is the command line around it: arguments, files, the network, JSON and the
floating-point scores.

| module | role |
|--------|------|
| `model` | the data types and their views |
| `filename`, `uidvalidity`, `header`, `scan` | reading a cache: native `,U=` filenames, `.uidvalidity`, header fields, folders and messages |
| `suggest` | deterministic clustering (List-Id, then sender domain, then person), taxonomy reuse, slugs |
| `plan` | folders to create, messages to move, rules; checking a plan against the cache |
| `namemap` | a folder's dotpath, IMAP name and Sieve target |
| `sieve` | rendering rules and merging them into a user's script |
| `managesieve` | deploying rules: fetch, merge, put, activate; the wire format |
| `mover` | what a mover is, the dry run, and an in-memory mailbox |
| `journal` | the apply engine, its append-only journal, resuming, the no-loss checks |
| `imap` | the server-side mover, an in-memory server, `.netrc`, probing |
| `local` | the offline mover, as a sequence of file-system requests and answers |
| `reconcile` | what runs once after all moves |
| `mockcache` | synthetic caches |
| `cli` | what the read-only commands print |
| `text`, `textmap`, `number`, `order`, `seqs`, `sort`, `lowercase`, `error` | shared building blocks |

## What is proved

- Applying a plan keeps every message: the Message-IDs in all folders together are the same
  before and after, whatever stops the run (`journal::laws`).
- A run that was cut short can be resumed, and ends as an uninterrupted one would have, also
  where the journal failed between a move and its record; a repeated run changes nothing.
- Every move is announced in the journal before it is attempted.
- An offline move never loses its message, however the file system behaves: the source is
  removed only after the destination has been read back (`local::laws`).
- A server-side move does one thing, by `UID MOVE` and by the fallback alike (`imap::laws`).
- Same messages in, same clusters out, in whatever order the files are listed; no message
  counts twice, and no folder is suggested as new that exists (`scan::laws`,
  `suggest::laws`).
- A slug keeps the letters and digits of its text, in lowercase, word by word
  (`suggest::laws`).
- Only the header block of a message counts, and its fields come out clean
  (`header::laws`).
- Merging rules keeps hand-written text, replaces the tool's own block, and is idempotent;
  only the last merge counts (`sieve::laws`). A deployment uploads what a preview showed
  (`managesieve::laws`).
- Starting a ManageSieve session, nothing but the request for TLS is sent in the clear
  (`managesieve::session`).
- Filenames, folder names and `.uidvalidity` files read back as they were written.

## What is trusted

`String::push` and `String::push_str`, `str::to_lowercase`, `String::from_utf8` and
`String::from_utf8_lossy`, `Debug` of an optional text, and what `mail-parser` reads from a
header block. Each is declared beside its contract.
