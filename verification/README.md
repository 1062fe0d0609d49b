# Kelp

Version control built around independent edits. A commit is an atomic edit
transaction: it says what it writes and which earlier versions of those files it
replaces. Work on different files combines without taking turns; competing edits
of one file are all kept until a commit resolves them. A remote can spread one
project over storage nodes, with several copies of everything.

The rules are a Verus library under `src/`; everything in it is verified. The
program under `app/` reads and writes files, databases and the network around it.

## The library

| Modules | What they hold |
| --- | --- |
| `text`, `collections`, `encoding`, `json`, `error` | Texts in order, maps and sets of texts, hexadecimal and big-endian numbers, JSON, problems in words |
| `paths`, `portable`, `selection` | Which paths are valid, how raw names are written, collisions, parts of a project |
| `objects`, `transactions`, `graphs`, `views`, `laws` | Objects and their identities, transactions, histories, the view that a history gives, and what holds of them |
| `delta`, `codec`, `storage`, `packing`, `content`, `catalog` | Differences between byte strings, compression, loose and packed objects, large files as trees of chunks, what a store as a whole gives back |
| `transfer`, `remote`, `sync` | Batches of objects, addresses of projects, sending and fetching history |
| `index`, `workspace`, `checkout`, `history`, `recovery`, `merge`, `pins`, `git`, `commands` | A working copy: cached state, files on disk, differences, going back to saved states, merging texts, releases, imported history, output |
| `publication`, `server`, `replication` | Published revisions, requests and their answers, storage nodes, copies and failures |

Each function states in its contract what it returns; `pub proof fn`s state what
relates several of them. What the library takes from other crates (hashing,
compression, merging and comparing lines, quoting, reading URLs) stands behind
functions marked `external_body`, whose comments say what is claimed of them.

## The program

`app/main.rs` is both the command line `kelp` and, under the name `kelp-remote`,
the server. `app/models.rs` holds the library's records in the form in which they
are stored and sent.
