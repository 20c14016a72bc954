# dagcmp

Directory tree compare and sync. Two trees are scanned, matched by name without
regard to case, and compared by size and modification time; what one side lacks
or has in an older version can be copied over. Nothing is ever deleted, and a
newer file is never overwritten.

The library under `src/` is written in Verus: its functions carry contracts on
what they return and change, and the contracts are proved. The program under `app/` is ordinary Rust
around it: the command line, the desktop application, and the file system.

## The library

| Module | Holds |
|---|---|
| `text` | strings as sequences of characters: lower case, order, search, decimal numbers |
| `model` | file metadata, nodes, the children of a directory, insertion by path |
| `compare` | merging two trees into a diff tree with a status for every file |
| `display_order` | directories first, then by lower-cased name; a stable sort |
| `sync` | planning a one-way sync, and the books of carrying it out |
| `scan` | what a scan is asked for and gives back, and how it goes on from step to step |
| `scan::walk` | the tree out of a directory traversal |
| `scan::mft` | the trees out of one pass over a volume's Master File Table |
| `scan::fixup` | the update sequence array of NTFS file records |
| `scan::volume` | aligned, buffered reading of a raw volume |
| `report` | what the command line prints |
| `window` | what the window shows |

Every data type has a model made of sequences, numbers and the like, and the
contracts speak of the models. What holds of several functions together stands
in the `*_laws` modules and in `sync_effect`, among it:

- a diff shows every file of both trees, with the metadata that each side has
  and the status that follows from it, and counts each of them once;
- exchanging the sides of a comparison mirrors the diff, node by node, and a
  tree equals itself;
- a plan copies exactly the files that are missing on the destination side or
  more than two seconds older there, and creates exactly the directories that
  are missing there;
- once a plan is carried out without an error, the next one in the same
  direction is empty, provided that no path is a file on one side and a
  directory on the other;
- entries may be inserted in any order, a directory after what it holds, and
  both scanners build the same tree;
- the counts of a diff tell the files of each side, and the totals of a tree
  follow every insertion;
- the fixup gives back a file record as it was before it was written to disk,
  and refuses a torn one.

Three calls are believed rather than proved: `str::to_lowercase`,
`char::to_string`, and chrono's formatting of a moment in the machine's time
zone. Each stands behind a small function whose comment says what is claimed.

## The program

`app/` builds `dagcmp` with the commands `scan`, `compare` and `sync`; started
as `dagcmp-gui` it opens the window. On Windows it reads the Master File Table
of local NTFS volumes through the `ntfs-reader` crate, which has to be added to
the dependencies there; everywhere else it walks the directories.
