# shotsort

In-card photo and video organizer. It moves media out of a camera card's
`DCIM/` into readable, capture-date folders on the same card, using atomic
renames, with a preview, a journal and an `undo`.

```
<card>/DCIM/100MSDCF/DSC00001.ARW   ->   <card>/Organized/2026/2026-06-20/DSC00001.ARW
```

The decisions are verified with [Verus](https://github.com/verus-lang/verus).
Nothing in the library touches a disk: where it has to know something of the
disk, or wants something done, it asks, and the program around it answers.

## Layout

- `src/` is the library, every item of it verified.
  - `cli`, `config`: the options, and how the command line, the config file and
    the defaults make up a run's configuration.
  - `text`, `paths`, `clock`, `order`, `types`, `util`: text, paths, times,
    stable sorting, the shared types, sizes and digests.
  - `filetype`, `guard`, `scan`: what is media, which destinations are refused,
    and which directories and files a scan takes.
  - `datesrc`: capture times from EXIF and from movie headers.
  - `template`, `series`, `plan`, `target`: names and the numbers in them,
    groups of files that belong to one shot, their dates, numbers and places.
    `plan_laws` holds what every plan keeps.
  - `engine`, `run`, `journal`, `undo`: the transfer of one file, the decisions
    of a run, the journal, and rolling a run back.
  - `report`: the preview, the summary and the manifest.
  - `pixcake`, `matchcmd`: finding a PixCake project's kept photos and pairing
    them with their RAW files.
- `app/` is the program: argument parsing, file and database access, JSON and
  TOML, and the loops that carry out what the library asks for.
- `tests/` runs the library, whole runs against a card held in memory included.

## What is proved

Contracts are stated over sequences of characters, components of paths and
file systems as maps from paths to bytes. The functions named `law_...` relate
several of them. Among other things:

- no transfer loses a file: however far it has come and wherever it is cut
  short, the content is at its source or its destination. A rename, a copy and
  a link keep the very bytes; once a move across filesystems has removed its
  source, the copy is known by its BLAKE3 digest;
- a run that copies or links touches nothing outside the destination, so every
  source keeps its bytes;
- undoing a run whose transfers went to free places restores the file system,
  counts each of them as restored and records their reverses, last one first;
- a journal gives back what was appended to it, as far as a line read as JSON
  gives back the entry that it was written from;
- every selected file is planned exactly once, and no two transfers share a
  target up to case, but for those that overwrite and for the name tried last,
  when all numbered ones are taken;
- `{counter}` numbers go on behind those that the name template has given in a
  folder, and begin at 0 where it has given none;
- no target leaves a destination in normal form, `..` in it resolved, and no
  accepted destination lies in `DCIM` or a camera-managed directory;
- which files of a whole tree a scan takes: it enters neither the destination
  nor, in photo mode, a camera-managed directory;
- relative links lead to their files and outlive a renamed card.

What is taken on trust is what the outside crates return: EXIF attributes,
calendar arithmetic and time zones, and BLAKE3 digests. Each such call stands
in a small function with a comment that says what is believed of it.
