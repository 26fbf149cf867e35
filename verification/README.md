# kindlefill_core

Fills a Kindle's storage down to a target free-space window (50 to 90 MB by default), so
that the device can't download a firmware update, and removes the filler again
afterwards. Written in Verus: every function of the library carries a contract, and the
contracts are proved.

## What is proved

- **Where a fill lands.** Measuring, writing and measuring again ends inside the window,
  whatever each write costs beyond its own bytes up to half the width of the window. Below
  the window, filler is given back, and the two never alternate
  (`plan.rs`, `fill_laws.rs`).
- **What is deleted.** Only names this tool would have written, byte for byte; with the
  marker of an interrupted fill beside it, what that fill left behind; and a folder only
  once it was listed empty (`names.rs`, `listing.rs`, `fill_laws.rs`, `clean.rs`).
- **What undoes what.** On a device that does what it is asked, a fill that is made again
  keeps all filler there is and counts on from it, and a clean after a fill gives back
  every byte and leaves the root as it was (`honest.rs`).
- **What needs asking.** Emptying a folder needs the digest of the contents that were
  shown, computed again from a fresh listing (`token.rs`, `purge.rs`). A staged firmware
  image is deleted only at the root, only by its shape, and only by name (`updates.rs`).
  Nothing is written before a folder that was to be emptied is empty (`ops.rs`).
- **What stopping leaves.** The deletion of the partial object is asked for, and then that
  of the marker, unless it has to stay for what an interrupted fill left behind; the next
  fill goes on from there without writing over anything (`fill_laws.rs`).
- **What is shown.** Sizes, rates, remaining times and every message, character for
  character (`units.rs`, `rate.rs`, `meter.rs`, `report.rs`, `console.rs`). Figures are
  computed in double precision, down to the last bit (`double.rs`).

The operations are conversations. `Fill::request` says what to do on the device next,
`Fill::reply` takes the answer; `Clean`, `Purge`, `Updates` and `Bench` work alike. So the
library itself does no I/O, and what it guarantees holds whatever a device answers.

## Layout

- `src/` is the library.
- `tests/` runs it, the operations against a device held in memory.
- `app/` is the command line and the desktop commands: it opens devices over MTP or as a
  mounted volume, carries out what the library asks for, and prints what it says.

Sizes are binary: 1 GB here is 1024³ bytes.

## What is taken on trust

Four things outside the library are described rather than proved, each at its place in the
source: `bytes::Bytes` in `zeros.rs`, and `String::push`, `str::to_lowercase` and the
quoting of `{:?}` of the standard library in `text.rs`, `device.rs` and `events.rs`.
