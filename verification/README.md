# loxam

Recovers ZIP archives that went through a transfer in text mode. Such a transfer puts a
carriage return in front of every line feed that has none, in packed data too, so that sizes,
offsets and checksums no longer fit. Some carriage returns in front of line feeds were in the
archive all along; the library finds out which, and drops the others.

## Layout

- `src/` is the library, written and proved in Verus.
  - `corrupt` is the damage; `zip_util` writes and reads archives.
  - `recover` holds the strategies and ties them together; `headers` settles carriage returns
    inside local headers, `per_file` fixes the files one by one, round after round, with the
    searches in `beam` and `keep`.
  - `candidate`, `rank`, `prune`, `sampling`, `png`, `oracle` belong to the beam search: one
    partial unpacking, the order of the beam, the cut to its width, and what is known of a
    file's contents. `follow` shows that a beam with room for every choice misses nothing.
  - `mask`, `splice`, `positions`, `bytes`, `text`, `checksum`, `unpack` are what these are
    built from.
  - `undo` states what recovery gives back of what was damaged, `natural` what it does for
    carriage returns that were in the archive all along.
  - `selftest` holds the pieces of a self-test.
- `tests/` runs the library.
- `app/` is the command line around it.

## Use

```
loxam recover broken.zip fixed.zip
loxam corrupt original.zip broken.zip
loxam test
loxam stress --runs 100 --size 500
```

`LOXAM_BEAM_WIDTH` sets the width of the beam search (2000 unless set).

## What is trusted

CRC-32, searching bytes, deflate, seeded and unseeded random numbers and the decoding of names
come from `crc32fast`, `memchr`, `miniz_oxide`, `rand` and the standard library. Each call
stands in a function of its own whose doc comment says what is claimed of it. The checksum is
defined bit by bit; what a deflate stream unpacks to and how a seeded sample falls are named
and not spelled out. Of unpacking step by step it is claimed that it gets on with bytes that
unpack in one go, and comes to the same contents.
