# pjsekai_soundgen_core

Generates the sound-effect track of a Project SEKAI style chart hosted on a
Sonolus server: every tap, flick, trace and hold of the chart is placed as a
sound clip at its time, and the result is mixed over the music.

The library under `src/` is verified with Verus:

- `server` — which server a level id belongs to, URLs, cache keys, and the
  decompression of downloaded data (gzip, zip) through trusted wrappers.
- `sonolus` — the server's data model and lookups among a chart's entities.
- `synthesis` — tempo changes, the sounding notes and hold connectors of a
  chart, the per-clip timetable (hits sorted and deduplicated, holds merged
  into non-overlapping intervals), and the layout of the synthesis threads.
- `timeline` — ordering of single-precision times by their bit patterns,
  stable sorting, deduplication, grouping and the hold-merging sweep.
- `sound` — 16-bit PCM samples, saturating mixing, the clip tables, the
  effect package and the decoder/encoder arguments.
- `text`, `level` — string helpers and the fetched level.

`app/` is the command-line program around it: argument parsing, downloads,
the cache, ffmpeg, the beat-to-seconds conversion (single-precision
arithmetic), the synthesis threads and progress bars.
