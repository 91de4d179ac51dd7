# still_core

The core of an audio mastering workstation: a session of time-synchronized
audio layers, track regions over them, insert chains, album metadata, and
the deliverables made from it (one file per track or per layer, a Red Book
CD image with its cue sheet, a DDP 2.00 fileset).

Everything that decides something is a Verus-verified library under `src/`,
each public function with a contract stating its result:

- `project`, `tracks`, `chains`, `sessions`, `album`: the session model,
  region editing with undo/redo, per-track layer overrides, insert chains,
  growing a session with clips, takes and layers, the album program.
- `timeline`, `scanning`, `playlist`, `render`, `peaks`, `silence`: clips on
  the timeline, scan bookkeeping, playback planning and block scheduling,
  peak display queries, silence-based track detection.
- `plan`, `export`, `naming`, `metadata`, `loudness`: export planning (file
  names, collisions, tags), encoder command lines, the CD program and cue
  sheet, the loudness analysis command and its summary.
- `ddp`, `cdtext`, `riff`: the DDP fileset (image, descriptors, PQ data,
  checksums), CD-Text, and the WAV bytes of the CD image.
- `legacy`, `presets`, `record`, `scan`, `stream`, `vst3`, `plugins`: earlier
  project formats, chain presets, recording bookkeeping, the plugin
  registry, state streams and component ids.

`app/` is the input/output around it: JSON files, audio decoding and
probing, running ffmpeg, writing takes. `tests/` exercises the library.
