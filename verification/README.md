# handy

The verified core of a desktop dictation tool: record, transcribe, and
deliver the text into the window the user chose.

`src/` is the library, checked by Verus. Each module holds the decisions
and formats of one part of the tool, stated as contracts over mathematical
models (`Seq`, `Map`, `int`), with the laws that tie operations together
proved as public proof functions:

- `ogg`, `demux`: the Ogg/Opus container (CRC, lacing, pages, the stream
  writer, crash repair of a torn file, gluing chunks) and reading packets
  back out of it; a written stream reads back as its packets, and glued
  chunks read back chunk after chunk.
- `recording`, `vad`, `mixer`, `device`: chunked recording counters, the
  voice-activity smoother, drift correction of the system-audio leg, and
  capture-device selection.
- `pipeline`, `prompt`: take cancellation, the recording plan, chunk
  transcript assembly, the post-processing request and the clean-up of its
  answer, and how a take ends.
- `clipboard`, `input`: paste planning, clipboard custody and restore,
  direct typing plans, and the modifier-release waits.
- `jumper`: jump slots with generation-checked writes, delivery intents,
  target validation and persisted hints.
- `backup`, `models`, `translator`, `audio_feedback`, `settings`, `cli`,
  `text`: backup whitelisting and restore budgets, model selection, watched
  folders, feedback sounds, the command-line client's decisions, and string
  helpers.

Calls into outside crates (serde_json, ferrous-opencc, std's hasher)
stand behind small trusted wrappers whose contracts name what they return.

`app/` is ordinary Rust around the library: the command-line entry point,
file and network I/O, archives, audio sample processing in floating point,
the Opus codec, the loops that drive the library's step functions (direct
typing, the restore walk), and thread plumbing such as the persistence
lock.
