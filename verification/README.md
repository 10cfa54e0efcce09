# meeting-scribe

Records a meeting on two tracks, the microphone and what the computer plays, and makes a
transcript with the speakers told apart, and a summary of it. The library is verified with
Verus; the programs around it are ordinary Rust.

A recorded file holds no samples for the stretches in which no packet came, so its own time
is not real time. The recorder notes every such stretch, the metadata file carries the list,
and the merger uses nothing but that list to put both tracks back on one clock.

All times in the library are integers, in nanoseconds, and samples are the bit patterns of
single-precision numbers.

| Module | What it holds |
|---|---|
| `recorder`, `recording` | what becomes of the samples of a track, chunk by chunk and as a whole |
| `gaps`, `restore` | the gaps of a recording, and how close they bring its sound to real time |
| `stream`, `devices` | opening a stream, counting what it delivers, choosing a device |
| `sample` | comparing and quantising samples |
| `meta`, `report`, `names` | the metadata file, the report at the end, the names of files |
| `wav` | repairing the header of a file that was cut off |
| `timeline` | from the time in a file to real time |
| `track`, `transcript`, `merge` | reading a track, arranging what was said, the transcript |
| `summary`, `args` | what is sent to the summariser, the command lines |
| `json`, `notation` | JSON documents, read by `serde_json`, and how they are written |
| `decimal`, `numeral`, `sum`, `text`, `order` | numbers, strings and stable sorting |

The program takes `capture`, `merge` or `summarize` as its first argument. The command that
summarises is named by the variable `MEETING_SCRIBE_SUMMARIZER`.
