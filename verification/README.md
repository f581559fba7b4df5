# shenava-asr-server

A speech-recognition server for Persian with a verified core.

`src/` is the library. Every function in it carries a contract that Verus
proves, but for the thin wrappers around outside calls, whose contracts are
stated and not proved:

- `text` – whitespace, lines, ASCII case, decimal numbers and joining
- `score`, `order` – comparing scores by their bit patterns, stable sorting and
  the selection of the highest scores
- `json`, `wav` – what `serde_json` and `hound` read
- `decode` – token labels, hotword lists and the greedy CTC decoder
- `fbank` – mirror padding, analysis frames, the fixed feature window and the
  filterbank table
- `model` – the choice of a runtime, and the reading of a model's answer
- `streaming` – overlapping feature chunks with carried caches
- `nemotron` – diarization: chunk plan, speaker cache, its compression, and
  speaker spans
- `request`, `diarize`, `transcript` – what requests ask for, who serves them
  and how answers are put together

Numbers of single precision enter the library as bit patterns or as values that
are only moved. What computes with them, runs a model or touches the network,
files and processes is in `app/`.

`tests/` runs the library on concrete values, with the outside crates linked.
