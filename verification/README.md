# qwen3_asr

Verified logic of a Qwen3 speech recognizer and forced aligner.

The library under `src/` holds what can be stated and proved: the key/value cache and its causal
mask, the prompts and the decoder inputs made of them, offline and incremental transcription, the
framing of audio for mel features, the tokenization of transcripts for alignment, and the repair
of predicted timestamps. Tensors are plain values: elements are the bits of their storage type,
and the library only moves them.

Numbers are computed elsewhere. A numeric runtime runs the networks, the transforms and the
tokenizer; the library tells it what to run next and takes its answers.

| Module | Content |
| --- | --- |
| `tensor` | dense tensors and the operations that move elements |
| `text_decoder`, `weights` | key/value cache, attention mask, decoder weights |
| `prompt` | tokens around the audio, decoder inputs |
| `inference`, `streaming`, `history`, `diagnostics` | transcription, offline and incremental, and what holds over all calls of a stream |
| `transcript` | repetitions and output text |
| `align`, `tokenize`, `timestamp`, `double` | forced alignment |
| `mel` | framing of audio, cached frames |
| `text`, `config`, `command`, `chunking`, `stream` | characters, configuration, command line, feeding of recorded audio, device choice |

`app/` is the program around the library: command line, files, floating-point features and the
interface of the runtime.
