# gitfugue

Procedural music from git repositories: run it in any repository and get a deterministic
composition derived from the code and its history. Same input, byte-identical output (but see
below on characters outside ASCII).

`src/` is the library, written in Rust and verified with Verus. Every function has a
contract that says what it returns; the laws of the whole are proof functions beside the
functions they are about, and in `harmony.rs` and `foundation.rs` those that hold of every
piece. `app/` is the command line around it: it runs git, reads and writes files, and makes
sound. `tests/` holds the tests.

| Stage   | Modules                                                                      |
|---------|------------------------------------------------------------------------------|
| extract | `extract`, `encoding`                                                        |
| analyze | `analyze`, `syntax` (code at HEAD), `history` (commits)                      |
| compose | `compose`, `sections`, `phrases`, `motif`, `drone` (static mode)             |
|         | `compose_history`, `voices`, `theme`, `playing` (history mode)               |
| render  | `render`, `midi`, `wav`                                                      |
| around  | `settings`, `config`, `fits`, `harmony`, `foundation`                        |
| below   | `model`, `theory`, `rng`, `binary`, `sorting`, `paths`, `text`               |

The composer shapes phrases with double-precision numbers. `binary` carries them out on
integers, bit for bit, so that they do not depend on the machine. One thing can: where a Rust
or JavaScript file holds characters outside ASCII, the grammars' scanners ask the C library
which of them are letters or space, and its answer depends on the locale. The static mode
can then find other functions in such a file. History mode parses no code.

## Usage

```
gitfugue [PATH]              # history mode
gitfugue static [PATH]       # the code at HEAD is the score
gitfugue history [PATH]      # the commit history is the score

Shared flags:
  -o, --out FILE        output path; format by extension (.mid | .wav)
      --format mid|wav  when --out has no extension (default mid)
      --seed HEX        override the seed
      --scale NAME      pentatonic | minor-pentatonic | dorian | aeolian
      --bpm N           override base tempo
      --soundfont FILE  SF2 to render WAV with (none comes with the sources)
  -v, --verbose         print liner notes

Static:
      --duration SECS   target length (default 90-180, chosen by the seed)

History:
      --range A..B      commit range (default: last 300 commits)
      --full            no commit cap (one bar per K commits)
```

A `.gitfugue.toml` at the root of a repository pins its `scale` and `bpm`; flags win over it.
