# ammeter

A line-powered AC ammeter built around an MSPM0G3507, and the bench tools that
calibrate it. The logic is a library written in Verus: every function in `src/`
carries a contract, and the laws that tie them together are proved beside them.

## The library, `src/`

| Module | What it holds |
| --- | --- |
| `range` | the gain ladder: bias, headroom, which range fits, when to change it |
| `sampler` | the sample clock's numbers, and waits that end |
| `meter` | one measurement cycle, stage by stage, and what a reading is worth |
| `dsp` | the integer side of a frame, and the spread of recent readings |
| `real32` | `f32` numbers by their bit patterns: their order, their kinds |
| `cal` | calibration tables: built-in, pushed, looked up |
| `nvcal` | the flash records a pushed table survives power loss in |
| `link` | the serial protocol: commands in, frames out |
| `exchange` | what the two ends of that protocol understand of each other |
| `supply`, `ui`, `oled`, `btcfg`, `rails` | the supply monitor, the panel and its bus, the radio's setup, the rail survey |
| `callog` | the calibration logger: frames, rows, the run |
| `dmm`, `scope`, `usbtmc` | the bench instruments and their transport |
| `text` | strings, as all of these need them |

Real numbers stay bit patterns here: comparing them is proved, computing with
them is left to `app/`.

A few functions call outside code, and their contracts are taken on trust:
`heapless::String` in `link`, `image` in `scope`, and the standard library's
`String::push`, `String::from_utf8_lossy` and `str::to_uppercase` in `text`.
Each says what it claims.

## The programs, `app/`

`app/main.rs` is the bench command line: scope screenshots and waveforms, the
list of instruments and radios, and `cal-log`, which drives the meter and pairs
every reading with the multimeter's.

`app/firmware/` holds what runs on the board, on top of `embassy-mspm0`:
`main.rs` is the meter, `stream.rs` measures without being asked, `btcfg.rs`
sets the radio's serial rate, `oparails.rs` surveys the amplifier's rails. They
allocate from the heap in `heap.rs`.

## The tests, `tests/`

One file per part of the instrument. They run the library as a caller sees it,
with the outside crates linked.
