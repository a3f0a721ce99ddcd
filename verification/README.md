# FT8 Skimmer

A receive-only FT8 band monitor: multi-decode, cross-period soft-LLR
accumulation, a vertical-spectrum band-activity view, and PSK Reporter
spotting. Its logic is a library verified with Verus; the application around
it captures sound, runs the decoding engine, talks to the database and the
network, and paints.

## The library (`src/`)

| module        | what it does                                                        |
|---------------|---------------------------------------------------------------------|
| `time`        | UTC instants and the 15 s period grid, over `chrono`                |
| `slot`        | frames 12 kHz samples into UTC-aligned 15 s slots                   |
| `pipeline`    | cuts one sample stream into FFT windows and slots on one clock      |
| `dsp`         | decimation, linear resampling, FFT framing                          |
| `audio`       | picks an input configuration, down-mixes frames                     |
| `accumulate`  | follows signals across periods and sums their LLR vectors           |
| `mshv`        | soft-decision decoding: evidence per candidate, accumulated decodes |
| `decoder`     | decodes, the decoder trait, spectral peaks                          |
| `cycle`       | what happens to a slot: decode, store, accumulate, link, report     |
| `store`       | rows of the capture database                                        |
| `backfill`    | repairs stored `decoded` flags                                      |
| `pskreporter` | who sent what, the spot queue, IPFIX datagrams                      |
| `skimmer`     | stripes of the band-activity view                                   |
| `tracks`      | one track per station, one label per track                          |
| `view`        | waterfall rows, slot markers, decode log and table                  |
| `order`       | order keys and rank statistics                                      |
| `text`, `seqs`| words, ASCII case, decimal numbers; sequence copying                |

Samples, magnitudes and LLRs are type parameters: the library moves and
arranges them but does not compute with them. The arithmetic that a rule needs
(how far two frequencies lie apart, how two magnitudes add) is handed in as a
function, and contracts say what is done with whatever it returns.

Contracts are stated over mathematical states: each stateful type has a view,
and its methods say how the view changes. Public proof functions state what
holds across calls: that chunking makes no difference to slots, FFT windows,
decimated samples or, where read positions are exact, resampled ones; that
waterfall columns and slots keep in step; that free text names no sender and a
sign-off is no locator; that the two slot sequences never mix in a track; that
a decode is linked to exactly the periods behind it; that a station is queued
once; that what is stored reads back.

Two things are believed without proof: what a few functions of `chrono` do
(in `time`), and that `String::push` appends a character (in `text`).

## The application (`app/`)

The `gui` feature adds the window (eframe) and the sound card (cpal); without
it the rest still type-checks. The `mshv` feature links MSHV's FT8 decoder
through its C shim; without it a stub reports spectral peaks. Under the name
`ft8mon-backfill` the program recomputes the `periods.decoded` flag of a
capture database.

With "Capture soft" enabled, every decode and every period's soft-LLR evidence
is written to `~/.ft8mon/ft8mon.db` (SQLite, WAL mode, queryable live).

Receive only: there is no transmit capability.

## Licence

GPL-3.0. The FT8 decoder links MSHV, which is GPL-licensed.
