# bisque

Audio processors with proved contracts: filters, dynamics, mastering tools, meters,
generators, repair, and spectral processing, in Rust with
[Verus](https://github.com/verus-lang/verus).

Every processor follows one processing contract. The library splits blocks on a fixed
32-frame control grid, latches and smooths parameter events, accounts for memory before
it allocates, drains latency and tails, and treats non-finite samples as silence. The
functions carry contracts, which Verus proves; what relates several calls is stated in
public proof functions beside them.

## Layout

| Path | What it holds |
| --- | --- |
| `src/contract` | Blocks, contexts, parameters, errors, and the traits of processors and meters |
| `src/dsp` | The block driver, parameter smoothing, memory accounting, and shared building blocks |
| `src/filters`, `src/dynamics`, `src/mastering`, `src/repair`, `src/generators` | Processors |
| `src/analysis` | Meters |
| `src/spectral` | Windows, transforms, and a streaming band filter |
| `src/host.rs` | A helper that prepares and drives one processor |
| `src/testing` | Support for contract tests and snapshots |
| `tests` | Tests on double-precision numbers |
| `app` | Machine floats, a fast transform, and a harness around the library |

## Numbers

Contracts do not depend on how numbers are rounded. Processors compute over any type that
implements `number::Real`, and samples are stored in any type that implements
`number::Sample`. `fixed::Fixed` is a fixed-point implementation inside the library; `app`
implements both traits for machine floats.

A processor's contract gives its output as an expression over the operations of `Real`, in
the order in which they are evaluated. Two runs on equal input and events therefore give
bit-identical output, however a host divides the stream into blocks:
`dsp::schedule::block_division_does_not_show` is the theorem for two adjacent blocks, and
`testing::block_size::block_sizes_do_not_show` the one for whole streams in blocks of any
sizes.

## What is proved

- The driver renders every frame with the parameter values of the control grid, whatever
  the block sizes are, and a target takes effect at the first grid boundary at or after its
  stamp (`dsp::schedule`). Its calls of a kernel lie end to end over the block, each within
  one cell of the grid (`dsp::schedule::runs_tile_the_block`).
- Equal kernels prepared with one setting give equal processors, and these stay equal under
  equal use. A reset returns a processor to the state after `prepare`, so that it goes on as
  a fresh one does (`dsp::lifecycle`).
- Latency, tail, footprint and parameter metadata stay as `prepare` left them under
  everything a host does afterwards (`contract::traits::Standing`), and what the methods
  answer is that (`dsp::lifecycle::answers_stay_under_use`).
- `prepare` answers with the first fault of its settings, or with the exact byte count that
  exceeds a memory cap. A failed `prepare` of a wrapped kernel keeps the parameter values
  that were there.
- A drain never writes more than it was given room for, and the drain of every processor
  with a tail delivers no more than it declared, however many calls it takes. Driven until
  it is done, the drain of a moving average, a limiter or a spectral filter delivers exactly
  that many frames.
- A moving average, rendered and drained, is one convolution of its input; where sums are
  exact, its output is the exact sum of the last inputs times the tap weight.
- What a source hands out over any sequence of pulls joins to the data it holds, and a
  rewound source plays as a fresh one (`contract::source`).
- Ramps arrive after the updates they were given and never leave the declared range.
- The limiter's windowed minima are at most the gain reported for any frame in the window.
  On fixed-point numbers, with attack weights that sum to at most one, the gain applied to a
  frame is at most the gain reported for it.
- Channels of one generator mix different values into their seeds.
- Meters do not show how a signal was divided into blocks, and a reset undoes what they
  took in.
