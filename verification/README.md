# OpenChoice

Which open LLM runs on which machine, at which quantization, how fast, and with
how much context: answered by arithmetic over a table, and proved with Verus.

The library (`src/`) is verified: every function carries a contract, and what
holds of several functions together is stated in proof functions whose names
begin with `law_`. `app/` is ordinary Rust around it that reads files, asks the
system what it is, and prints. `tests/` run the compiled library.

## Modules

| Module | Holds |
|---|---|
| `rounding`, `float` | binary floating point on integers: rounding to nearest, `Single`, `Double`, how results are ordered and how near they keep |
| `text`, `numeral` | bytes as text, numbers as digits |
| `quant`, `hardware` | weight and cache formats; machines and the table of accelerators |
| `catalog` | the `.ocb` format, read in place; names of the same weights |
| `fit`, `speed`, `score` | memory and verdict, throughput, scores |
| `recommend` | one model, or the best of a catalog |
| `report`, `console`, `line` | the device console, in fixed buffers |
| `sort`, `pack`, `packer` | choosing models and packing a catalog |
| `community` | benchmark submissions: names, machines, medians, factors |
| `page`, `cli`, `detect` | the desktop command line and the machine at hand |

The engine computes in IEEE single precision, the packer in double. Neither
`f32` nor `f64` occurs in the library: the numbers are bit patterns, and the
operations are integer code that is proved to give the nearest representable
result, ties to even. Tests hold them against the processor's.

## What is trusted

One function: `core::str::from_utf8`, in `text::utf8`, is taken to return the
string of its bytes exactly when they are well-formed UTF-8.

## Using it

```sh
openchoice catalog build -i models.json -o catalog/openchoice.ocb
openchoice system
openchoice recommend --gpu "RTX 4090" --vram 24576 --ram 65536
openchoice fit qwen2.5-coder-7b
openchoice repl catalog/openchoice.ocb
```
