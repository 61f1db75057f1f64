# pika

Two-party evaluation of a non-linear function from a lookup table, after
the Pika protocol: a distributed point function (DPF) picks the table entry at
a secret-shared point, and a Beaver multiplication applies the sign.

The library (`src/`) is verified with Verus:

- `ring.rs` — the ring of integers modulo 2^32, with the group laws proved.
- `prg.rs` — the PRG: seeds, their expansion and conversion, and a bit
  stream, all built on AES-128 (the `aes` crate) in counter mode.
- `dpf.rs` — key generation and evaluation (single point, incremental, whole
  domain) of the point function; its correctness is proved for any group.
- `beavertuple.rs` — multiplication triples and Beaver multiplication, with
  the product of the shares proved.
- `offline_data.rs` — the offline phase: sharing the input and the mask,
  the keys, the sign and the triple, with the reconstruction proved.
- `protocol.rs` — the computing steps of the online phase.
- `input.rs` — the encoding of input integers as bits.

`app/` holds the program around it: the network link between the parties,
the files of the offline phase, the floating-point function table, and
`main`.
