# donner

A conformance runner for [Ergo](https://ergoplatform.org) nodes. It reads
vector files and writes, for each entry, what the node does with it:

- **block** vectors: whether a block is valid on top of a state digest;
- **chain** vectors: difficulty retargeting and parameter voting, with the
  settings that the entry itself brings;
- **nipopow** vectors: interlinks of a chain of headers, and NiPoPoW proofs.

An entry never stops a run. A clean rejection is a verdict, a failure of the
setup is `"errored"`, and work that breaks off is `"panicked"` with a note.
What an entry expects is never read.

## Layout

- `src/` is the library, verified with [Verus](https://github.com/verus-lang/verus):
  - `text`, `json`, `hexes`: texts, JSON documents, hexadecimal;
  - `params`: the adjustable chain parameters and their tables;
  - `headers`: the JSON form of headers, normalized and read;
  - `pow`, `interlinks`, `nipopow`: header levels, interlink vectors, proofs;
  - `chain_tier`, `block`: the two tiers whose consensus work the node does;
  - `notes`, `vector`: answers to work that broke off; vector files, dispatch and
    the collected answers;
  - `avl`: the entries of the UTXO tree.
- `app/` is the program around it: files, JSON text, and the node's crates.
- `tests/` runs the library with the outside crates linked.

The library asks for the node's work instead of doing it. `run_chain_entry` and
`run_entry` say which computation comes next, with all its arguments; the reply
is handed back, and what is answered follows from the entry and the replies
alone.

## What is proved

Each function's contract fixes its result over spec functions of the module,
with one exception: the level of a header is cut from floating-point logarithms.
There the contracts say that each header's level is one that this header may
come out with, that the interlinks are those that follow from these levels, and
that a proof holds the last `k` headers and those that its passes over such
levels find among the ones before. Beside the functions that work levels out
stand others that take the levels as given, with exact contracts.

The functions named `law_*` state what holds across functions: texts and tables
read back, interlinks keep the first block and packing loses nothing, an answer
stands once it is given, a block is valid just where every check passed, every
entry of a file has an answer under its name that says how it went and that no
other entry changes, and expectations have no part in any of it. Where levels do
not vary, chains come out the same each time, and so do proofs of headers with
ids of their own.

What the outside crates do is taken as stated above each call.
