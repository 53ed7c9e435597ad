# ce-fleet

Own a mesh of devices: discover nodes, pair two devices by mutual consent, keep the issued
capabilities in a wallet, and roll up what the mesh reports of a subtree.

- `src/` is the library, `ce_fleet`: what is decided and computed, with contracts that Verus proves.
  - `proto`: the messages of pairing.
  - `daemon`: the answering side. Requests are checked, parked, decided and answered.
  - `pair`: the asking side. The request, and what the answer leads to.
  - `wallet`: the capabilities held, by alias.
  - `rollup`: one view for each node, and counters over all of them.
  - `cli`: reading lifetimes and targets, and the text that the commands print.
  - `util`, `text`: node ids, labels, the time, plain text.
- `tests/` runs the library.
- `app/` is the program: arguments, files, the mesh client, the local web interface.
