# splice-core

The decisions behind sharing one pointer, keyboard and clipboard, and files, between several
machines: where the machines stand and where the pointer crosses, who drives whom, how input
travels in datagrams that may get lost, and how files are offered, sent, checked and put in
place.

`src/` is a library whose every function is verified with Verus. It does no input or output:
it is handed what happened and says what is to be done about it.

- `geometry`, `layout`: displays, edges, and the links between machines.
- `arrange`: keeping machines beside each other, without gaps and overlaps.
- `input`, `codes`, `ledger`: keys and buttons, and what is held.
- `edge_policy`, `input_settings`, `config`: when the pointer crosses, and what is configured.
- `input_transport`: updates that make up for lost ones, acknowledgements, routes.
- `engine`: focus, crossings, claims, the shared arrangement and the clipboard.
- `files`: offers, drags, transfers, streams, receipts, recovery, and the limits on them.
- `clipboard`, `diagnostics`, `machine`, `id_map`, `text`, `bytes`: what the others build on.
- `outside`: the calls into other crates, and what is taken for granted of each.

Positions and motion are integers, in units of a 65536th of a pixel.

`app/` surrounds the library with the disk, the network, the clock and the loops that hand
events over.
