# floe_web

The decision-making core of the floe web gateway, written in Verus. Verus
proves the library's functions against their contracts; the few calls into
std and outside crates (entropy, constant-time comparison, text conversion,
CRC-32) go through small trusted wrappers whose contracts are stated beside
them.

- `src/` — the verified library: bootstrap authentication and sessions
  (`auth`, `hex`), origin and cookie checks (`origin`), wire numbers and
  cursors (`wire`, `drc`), DRC request decoding (`drc_request`), panel state
  and its revision fences (`panel`, `revision`), the layer palette and its
  guest projection (`layer_catalog`, `scoped`), the at-most-once operation
  ledger (`operations`), owner requests (`service`), query anchors and
  receipts (`query`), export drafts (`exports`, `prepared`), label
  decluttering (`labels`, `geometry`), the guest view of owner replies
  (`guest`), launcher proposals (`launch`), design-default drafts
  (`defaults`), picker requests (`browse`), review transfers (`transfer`),
  rule layer isolation (`focus`), rule type filters (`metadata`), and the
  spatial tree's proxy summaries, node building, block layout, directory
  writer and reader (`tree`, with the CRC-32 checksum stated in `crc`),
  and the embedded asset table (`assets`). The public `law_*` proof
  functions state the properties that hold across calls.
- `tests/` — executable tests of the library.
- `app/` — the unverified edge: serde documents and their conversions, JSON
  renderings, and floating-point readings of wire text.
