# hidden_volume

The logic of one space of a deniable container, with its behaviour stated in
contracts and proved by Verus.

A container is a file of equal slots. A space sees the slots that open under
its keys; everything else is noise to it. In its slots a space keeps

- superblocks, each naming the commit record of one publish,
- commit records, each naming the root of every namespace,
- B+ trees whose nodes end where their contents say, so that a tree has one
  shape however its contents were written,
- compressed batches of log records, and
- checkpoint chains, which list the slots owned and the slots free for reuse.

| Module | What it holds |
|---|---|
| `bytes`, `codec`, `seqs` | byte orders, parsing and printing, sequences |
| `chunk`, `container`, `rng` | what a slot opens to, the open file, random words |
| `tx` | transactions and the commit record |
| `space::index`, `space::model` | nodes, and what a tree of them is |
| `space::cutting` | where a sequence of items is cut into nodes |
| `space::tree`, `space::cursor`, `space::update` | building and updating trees |
| `space::reads`, `space::log`, `space::log_iter` | reading entries and records |
| `space::commit`, `space::lifecycle`, `space::stats` | committing, starting, erasing, counting |
| `space::pool`, `space::slots`, `space::walk` | slots free, slots owned, guarded walks |
| `space::vacuum`, `space::checkpoint`, `space::chain` | cleaning up, checkpoints |
| `space::integrity`, `space::pairs` | checking a whole space |
| `space::sound`, `space::laws`, `space::vacuum_laws`, `space::verify_laws` | what holds across calls |
| `space::shape_laws` | one shape, and how deep it can be |
| `space::order_laws`, `space::whole_laws` | what every operation keeps, and what is read back |
| `space::ns_laws`, `space::page_laws`, `space::read_laws` | one sound namespace, pages of a log, reads across a clean-up |

An open file carries, for the proofs alone, the image that a crash leaves:
what the last flush made durable. What a commit or a checkpoint leaves behind is
stated of both images.

Hashing is `blake3`, compression is `zstd`, byte order is `byteorder`, and
memory is cleared by `zeroize`; each call stands behind a small function whose
contract says what is relied on. `app/` holds what is outside the proofs.
