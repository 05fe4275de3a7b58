# blink

A B-link tree from byte-string keys to byte-string values, written and verified
in Verus.

A page that has grown too large is split in two steps: its upper part goes to a
new page that is linked from the old one, and then the page above gets a pointer
to the new page. Between the two steps every record can still be found, through
the link. Changes to a page go into an append-only log, and only if the page is
still in the state that the change was computed from.

- `src/key.rs`, `src/bound.rs`: keys and the bounds of key ranges, and their order
- `src/data.rs`, `src/node.rs`: the entries and the content of a page
- `src/frag.rs`, `src/pages.rs`: changes to pages, and the page table
- `src/layout.rs`: how the pages of a tree are linked, and what keeps it so
- `src/splits.rs`: what splits do to the page table
- `src/tree.rs`: search, updates and splits
- `src/text.rs`: pages as text
- `src/laws.rs`: what holds of the operations together
- `app/`: a handle to a tree that threads can share
