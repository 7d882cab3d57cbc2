# wjs

The core of a small JavaScript engine, verified with Verus.

- `gc`: a heap of 64 KiB pages, each aligned to its size. Objects are
  bump-allocated one after another, each behind a header that records its
  compact type id and the layout of its value. Pages link to the page
  allocated before them; a heap is walked newest page first, and a page
  header by header. Pointers are typed casts of header addresses, checked
  against the header's type id.
- `value`: value words that hold either a small integer, shifted left, or a
  heap pointer with its lowest bit set.
- `compiler`: parses a script with swc and compiles its top-level function
  declarations, stopping at the first statement it does not handle yet.

`app/` holds the program that compiles a sample script and the virtual
machine, whose root is a floating-point number.
