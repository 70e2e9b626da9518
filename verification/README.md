# comparew

The comparison engine of a two-pane desktop compare tool, written in Verus:
texts are aligned line by line with the changed runs of each line marked,
workbooks sheet by sheet and cell by cell, and two folder or archive trees
entry by entry by the SHA-256 of their uncompressed contents.

- `src/` is the verified library. `align` aligns texts, `excel` aligns
  sheets, `folder` models trees and sets child lists side by side, `scan`
  reads archives held in memory, hashes contents as they stream in and
  turns what a folder walk found into a tree, `window` and `text` page and
  filter rows,
  and `commands` holds the stores and the folder session behind the
  commands (navigation, nested archives, reads).
- `app/` is the unverified layer around it: walking folders and reading
  files and workbooks from disk, running `java` for decompiling, and serialisable
  copies of the results.
- `tests/` exercises the library through its public API.
