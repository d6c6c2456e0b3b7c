# memebin

A local meme library with ranked, typo-tolerant search, written in Verus.

`src/` is the verified library:

- `text`, `sets`, `order`, `normalize` — characters, case folding, word
  splitting (CamelCase aware), string sets, and stable ordering by integer keys.
- `types`, `parse` — the searchable record and the query language
  (AND of OR-groups, phrases, negation, `tag:`/`#`, `ext:`, `fav:`/`is:fav`).
- `matcher`, `engine` — field grades (exact, word, prefix, substring, fuzzy)
  and the filter and match decisions for one item.
- `index` — the inverted index and candidate retrieval; its laws say that
  retrieval never drops an item that matches strictly.
- `synonyms`, `pipeline`, `rank` — synonym expansion, the tag catalog and tag
  suggestions, the items a search scores, result ordering, and paging.
- `storage` — meme records, trigger bindings, dedup on save, listing orders,
  merge import, and orphan repair decisions.
- `window` — how the picker window answers blur, tray, and shortcut events.

`app/` holds what is not verified: files on disk, JSON records, the
floating-point scores, and the clipboard. `tests/` exercises the library on
concrete values.
