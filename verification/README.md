# typst_diff

The verified core of a two-level diff for Typst documents: a block-level
Myers diff whose delete/insert zones are paired by text similarity, and a
word-level diff with substitution zones merged, together with the helpers
that turn the result into Typst markup and a plain-text modification log.
The decisions made over Typst's content trees (block segmentation, list-item
grouping, text-run merging, presentation keys, slot paths, text grafting,
the span pairing of children before and after realization, the route by
which each annotated node is built, the transparent fields of an element,
the old content retained for display, and the decisions of the realized
tree diff over the matched block operations) are made over plain models of
those trees, which `app/` reads from Typst content.

- `src/` is the library, written in Verus. Every public function states
  what it returns over mathematical models (`Seq`, `Set`, `Multiset`,
  exact fractions for similarity scores), and the laws of the library are
  public proof functions (`law_*`).
- `tests/` runs the library on concrete values.
- `app/` is the plain-Rust glue to Typst: realized content turned into the
  library's block and token models, serialisable identifiers, debug paths
  and recorded context results.

Calls into outside code go through a handful of trusted items: the Myers
diff of the `similar` crate, `std::path` arithmetic, `String::push`, and
the date and time validation of `typst`/`typst-pdf`.
