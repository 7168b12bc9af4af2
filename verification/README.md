# mado rules, verified

A Markdown linter's rules as a Verus library. A text is parsed with comrak into
a tree of `MdNode`s (`src/markdown.rs`), held with its lines in a `Document`
(`src/document.rs`), and each rule walks that tree and reports `Violation`s
(`src/violation.rs`):

- `rule::md004` — unordered list style (MD004)
- `rule::md007` — unordered list indentation (MD007)
- `rule::md030` — spaces after list markers (MD030)
- `rule::md034` — bare URLs (MD034, with `linkify` finding the links)
- `rule::md038` — spaces inside code spans (MD038)
- `rule::md039` — spaces inside link text (MD039)

Each rule's `check` states exactly which positions it reports, as a spec
function over the tree and the lines, and again node by node over the tree's
pre-order walk (`visits` and `flat_map` in `src/markdown.rs`), the order in
which comrak's `descendants` yields the nodes. The calls into comrak, linkify and
`std`'s `str::lines` and `HashMap` stand behind a few trusted wrappers, each
documented where it is declared. `app/` holds the serde form of the MD004 list
style that configuration files use.
