# inner_browser

A page reader for a browser-in-a-browser: HTML is parsed with html5ever, the
document's title, plain text and links are collected, its content is turned
into readable blocks (headings, paragraphs, preformatted text, list items,
rules), and the blocks are broken into lines and laid out for painting on a
2D canvas.

The library in `src/` is verified with Verus:

- `text` — whitespace: words, collapsing, trimming, lines, decimal numbers.
- `dom` — the document tree, and its construction from html5ever's `RcDom`.
- `flow` — the blocks of a document (`extract_flow`).
- `page` — title, plain text and links of a page (`analyze_document`,
  `render_document`), with `html_escape` and `url` behind small wrappers.
- `wrap` — greedy line breaking driven by the caller's width measurements
  (`LineBreaker`): the caller measures each proposed line and answers whether
  it is too wide.
- `layout` — where each line, marker and rule goes, and the page height.

`app/` holds the WebAssembly glue: the `wasm_bindgen` exports, `fetch`, text
measurement with `measureText`, and the canvas drawing calls.
