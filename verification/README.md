# web_browser

A toy rendering engine for a small subset of HTML and CSS, with its logic
verified by Verus.

- `src/` is the verified library:
  - `parser.rs`: a cursor over source text; positions are byte offsets.
  - `dom.rs`, `string_map.rs`: the document tree and its attribute maps.
  - `html.rs`: the HTML parser, proved against a grammar written as spec
    functions.
  - `css.rs`, `order.rs`: the CSS parser, selector specificity, and the
    stable sort by specificity.
  - `style.rs`: selector matching and the cascade.
  - `layout.rs`: the layout tree (block, inline and anonymous boxes).
  - `painting.rs`: the display list, in the order boxes are painted, and
    the canvas.
  - `describe.rs`: one-line descriptions of nodes and boxes.
- `app/` is the command-line program: it reads the files, computes the
  geometry of the boxes (block layout in `f32`), turns display commands into
  pixel rectangles, writes the PNG and prints the layout tree.
- `tests/` holds the tests of the library.
