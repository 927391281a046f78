# pdf-template-core

A PDF template engine: a PDF that contains placeholders such as
`{{customer.name}}` or `{{ currency(invoice.total) }}` is filled from JSON
data, and the placeholder text is cut out of the page's content stream and
replaced by the value.

The crate is in two parts.

* `src/` is the library, verified with Verus. It holds the rules of the
  engine, each with a contract:
  * `expression`: the expression language (identifiers, members, indexing,
    string and number literals, helper calls) and its parser;
  * `json`, `evaluate`: JSON data, the text a value is written as, and
    evaluation of expressions against data with registered helper results
    and the built-in helpers `uppercase`, `lowercase`, `trim` and `currency`;
  * `detect`: placeholders in a line of text and the content-stream slices
    they occupy;
  * `template`: repeated table rows, validation diagnostics, delimiters and
    overflow modes;
  * `cmap`, `pdf_string`, `unicode`: ToUnicode CMaps and the decoding and
    encoding of PDF strings;
  * `operators`, `rewrite`: content-stream operators and the removal of
    placeholder bytes from string operands;
  * `metrics`, `text`: glyph advance rules and text helpers.
* `app/` is ordinary Rust around the library: the PDF object model through
  `lopdf`, positions and widths in floating point (text extraction, line
  clustering, layout and overflow policies), serde, the Node bindings, and
  the tools that write sample templates and run benchmarks.

Where a result needs decimal floating point (the JSON text of a number
literal, a `currency` amount) the evaluator reads it from a table and, when
it is missing, asks for it; `app/` computes it and evaluates again.
