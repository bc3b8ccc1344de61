# md_html

A small Markdown-to-HTML converter, verified with Verus.

The converter reads a document line by line. Each line is handled by the
function of the mode the converter is in (between blocks, in a list, in
a code block, in a formula, in a quote or in a table); the function appends
the HTML for the line and returns the next mode. Inline markup (images,
links, emphasis, code spans) is rewritten with regular expressions of the
`regex` crate.

- `src/text.rs`: characters, trimming, prefixes, splitting, lines, decimal
  numerals, escaping of `<`, and their laws.
- `src/inline.rs`: the `regex` crate behind trusted items, the compiled
  patterns, and `parse_text`.
- `src/markdown.rs`: the modes, one function per mode, the whole document
  (`md_to_html`), the specification of each step and of a whole run, and
  the laws of the state machine.
- `app/main.rs`: the command-line program: reads the file, writes the page
  next to it, opens it in Microsoft Edge and removes it again.
