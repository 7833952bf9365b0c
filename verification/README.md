# mdp

A small Markdown to HTML converter whose behaviour is stated in contracts and
proved.

Supported: headings (`#`, `##`, `###`), paragraphs (one per line), unordered
lists (`- item`), ordered lists (`1. item`), block quotes (`> quote`), fenced
code blocks (a line of exactly three backticks; an unterminated fence runs to
the end), inline code, emphasis (`*em*`), strong emphasis (`**strong**`) and
links (`[text](url)`). Text is escaped for HTML; link urls are escaped for an
attribute.

Layout:

- `src/lib.rs`: `parse` (block parser, then inline parser, then renderer)
  and laws about the whole document.
- `src/block.rs`: line splitting, `BlockNode` and the block parser.
- `src/inline.rs`: the inline tokenizer, inline code spans, `InlineNode` and
  the inline parser.
- `src/renderer.rs`: HTML escaping and the rendering of inline nodes and
  blocks.
- `src/text.rs`: searching and prefix tests on character sequences, and
  conversions between strings and characters.
- `app/main.rs`: the command line program (reads a file or standard input,
  prints the HTML).
- `tests/`: tests of the library.
