# toy-speechcli

A terminal teleprompter: a Markdown script is drawn with styled, highlighted
lines, the block with the focus stays crisp while the rest fades to gray, and
a sidebar outlines the headings.

The library under `src/` holds the logic, each function with its contract,
proved with Verus:

- `text`, `ansi`: characters, ANSI escape sequences, truncation and dimming;
- `events`: the Markdown event stream, read through `pulldown-cmark`;
- `parser`: events to blocks of styled spans;
- `highlight`: code blocks highlighted through `syntect`;
- `table`, `renderer`: blocks to styled lines and box-drawn tables;
- `markdown`: events straight to styled lines;
- `layout`, `controller`, `screen`: the panels, wrapping, focus navigation,
  the sidebar and the composition of a whole screen.

`app/main.rs` reads the script, switches the terminal to its alternate screen
with `crossterm`, draws what `screen::render_screen` composes and maps keys to
`screen::Key`.
