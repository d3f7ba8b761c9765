# kimun_editor

The logic of a markdown note editor's text view, verified with Verus.

- `src/markdown/` — the whole-buffer markdown parse (`ParsedBuffer`,
  `ParsedLine`): one CommonMark pass (pulldown-cmark) split back into rows,
  which chars are content and which are sigils, the styled elements, list /
  heading / blockquote sigil extents, image placeholders, the per-row
  construct classification, lazy-block depth and reset boundaries; range
  re-parse and splice. `spanner.rs` maps logical columns to the rendered
  columns of the sigil-concealing view and back; `render.rs` splits a visual
  row into its drawn segments, each with a style class; `block_opener.rs`
  classifies block-opening line shapes.
- `src/markdown_edits.rs` — auto-surround pairs, emphasis markers, smart
  Enter and applying its decision to the rows, selection wrapping, heading
  jumps.
- `src/find_replace.rs` — smartcase find patterns (regex), match spans,
  capture-gated replacement expansion, the replace preview.
- `src/find_bar.rs` — the find bar's state and decisions: fields, focus,
  status, match count, current match, interactive replace and replace all
  with the empty-replacement confirmation. It reads the buffer's rows and
  cursor and hands back what it wants of the buffer (a search pattern, a
  search step, an edit) for the caller to perform.
- `src/indent.rs` — indenting and dedenting the rows a selection or the
  cursor covers, and where the caret lands.
- `src/editor.rs` — editor helpers: the autocomplete trigger scan, link
  building from a pasted URL, following a link or label, selection text,
  applying an autocomplete acceptance, edit measurements, and which keys
  the editor claims before the buffer's own key table.
- `src/nvim.rs` — the embedded neovim: decoding its state replies, applying
  them to the mirrored snapshot, loading a note into it, spotting the end
  of a redraw, and the key decisions (`ZZ`/`ZQ`, quit commands).
- `app/` — adapters from terminal key events, msgpack replies and screen
  rectangles, and from drawn segments to styled spans.

What the note index reports per line (wikilink spans, image links, hashtag
labels) is an input of the parse (`LineMarks`), not computed here.
