# omninote

The text-processing core of the OmniNote note-taking app, written in Verus:
the functions in `src/` carry contracts that the verifier proves. The few
that call std or an outside crate (`chrono`'s calendar, `fuzzy-matcher`'s
scoring, `egui`'s modifier matching, Unicode case mapping, `String::push`,
the clock) are marked
`#[verifier::external_body]`: their contracts are trusted, and the doc
comment above each says what it claims.

- `text`, `offsets` — character sequences, trimming, lines, UTF-8 byte offsets
  and character-boundary snapping.
- `discipline`, `diary` — typed views of the discipline files: sprint tasks,
  human questions, merged Notion/Jira tickets, diary days and labels.
- `editor`, `menu`, `sheet` — markdown formatting actions at a byte
  selection, the slash-menu trigger, copy/select-all over byte selections.
- `palette` — the command set and the fuzzy ranking of palette items.
- `outline`, `breadcrumb`, `tabs`, `timeline`, `calendar`, `a11y`, `toasts`,
  `theme`, `app_state`, `sync`, `sidebar`, `shortcuts`, `import`, `mcp` — the
  smaller rules of the app: the sidebar's search and type filter, keyboard
  shortcuts, outline headings, breadcrumbs and read/edit mode, tab titles, change
  glyphs, month grids, accessible labels, theme toggling, overlays, the
  conflict-safe flush/switch/reload decisions, imported titles, and the MCP
  tool helpers.

Laws that span functions are public proof functions named `law_*`.

`app/main.rs` is a small command-line front end that reads files and prints
the views the library computes; `tests/` exercises the library on concrete
values.
