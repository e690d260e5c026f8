# dimsafe

DimSafe is a calculation language with native units and dimensional checking, and a web
editor for it. This crate is its library, verified with Verus: the lexer, the styling of the
editor's text (token classes, selections, ghost overlays for the outputs of a run), the
reading back of the markers that the editor writes into its text, the decisions the editor
makes when its text or the result of a run changes, and the parts of the interpreter that
involve no floating-point arithmetic (scopes, operator tables, errors, outputs, locations).

Layout:

- `src/lexer.rs`: tokens of the language, and the lexer, specified character by character.
- `src/editor/`: styling (`stylization.rs`), selections (`cursor.rs`), ghost overlays
  (`overlays_location.rs`), the editor's restyling decision (`editor_pipeline.rs`), lines.
- `src/interpreter/`: syntax-tree locations and literals, errors, operators, scopes, outputs,
  parse errors, run results.
- `src/stylization.rs`: styling rendered as HTML spans.
- `src/text.rs`, `src/number.rs`: characters, UTF-8 lengths, integer parsing.
- `app/`: the web application (Leptos), its DOM work, and the interpreter's arithmetic on
  floating-point quantities and units.
