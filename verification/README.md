# genemichaels_comments

Comments of Rust sources, as a source formatter needs them:

- `extract::extract_comments` finds the comments between the tokens of a source
  text. It gives them by the position of the token behind them, together with the
  tokens, without the attributes that the tokenizer makes of doc comments.
- `render::format_md` writes the Markdown of a comment anew, on lines of a given
  width behind a given prefix.

The library under `src/` is verified with Verus. What each function returns is
stated in its `ensures`; what holds of the library as a whole is stated in the
public proof functions whose names start with `law_`.

| module | holds |
|---|---|
| `text` | characters, bytes, trimming, lines, slices |
| `location` | positions |
| `comment`, `comment_laws` | the comment grammar |
| `comment_map` | comments by position |
| `tokens` | token trees, laid out flat |
| `extract`, `extract_laws` | the walk over the tokens |
| `stops`, `stop_laws`, `blank_laws` | the walk, gap by gap |
| `markdown` | documents as events |
| `line`, `line_laws` | lines, prefixes, breaking text |
| `stack` | the open parts of a document |
| `render`, `render_laws`, `prefix_laws`, `soft_laws` | whole documents |
| `page`, `kept` | what every step of writing keeps |

Tokenizing is left to `proc-macro2` and reading Markdown to `pulldown-cmark`. What
is assumed of them stands in `tokens` and `markdown`, at the functions that call
them. `app/` wraps the library in an interface with a `HashMap` and `anyhow`
errors.
