# textscan

A desk for looking through texts: it finds phrases that a text repeats, words that mix alphabets
or hold unusual symbols, and how alike two texts are. It also searches Telegram for passages of a
text, over a connection whose session is kept sealed in a database.

- `src/` is the library, verified with Verus: the analysis (`analysis`, `repeats`, `symbols`,
  `compare`, on top of `text` and `html`), sealing of sessions (`session`, `base64`), the decisions
  around Telegram (`boot`, `login`, `search`), access (`access`) and settings (`settings`,
  `numbers`).
- `tests/` runs the library on concrete values.
- `app/` is the web server around it: routes, database, the Telegram client and the terminal. It
  serves `static/index.html` at `/`.
