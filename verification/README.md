# zubolite

A small wiki. `src/` is the verified library (Verus): it decodes base-62 page
ids, escapes HTML, converts the wiki markup of a page into HTML (headings with
a table of contents, rules, `[label]` links, `(address)` targets, `!` images)
and makes the decisions of the web handlers. `app/` is the web server around
it (actix-web, SQLite through r2d2, HTML templates).

Modules of `src/`:

- `base62` — page-id decoding and its laws (bound, injectivity, trailing
  zero digit, decoding of the four-digit encoding).
- `escape` — HTML escaping and its laws (no markup chars left, plain text
  unchanged, injectivity, concatenation, decoding back by five replacements).
- `links`, `urls` — scanners for the `[label]` and `(address)` markup.
- `urlenc` — percent-encoding through the `urlencoding` crate.
- `line` — one line of markup to HTML; laws on reassembling a line and on
  plain lines.
- `lines` — splitting a text into lines; laws on joining texts, a final
  line feed and CRLF line ends.
- `wtml` — a page of markup to HTML; laws on the table of contents, CRLF
  line ends, a final line feed and joining pages without numbered headings.
- `page` — what the handlers decide: page names, bodies, forms, actions,
  redirect addresses, the session cookie.
- `text` — char and string helpers.
