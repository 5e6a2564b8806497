# pdf_scrub

Converts a PDF to Markdown and anonymises the owner's name on the way:
`pdftoppm` renders the pages, a local Ollama model reads each page image,
and the owner's full name becomes `Omistaja`, the first or last name alone
`Omistaja?`.

`src/` is the verified library (Verus):

- `tags` — the `[NAME: ...]` tags the model writes: the owner becomes
  `Omistaja`, a name sharing the owner's first or last name as a whole word
  `Omistaja?`, anyone else `henkilö N` by first appearance; an unclosed tag
  is an error, and no tag is left behind.
- `anonymize` — case-insensitive replacement of the owner's name, defined on
  the characters of the text for every text; `replace_laws` proves that the
  pattern's case does not matter, that a text without the names comes back
  unchanged, and that no `[NAME:` tag is left in an anonymized text.
- `document` — joining the pages and splitting the owner's name.
- `pages` — file-name validation, source-path containment, page numbers and
  the stable numeric ordering of page images.
- `writer` — the last gate: no `[NAME:` tag may remain; the output name.
- `ollama` — the JSON request for a page and the reading of the reply.
- `secrets` — assembling the configuration read from pass, and the check
  that the source and destination directories differ.
- `paths` — the parts of `std::path` the library uses.

`app/` is the command-line program: pass, `pdftoppm`, HTTP and file I/O.
