# tagger

The engine behind a `/tag` command for an Obsidian vault: it reads a markdown
note, embeds its body with MiniLM-L6-v2, records the note in a flat-file index
(upsert keyed by a hash of the note's path) and prints the titles of the most
similar notes.

- `src/` is the verified library (Verus):
  - `text.rs`: prefixes, searching, trimming and `str::lines`, stated over `Seq<char>`;
  - `note.rs`: frontmatter splitting and title extraction;
  - `path.rs`: file stems of `/`-separated paths, the title of last resort;
  - `hashing.rs`: the path identifier (SHA-256 prefix in hex);
  - `index.rs`: manifest entries, upsert, candidate rows, score keys, ranking, top titles,
    vector-file offsets, with the laws of upsert, score keys and ranking;
  - `embed.rs`: the token window fed to the model.
- `app/main.rs` is the command line program: file I/O, the JSON manifest, the
  `f32` vector file, the candle model and the dot-product scores.
- `tests/` holds the tests of the library.
