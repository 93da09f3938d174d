# hifzsdk

The Sabqi -> Manzil daily Quran memorization routine, verified with Verus.

- `src/sdk.rs`: the mushaf model (`VerseRef`, `Chapter`), reading it out of
  the base JSON document, the daily lessons (`chunk_daily`) and the review
  plan (`build_plan`, `build_plan_from_days`), with the laws that tie them.
- `src/sdk/piece1.rs`: the whole mushaf read straight into one verse list.
- `src/json.rs`: the JSON model the document is read into (parsed by
  serde_json).
- `src/export.rs`: the exported `quran.json` document (the base document
  with `meta` and `hifz_plan` set) and its pretty-printed text.
- `src/text.rs`: characters, decimal numbers, trimming, lines.
- `src/studio.rs`: the decisions of the wiring studio: scanning
  `hifzsdk.swift`, connecting it, and each step of the file search.
- `app/main.rs`: the program: reading and writing files, and the axum
  wiring studio on port 8787.
