# cookie_manager

Per-domain cookie storage for a desktop downloader, written in Verus.

* `src/` — the verified library:
  * `platform` — domain → root domain → platform kind;
  * `layout` — the on-disk layout (`cookies/<root>/<slug>.txt`, `_meta.json`,
    `_trash/`) as component sequences, and the safe directory/file names;
  * `netscape` — Netscape cookie lines and account files;
  * `alias` — default account aliases and their approximate dates;
  * `registry` — the `_meta.json` registry as a map from root domain to bucket;
  * `ingest` — grouping a captured batch by root domain and the registry update;
  * `accounts` — renaming and removing accounts;
  * `text` — character-level helpers (decimal numbers, string order).
* `app/` — the file-system side: reading/writing the files, the clock, and the
  JSON form of the registry (serde), calling the library for every decision.
* `tests/` — runtime tests of the library.
