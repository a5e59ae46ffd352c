# ccusage_pi

Verified usage-log logic of the pi agent adapter and of the cross-agent
report rows.

- `src/` is the library, verified with Verus:
  - `pi`: keeps the first copy of each record read from pi session files
    and orders the records stably by timestamp;
  - `breakdown`: groups per-model breakdowns by model name;
  - `provider`: regroups a row's agent breakdowns by provider and merges
    breakdown rows;
  - `rows`, `strset`, `text`: provider keys, model-name prefixes, ordered
    sets of names, summary totals and report sections.
- `app/` finds and reads session files, and keeps the `f64` costs and JSON
  metadata of report rows, asking the library for every grouping decision.
- `tests/` runs the library on concrete inputs.
