# iocguard

Triage of domain indicators (IOCs): each data line of a `domain,source` CSV
is normalized, checked against domain syntax rules, matched against an
allowlist, and screened with simple suspicion heuristics; the results are
counted and turned into CSV report files and a summary.

Layout:

- `src/text.rs` — strings as `Seq<char>`: trimming, line and field splitting,
  searching, and the few std calls the library makes.
- `src/domain.rs` — the record model and domain normalization.
- `src/validate.rs` — syntax rules, suspicion rules, CSV line parsing, the
  triage of a whole input, and its laws.
- `src/report.rs` — CSV escaping, report rows, CSV documents, the summary.
- `src/cli.rs` — command-line parsing.
- `app/main.rs` — the program: file I/O, printing, exit codes.
- `tests/` — scenario tests.
