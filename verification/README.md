# crumbled

Local-first cookie behaviour discovery, explicit policy evaluation and reviewed
topology verification. The library in `src/` is verified with Verus; `app/` holds
the command-line program around it (file system, JSON interchange, output).

## Layout

- `src/text.rs`, `src/digest.rs`: byte-order string comparison, decimal and
  hexadecimal rendering, SHA-256 fingerprints and length-prefixed identity hashes.
- `src/model.rs`, `src/keyed.rs`: the domain types (cookie identities, evidence,
  findings, assessments, graphs, diagnostics) and key-ordered entries.
- `src/lexer.rs`, `src/cookie.rs`, `src/discovery.rs`: the token-aware lexer,
  `Set-Cookie` style parsing, lexical discovery of cookie behaviour, and what
  repository traversal does with each entry and in which order.
- `src/graph.rs`: the cookie graph of a set of assessments.
- `src/json.rs`: the canonical compact JSON that fingerprints and checksums cover.
- `src/policy.rs`: decision tables, policy validation, fingerprints, classification
  and assessment.
- `src/enforce.rs`: abstract enforcement plans, violations, reviewed topology locks,
  their integrity check and drift.
- `src/report.rs`, `src/cli.rs`: reports, output format names, the human format,
  command-line arguments and what each command decides.
- `tests/`: tests of the library from outside.
- `app/`: `main`, file-system access, policy and lock files, JSON, JSONL and SARIF
  output.

## Properties proved

Among others: identity hashes frame their parts unambiguously; the graph's edges
always resolve to nodes; a valid policy blocks unknown behaviour and never allows a
consent class unconditionally; a finding no reviewed rule approves is blocked; a
rule applies only to its exact identity; the policy fingerprint does not depend on
rule order; plans never claim to enforce; a new lock passes its integrity check;
no drift is reported exactly when the current topology is the approved one, and
drift is symmetric; scan results do not depend on source timestamps beyond the
evidence that records them.
