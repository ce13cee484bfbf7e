# mailcheck

`mailcheck` finds likely company email addresses from a domain and a person's
first and last name, and checks them with a raw SMTP recipient probe that stops
at `RCPT TO` (it never sends `DATA`).

The decisions of the tool form a library verified with Verus:

- `src/models/`: address patterns and their syntax, the user's overrides of the
  built-in patterns, the company registry (validation, lookup, local
  evidence), settings and result rows; `registry_laws.rs` characterises valid
  registries and proves that local changes keep them valid (for
  recording evidence: when no domain has two records).
- `src/services/`: pattern rendering, the ranking of company evidence, the
  SMTP probe dialogue and reply parsing, the verdict over several mail hosts,
  catch-all classification, the check of one person as a state machine, and
  the self-update decisions; `smtp_laws.rs` holds the laws of the dialogue.
- `src/text.rs`: string specifications and the verified helpers built on them.

`app/` is the command-line program around the library: argument parsing, the
files under `~/.mailcheck`, DNS, TCP and TLS, HTTP downloads and printing. It
carries out the actions the library's state machines ask for and hands back
what it observed.
