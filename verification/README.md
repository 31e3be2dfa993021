# codex-mem9

Syncs Codex memory markdown (`~/.codex/memories`) into the Mem9 service,
redacting sensitive text first and remembering what was already stored.

The rules are a Verus-verified library; the program around them is plain
Rust.

- `src/` — the verified library (`codex_mem9`):
  - `config`: the runtime configuration from environment values, the
    `[codex_mem9]` table of the Codex config file, and the top-level keys
    of the service config file
    (`~/Library/Application Support/ai.dmego.codex-mem9/config.toml`);
  - `importer`: memory items read from markdown, their sources and
    fingerprints, the migration of fingerprints recorded by earlier
    releases, and the per-item decisions of a sync run;
  - `redact`: the redaction of memory text;
  - `state`: the bounded, insertion-ordered record of stored fingerprints
    and where it lives on disk;
  - `mem9`: the store endpoint, the API-key header check, and how
    rejections are reported;
  - `fingerprint`, `fingerprint_set`, `paths`, `text`: SHA-256 hex
    fingerprints, the `IndexSet` of fingerprints, path text and string
    helpers.
- `app/` — the `codex-mem9` command: environment and file I/O, the HTTP
  client, the state file lock, and the `sync` / `watch` loops.
- `tests/` — tests of the library.
