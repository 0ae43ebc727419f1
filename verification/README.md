# cybergraph

The verified core of a local-first cyberlink processor: the record codecs,
rules and small state machines that turn signals into a content-addressed
graph, with their behaviour stated as Verus contracts and proved.

## Layout

- `src/` — the verified library:
  - `content`, `hash`, `keys`, `wire`, `keyed`: content identity, hex keys,
    integer codecs and a small association map.
  - `api`: the in-memory processor over `bbg` state and `foculus` signal
    chains — `intend`, `seal`, `link`, `subscribe` and `query` — with what
    a signal's cyberlinks do to particles, axons, focus and balances, intent
    scopes, filters, and which subscribers each event is delivered to.
  - `application`: commits to application namespaces as two steps —
    checks, retry answers and the lookups a commit needs (`commit_step`),
    then the store's answers and the current head (`commit_write`).
  - `catalog`: the versioned name catalog — path rules, the crit-bit name
    tree (lookup, rebinding, ordered listing), its node and state records,
    and conditional changes.
  - `files`, `legacy_file`: the cursor of a part-cached file reader, and
    where a legacy append file lies and the record that pins it.
  - `native`: the native node's records (receipts, heads, blocks,
    operations, history), signal chains, the token ledger, request
    identity and retries (`accept_step`), paged reads, reopening
    (`reopen_start`, `replay_row`, `replayed_head`) and legacy import
    (`import_plan`, `import_next`).
  - `text_archive`, `radio`: text observations (`prepare_step`,
    `finish_step`) and their projection, the import of legacy JSONL sources
    (`import_source`, `source_lines`, `line_request` and the `TextImport`
    state machine, which checks every line before it publishes any), and
    part alignment for transfers.
- `tests/` — executable tests against the compiled library.
- `app/` — the unverified edge: serde records, legacy line decoding and the
  import loop that drives `TextImport`, the
  file system side of legacy file retirement, and the handlers of the
  processor's subscribers.

The main laws live beside the functions they speak of: codec round trips
(`native::laws`, `catalog::codec`), the ledger's supply laws
(`native::economics`), and the tree laws (`catalog::tree`): rebinding a
path changes exactly that path, listings come in bytewise path order, and
paging through a tree lists each entry once; an operation's encoding
is never followed by another's (`native::laws`); in `application`, retries
are idempotent, a commit missing a content is refused, and of two writers
from one head one wins; and in `api`, a signal is applied once.
