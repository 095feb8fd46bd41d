# idea_db

An immutable, versioned idea graph, as a Verus library. Every record is
written once; revisions compose into snapshots through slots; goals,
baselines, assessments and observations judge a composition at an exact use
site; heads move by recorded events.

The library holds the logic and its proofs:

- `model`, `json`, `num`, `text`, `util`: the record model, canonical JSON,
  exact decimals, text helpers, digests and UTC instants.
- `validate`: the domain validator a package must pass before it is written.
- `graph`, `query`, `search`: composition walks and the read projections.
- `mutation`, `store`, `staging`, `ingest`, `preview`: commits, head
  derivation, staged uploads, and the upload preview as a state machine.
- `export`, `backup`: export plans and documents, and the restore replay.
- `access`, `config`, `retry`, `error`, `limits`: the rest.

Storage, HTTP and the embedding provider stay with the caller: the library
takes what they read as plain values and hands back what to write or answer.
The preview flow (`preview::preview_step`) names the next action the caller
performs and takes back what came of it.

The tests under `tests/` run the library on concrete cases.
