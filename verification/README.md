# schemaform

Building blocks for projecting JSON Schema (2020-12) data schemas onto forms,
written in Verus: every function in `src/` carries a contract over a
mathematical model of its data and is proved against it.

## Layout

- `src/value.rs`, `src/number.rs`, `src/text.rs` — JSON values with number
  texts kept as written, semantic number and value equality, canonical
  integers, text helpers.
- `src/address.rs`, `src/qualification.rs` — JSON Pointers, retrieval URIs,
  schema locations, qualification errors.
- `src/limits.rs`, `src/profile.rs`, `src/json.rs`, `src/scan.rs` — input,
  compilation and form-data limits, compilation profiles, bounded checks of
  JSON sources, parse errors.
- `src/projection.rs`, `src/choices.rs`, `src/allof.rs`, `src/annotations.rs`,
  `src/unsupported.rs`, `src/locations.rs`, `src/generated.rs` — how the
  applicable subschemas of a place project: kinds, scalar choices, `allOf`
  conflicts, annotations, creation seeds, unsupported-semantics findings,
  generated-node selection.
- `src/fingerprint.rs`, `src/compiled.rs` — semantic fingerprints of JSON
  values, schemas and compiled definitions (SHA-256 over a canonical
  encoding); the compiled control, object and array definitions.
- `src/definition.rs`, `src/state.rs`, `src/engine.rs`, `src/finding.rs` —
  definition and form-state value types, edit-text parsing, findings, and
  how host findings are normalized and applied to a form's batches and
  state revision.
- `src/pointer.rs` — reading and writing JSON values through JSON Pointers:
  resolving a place, writing a value there (or adding a member under an
  object), testing whether a place's parent is an object.
- `src/form.rs` — the form state machine on a compiled definition: creating
  a form from data, locating controls (fixed and array-item), edit text and
  its parse blockers, setting and removing values, materializing and
  replacing structures, leaving controls, adding, inserting, removing and
  moving array items with stable identities, reset, reinitialization, host
  findings, and submission with its blockers.
- `src/admission.rs` — the checks a host's external-finding batch must pass
  before a form takes it: revision, incoming count, parameter and byte
  bounds, then the aggregate active count and bytes.
- `src/messages.rs` — the human-readable description of every error.
- `src/laws.rs` — properties that span several functions.
- `src/bigint.rs` — the arbitrary-precision integers behind count limits.

`app/` converts between `serde_json` values and the library's `JsonValue`,
turns `serde_json` errors into the library's syntax diagnostics, and gives
the library's parse failures `Display`.

## Not here

Compiling a data schema (and a UI schema) into a form definition is not
part of this crate: it rests on the resource graph (`$ref` resolution and
document lookup), the UI-schema model and the validator, which this crate
does not hold. What compilation computes from
(projection, findings, fingerprints, limits) is here, and a form is created
from a definition built directly. Of the form's operations, host
transactions (and whole-data replacement, which is one) are not here; the
others are.

Reading bytes as JSON (`serde_json::from_slice`) happens in `app/`: the
source checks before it and the structural checks after it are the
library's `check_form_data_source`, `form_data_from_parsed` and their
data-schema counterparts, which take the parse result as an argument.
