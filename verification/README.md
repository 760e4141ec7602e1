# roomeq_temporal

Temporal refinement of one FIR output of a room correction, decided on saved impulse responses
and verified with Verus.

A refinement is opt-in. It subtracts a delayed copy of a filter from itself, for each delay and
strength of a grid, and keeps the candidate that shortens the tail of the room most over the
training measurements, provided that it keeps the spectrum, stays within every limit, and is
accepted by the held-out measurements as well. What is delivered is bound by SHA-256 identities
to the exported taps, to the plugins of the output that plays them and to the evidence, and a
final result whose taps or plugins no longer have these identities is refused.

## Layout

- `src/` is the verified library.
  - `temporal_fir_config`, `room`, `room_result`: settings, configuration and result.
  - `settings`, `evidence`, `intake`, `evidence_laws`, `provenance`: which configurations and
    which saved impulse responses qualify, one by one and as a set.
  - `measurement_array`, `zarr_array`, `logical_digest`, `package_reader`: reading an impulse
    response from a measurement package whose identities are checked over every array.
  - `metrics`, `spectrum`, `search`, `refinement`, `wav`: judging candidates, picking one,
    recording the decision with the final curves, writing the file that is delivered, and
    checking the final result.
  - `ieee`, `json`, `digest`, `order`, `text`, `error`: numbers as bits, documents, identities,
    stable order, text and refusals.
- `tests/` runs the library on synthetic measurements.
- `app/` fetches files, opens Zarr stores, and computes in floating point.

Work is done in steps. Each step takes what was fetched or computed, checks it, and says what
comes next: an array of a package, the package that a declaration names, a delay or a candidate
of the grid. The functions `read_orcmeasurement_impulse`, `prepared` and `decide` run all steps on
parts that were had before.

## What is trusted

JSON parsing and writing (`serde_json`), SHA-256 (`sha2`), the provenance record and its
validation (`autoeq-measurements`), and reading the header of a WAV file and writing one (`hound`)
are called through wrappers in `json`, `digest`, `provenance` and `wav`; their doc comments say
what is claimed of them.
