# sequencer_block

The block service of a rollup sequencer, verified with Verus.

- `src/` is the verified library: the decimal ids (`decimal`), the listing
  cursor (`cursor`), the records and responses (`models`), newest-first
  pagination (`listing`) and the lookups and listings of the block service
  (`service`), the execution-trace tables and their CSV loading (`trace`), the
  decisions of a trace-generation run (`sequencer`), and the reading of a
  prover's HTTP status (`http`).
- `app/` connects the library to the store, the trace files, the HTTP client
  and the task runtime.
- `tests/` runs the library on concrete values.
