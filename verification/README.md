# capdag_orchestrator

A verified orchestrator for cap DAGs: it takes a plan of capabilities ("caps")
wired by media types, cuts it into a trunk, ForEach regions and what runs on
their collected output, decides how every segment is streamed through
cartridges, and assembles the terminals.

- `src/` is the library. Every decision is here: parsing and matching of URNs,
  wiring of machine strands, grouping and chaining of edges, region computation,
  the run-argument ledger, stream framing and shape audits, credits, spooling,
  the ForEach state machine, cartridge selection and integrity, and the
  single-cap command line. Each function states its behaviour in a contract
  that Verus proves.
- `app/` is the runtime around it: async plumbing, file and network I/O,
  callbacks and progress fractions. It performs what the library decides.
- `tests/` exercises the compiled library on concrete values.

CBOR decoding and encoding (`ciborium`), SHA-256 (`sha2`) and a few functions of
std stand behind trusted items; their doc comments say what is claimed of them.
