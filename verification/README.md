# vulcano

A generational arena, a circuit representation in linear SSA form with its
analyses, a netlist builder, and the parameter sets of the DGHV homomorphic
encryption scheme, written in Verus with their behaviour stated as contracts
and proved.

Layout:

- `src/arena`: the generational arena (`Arena`, `Key`) and its laws: a value
  stored is read back under its key, removing it undoes the insertion, and a
  key whose value was removed never becomes valid again through later
  insertions and removals.
- `src/builder`: the netlist builder, its connection checks, the depth-first
  cycle check, the reachability checks and the wire numbering, plus the
  textual SSA form of a built netlist.
- `src/circuit`: circuits made of subcircuits, each holding inputs, gates,
  clones, drops, outputs and the values flowing between them; splitting a
  subcircuit.
- `src/analyzer`: the analyses of a subcircuit (topological and scheduled
  orders, value liveness, register allocation, connected components and their
  validity, reachability from the outputs, ownership issues) and the laws that
  tie them together.
- `src/dghv`: the DGHV parameter sets and the context derived from a security
  level.
- `tests`: executable tests of the library.
- `app`: the demonstration program (DGHV key generation, encryption and
  decryption on big integers), the analysis cache keyed by analysis type, and
  the error messages.
