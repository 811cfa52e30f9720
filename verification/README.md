# atmospherics_simulation

Bookkeeping for a simulation of fluids that flow between volumes, verified
with Verus.

- `src/fluid_properties.rs`: a collection of fluid properties addressed by
  the id each fluid got when it was added, and the error for an unknown id.
- `src/mixture.rs`: mixtures whose fluids stay in ascending id order with no
  id twice; adding fluids, merging mixtures, looking up the properties of
  their fluids and extracting part of them. Amounts and energies have a type
  of the user's choosing, and the user hands in how two of them add up (and,
  for extraction and heating, how fluids are split and weighed, how the
  energy is shared by weight, and what energy fluids bring).
- `src/flow.rs`: edge directionality, the simulation's error types, and the
  topology of flow edges between volumes (which edges leave and enter each
  volume), with the check for a common edge between two sorted edge lists.
- `app/`: the simulation with `f32` amounts, energies, temperatures and
  pressures (fluid volumes, mixture properties, and the flow step), which
  uses the library for everything that is not floating-point arithmetic.
- `tests/`: tests of the library.
