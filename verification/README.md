# compute_pass

A verified library for compute passes: recording commands into a pass, and running a recorded
pass, which turns it into raw commands for a graphics backend or refuses it with an error.

- `src/compute.rs`, `src/compute_ffi.rs`: the commands of a pass and how they are recorded.
- `src/hub.rs`, `src/push_constants.rs`, `src/bind.rs`, `src/state.rs`: the checks on resources,
  push constants, bind group slots and dispatches.
- `src/model.rs`: what a pass means, as a function from a state and a command to the next state.
- `src/encode.rs`: running a pass, proved to do what the model says.
- `src/laws.rs`, `src/recorded_laws.rs`, `src/slot_laws.rs`, `src/clear_laws.rs`: what holds of
  every pass.
- `src/raw.rs`, `src/text.rs`: the raw commands, and the calls into `arrayvec` and `std` whose
  behaviour is taken on trust.
- `app/`: the C interface, serialisation, error messages, and running a pass against a backend:
  its raw commands are replayed through `gfx-hal`.
