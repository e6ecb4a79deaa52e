# fan

Play one audio stream on several output devices at once.

- `src/` is the library, verified with Verus: device and stream-format
  descriptions, the command-line parser and device lookup, relative output
  delays, ring sizing, the render staging queue, the capture sink list and
  the render thread's delay and underrun steps, the supervisor's bookkeeping (which outputs have a render slot, when a dead
  one is retried, how each event is answered).
- `app/` is the command-line harness (`list`, `run`) and the engine's
  cross-thread and floating-point plumbing that does not depend on WASAPI.
- `tests/` exercises the library on concrete inputs.
