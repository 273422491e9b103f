# fynd_core

Slippage prediction for routing, built around a verified per-pool depth tracker.

- `src/` is the Verus library: pool depths as arbitrary-precision naturals
  (`depth`), the seconds-to-blocks configuration (`config`), the mathematical
  model of the tracker (`model`), the tracker itself (`tracker`) and the
  properties proved of it (`laws`).
- `app/` holds what works in floating point or behind a tokio lock: the
  predictors, route reliability scoring, and the exponentially weighted
  statistics computed from a pool's window of depth changes.
- `tests/` exercises the library.
