# cpu_path_tracing

The integer and structural core of a spectral CPU path tracer, written in Verus and
proved against its contracts.

`src/` holds the verified library:

- `image` – row-major pixel grids and their clamped lookups;
- `bvh` – the bounding volume hierarchy: growing the build tree (partitioning primitives
  by bucket and splitting leaves, with the split choice supplied by a cost model),
  checking and flattening it depth first, and walking the flattened nodes with a fixed
  32-entry stack in a fully specified order;
- `walk_log` – a visitor wrapper that records every call a walk makes on it, so that the
  walk's contract can say exactly what the visitor was asked and handed;
- `parallel` – how the thread pool cuts a buffer into chunks and a grid into tiles, with
  proofs that the pieces cover the data exactly once and never overlap;
- `light_sampler`, `light` – uniform light selection, area and uniform infinite lights,
  and the cell layout used to importance-sample environment images;
- `integrator`, `camera` – the sample schedule of offline renders, the preview's modes
  and its reaction to window events (a step function the window loop drives),
  the film and the mapping from window to film pixels;
- `bsdf`, `color`, `geometry` – BSDF handles, channel code ranges and ray statistics.

Floating-point arithmetic is not verified: bounds, shapes, colours, the surface-area
heuristic, the spin lock and the thread pool live in `app/`, a plain Rust crate that
calls the library. `tests/` exercises the library on concrete values.
