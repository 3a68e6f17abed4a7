# larql

The decision logic of a transformer inference stack, verified with Verus.

- `src/` holds the library. Every function states what it returns in its contract. Functions named
  `law_...` state what holds of several functions together, or over many calls.
- `app/` runs what the library decides: it reads the process environment, computes on arrays,
  projects layers in parallel, and drives the grid and the backend. Collaborators that live
  elsewhere (the grid's state, tokenizer, compute kernels, codecs) are traits there.
- `tests/` runs the library on concrete values.

Numbers of single precision enter the library as bit patterns, durations as nanoseconds, and
matrices as names and shapes. The one outside crate that the library calls is `safetensors`; what
is taken for granted of it is written at the two functions in `src/archive.rs` that make the calls.
