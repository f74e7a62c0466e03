# Pipeline layouts

A verified library for Vulkan pipeline layouts: the descriptor sets and push constants that a
pipeline makes available to its shaders.

- `src/` holds the library, written in Verus. Every function states in its contract what it returns,
  and the proof functions named `law_...` state what holds across functions.
- `src/outside.rs` holds the calls into `ahash`, `ash` and `smallvec`, with what is relied on of each.
- `app/` makes the calls into the Vulkan implementation, numbers the objects, and gives the errors
  their standard traits.
- `tests/` runs the library on concrete values.
