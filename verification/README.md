# lightmapper

The CPU side of a GPU lightmap baker, written in Verus: every function in
`src/` carries a contract that Verus proves.

- `src/stilb/` — chart packing into an atlas (`pack`), BMP encoding and
  decoding (`bmp`), mesh index merging (`mesh`), seam edge lists (`seams`),
  queue and memory-type selection (`vulkan_core`), swapchain settings and
  frame rotation (`swapchain`), the preview and bake sample loops (`progress`), and the
  values exchanged with the host engine (`bindings`, `lights`, `oidn`).
- `src/glim/` — the compaction layout of lightmap groups (`bake_plan`), the
  order of the sample dispatches (`bake_schedule`), the
  order of the lightmap readback steps (`readback`), and the sparse rows,
  edge lists and texel neighbourhoods of the seam solver (`seams`).
- `src/baker/` — the R11G11B10 texel encoding (`texture2d`), the GPU memory
  tally (`gpu_memory`), shader tables and binding layouts, and device setup
  decisions.
- `src/bits.rs` — facts about single bits of 64-bit words.
- `app/` — the program around the library: Vulkan through ash, files,
  float geometry (rasterizing charts, seam detection and the least-squares
  solve), and the loops that drive the GPU.
- `tests/` — tests of the library on concrete values.
