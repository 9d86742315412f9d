# Forge engine logic, verified

The parts of the Forge engine that decide things with integers, written in Verus and proved
against their contracts:

- `residency`, `streaming`, `streamer`: the resident set of cluster pages (what is loaded,
  what is requested, what is evicted to make room, with every page's parents resident first),
  the upload plan of a frame and the streaming counters.
- `meshlet`: cull flags, the software-raster modes and their hysteresis, list sizing, the
  depth pyramid's extent and the frame statistics' notes.
- `scene`: the scene builder's integer bookkeeping: rebased cluster pages, level tables,
  shortcut roots, material sections, the instance counts that bound the work lists, and the
  streamed scene's page table and checks.
- `flow`, `rivers`, `hydrology`: the drainage tree of a terrain (the stack, downstream first,
  and the catchment areas), the river donors and Strahler orders, and the river courses from
  their mouths upstream.
- `placement`: the city grid's categories and plazas, FNV-1a, the check of the read-back
  instance table against the expected mesh tallies, and the Morton order of instances.
- `textures`: mip chains and the ramp test texture.
- `aces2`, `atmosphere`, `display`, `material`, `erosion`: the half-precision encoding and
  layout of the tone-mapping table, push blocks, tone-map curves, instance hashes and step
  timings.
- `field`: the digest of a heightfield's samples.
- `text`: decimal and rounded text for the counter lines.

`app/` holds what works on floats or does I/O around the library: the priority flood and the
receivers of a float heightfield, river geometry in metres, the page store's file reads and
the streaming thread.
