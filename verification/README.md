# proof_engine

The integer and symbolic core of an in-engine editor, verified with Verus.

`src/` is the verified library:

- `selection`, `shortcuts`, `editor`: the selection set, the shortcut
  registry, editor modes, what a shortcut does in a mode, grid line classes
  and the ASCII grid.
- `history`: the bounded command history, the node editor's snapshot
  history, the modeling editor's two-stack undo, and the branching history.
- `node_graph`: port compatibility, the node graph's topology (refused
  cycles, one source per input, topological order, layered layout), the
  context menu.
- `modeling`: brush, symmetry and material vocabulary, index selection with
  named sets, mirror flips, the 5x7 glyph font and the cells of a text line,
  the Hilbert curve (which visits every cell of its grid once, moving one
  cell at a time), removal of particles by index.
- `mesh`: proximity graph, triangles, incidence lists, boundary vertices,
  connected components (in breadth-first order) and merge-by-distance groups
  of a particle cloud, given which particles are near.
- `spatial`: the uniform grid over particle indices (grouping by cell,
  gathering the cells around a centre) and greedy thinning by proximity.
- `layers`, `groups`: a model's layers (particle lists, visibility,
  merging, which particles are drawn) and its named particle groups.
- `model_codec`: the compact binary encoding of particle models (floats as
  bit patterns), with a proved round trip.
- `model_text`: the plain-text model format's framing: the header's name
  and the whitespace-separated fields of each particle line.
- `nav`, `network`, `particles`: navigation, networking and particle-system
  vocabulary, flat grid triangulation, connection quality, the particle
  editor's list bookkeeping and case-insensitive search.
- `replication`, `session`: RPC definitions and the replication
  declarations of an actor class as text; lobbies, their players, and the
  traffic monitor's totals and bounded sample list.

Where a library type carries a floating-point quantity (an opacity, a
colour, a rate, a time), it holds the value's bit pattern, and `app/` reads
it with `from_bits`.

`app/` holds what works on `glam` vectors and `f32` values (camera, grid
geometry, particle positions, colours, navigation geometry, particle curves,
traffic rates, the network topology diagram)
and the undoable command objects, calling into the library for the decisions.
