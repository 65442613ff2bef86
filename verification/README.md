# animlab_core

The editing core of a 2D frame-by-frame animation tool, verified with Verus.

- `src/` — the verified library: the scene graph (elements, drawing
  libraries, art layers), exposure timelines, undoable edit commands and
  their history, selection and layer operations, the editing session, the
  index bookkeeping of stroke extrusion and slicing, and the edits the
  cutting tools record. Stroke shapes are referred to by key; their
  floating-point geometry lives outside the library.
- `tests/` — tests of the library on concrete values.
- `app/` — the browser side: WebGPU rendering, pointer tools, the shape
  store and stroke geometry, and the JavaScript interface.
