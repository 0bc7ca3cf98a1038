# imanot

Annotation masks for images: stacks of colored pixel regions, edited by tools, with undo and redo,
drawn over the image and kept in a file beside it.

- `src/` is the library. Its functions state what they do over sets of pixels and sequences of layers
  and actions, and Verus proves them.
- `app/` holds what surrounds the library: windows, textures, pointers, files, and all that is
  computed in floating point (the view, the frame of a selection, its rotation and scaling).
- `tests/` runs the library.

| Module | Holds |
| --- | --- |
| `span`, `ranges`, `cluster`, `transform` | pixel regions as sorted runs, set operations, connected pieces, moves |
| `pixel_area`, `layer_stack`, `color`, `affected_layer` | layers, stacks of them, their colors, and which of them an edit is for |
| `history`, `builder` | actions, undo and redo, and edits put together step by step |
| `mask`, `ordered_spans` | a mask image: base layers with the history applied |
| `composite`, `render`, `settings` | drawing the layers over each other |
| `stroke`, `brush`, `rect_tool`, `tool` | the drawing tools |
| `selection`, `commit`, `drag`, `preview`, `anchor` | selecting pixels and placing them elsewhere |
| `mask_records`, `mask_file`, `storage` | the mask file, and the files of a directory |
