# vgc

The core of a vector-graphics editor, verified with Verus.

A scene is a stack of layers; a layer holds a shape or is a folder. A shape is a closed or
open path of cubic Bézier curves whose points carry identifiers, so that a handle lying on its
point shares that point's identifier. The library covers:

- `scene`, `shape`: layers and their order, paths, their curves, deleting and inserting
  points, joining and separating handles, and the drawing steps a shape renders to;
- `selection`: what the user hovers and selects (shapes, then points), and how a click or a
  shift-click changes it;
- `commands`: undoable edits and the history that runs, undoes and redoes them;
- `outline`, `boolean`, `combine`: boolean operations on shapes (difference, intersection):
  linking the cut curves of two shapes into outlines, settling how the outlines meet, tracing
  the new shapes and putting them into the scene;
- `fill`, `ids`, `margin`, `text`: colours, identifiers and small helpers.

The library holds no floating-point numbers: positions are a type parameter that it only
copies, and every decision that needs geometry (whether a point lies in a shape, where two
curves cross, whether a curve is straight) comes in as a value or a closure.

`app/` holds what cannot be verified here: the floating-point geometry (curves, crossings,
transforms, the camera), drawing to a canvas, saving and loading scenes, and the editing
context that ties them to the library.
