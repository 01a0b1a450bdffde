# gloom_rs

A small OpenGL viewer that shows a lunar terrain with five helicopters flying
over it and lets the keyboard move the camera. The decisions of the viewer
live in a library verified with Verus; the window, the driver calls and the
floating-point matrix arithmetic live in the program around it.

Layout:

- `src/layout.rs`: byte sizes and the buffers of a vertex array object.
- `src/input.rs`: the set of held keys, the camera motion they ask for,
  pending window resizes, and the answer to each window event.
- `src/scene.rs`: the scene graph and how it is built, helicopters included.
- `src/walk.rs`: paths, rankings and the check that a walk down from a node
  ends.
- `src/draw.rs`: the drawing order of a scene and the chain of local
  transformations that places each drawn node, with its soundness and
  completeness.
- `tests/`: tests of the library on concrete scenes and inputs.
- `app/`: the program: window and event loop, shader and mesh loading, GPU
  uploads, and the matrices.
