# ttfx

Terminal text effects: a piece of text is laid out on a canvas of character cells and
animated frame by frame (burns, storms, code rain, laser etching, and more). Each frame is
rendered to a string of terminal text with ANSI colour escapes.

The library is written in Verus. Its functions carry `requires`/`ensures` contracts over
mathematical models (sequences of characters, canvas views, scene and animation views), and
Verus proves that the code meets them.

## Layout

- `src/engine/`: the canvas (cells, drawing, rendering), characters and their animations
  (scenes of frames, looping or not), and the terminal that holds the text's characters and
  renders frames.
- `src/utils/`: coordinates, colours and styles, and the text layout (rows and grid).
- `src/effects/`: the effects. Those whose logic is integer logic are verified here: their
  contracts fix each frame, or state what the frames show. Colour gradients and eased
  paths are computed in floating point by the program and passed in as colour tables.
- `app/`: the command-line program: argument handling, terminal output, floating-point
  gradients, and the effects whose motion is floating point.
- `tests/`: tests of the library on concrete inputs.
