# autoshop

The core of a photo-retouching tool, verified with Verus: edit recipes and their
limits, spot healing from the pixels of the picture itself, the import of AI masks,
and the arithmetic of the finishing passes.

- `src/` is the library. Every function states what it returns; public proof functions
  state what holds of several of them together. Single-precision numbers are held by
  their bits (`single`, `whole`, `exact`, `rounding`, `mixing`, `reals`, `double`), so that
  what the machine computes with them is stated to the last bit.
- `tests/` runs the library on concrete pictures, recipes and replies.
- `app/` is the host side: files, processes, the network, images, and the passes that need
  sines, powers or sums in doubles.

Three functions of other crates are taken at their word: base64's standard encoding, which
file extensions the image crate reads as JPEG, and that its JPEG encoder makes one file of
one picture.
