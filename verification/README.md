# img2glyph

Turns scanned type specimens into one image per glyph, with Unicode labels and
file names that font editors import directly.

The library under `src/` is verified with Verus:

- `segment`: per-component bounding boxes from a label image, the segmentation
  pipeline (adaptive threshold and connected components from `imageproc`), and
  the crop of one glyph with its neighbours masked out.
- `reading_order`: rows by vertical center, columns by left edge.
- `sorting`: the stable sort the reading order is defined by.
- `raster`: row-major gray and label images, and the calls into `imageproc`.
- `text`: codepoint strings, character names, glyph IDs and file names.
- `agl`: glyph names in the Adobe Glyph List style (`A`, `ampersand`, `uni00B6`),
  which name the labelled files.
- `labeling`: manifest entries, assignment files, file renames.
- `json`: JSON documents parsed by `serde_json` into a plain value, and the members the
  assignment files and model replies are read from.
- `vision`: the request payload and the reply handling for model labelling.
- `manifest`: the manifest records.

`app/` holds the command line program: argument parsing, image files, the
manifest file on disk, and the network calls.
