# railml2dgraph

Reads the track layout of a railML document into a *branching model* (tracks
with objects along them, joined by connections and switches) and walks a
cursor along that model. Lengths and positions are whole millimetres: the
reader takes numbers in metres as `str::parse::<f64>` writes them
(exponents included) and rounds them to the nearest millimetre; infinite,
`NaN` and out-of-range lengths are reported as unrepresentable.

- `src/` is the verified library (Verus):
  - `xml` — the element tree that the reader works on;
  - `length` — decimal lengths in metres, read as millimetres;
  - `model` — the branching model and its connection map and set;
  - `branching` — the reader, specified element by element;
  - `walk` — walking a distance along the model;
  - `laws` — properties of read models and of walks;
  - `problem` — plan configuration types.
- `app/` parses XML with minidom, converts it for the reader, prints the
  reader's warnings, and offers the walk with distances given in metres
  (the result, like the model, in millimetres).
- `tests/` runs the library on hand-built documents and models.
