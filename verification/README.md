# resaiz font helper, verified

A local helper that lists the fonts installed on a computer (system, user
and Adobe Fonts activations) and serves them to the resaiz editor on
`127.0.0.1`. The library in `src/` holds its logic, proved with Verus; the
program in `app/` does the file, network and clock work around it.

- `bytes`, `sfnt`: big-endian reads and the sfnt table directory.
- `names`: the `name` table (record preference, UTF-16 decoding).
- `axes`: the `fvar` table and the weight a `wght` axis gives.
- `face`: one face of a font file, and the faces of a file.
- `repack`: a collection face repacked as a standalone sfnt.
- `catalog`: which files are read, one entry per family/style/weight/italic,
  the listing order, lookup by identifier.
- `fnv`: face identifiers and the folder change signature.
- `json`, `http`: the JSON answers, origin check, routing, CORS and
  response heads.
- `cli`: options, ports and font folders.
- `text`, `render`: character and number helpers.
