# hane

The structure of a vector editor as a verified library: paths and boolean
operations on them, strokes and dashes, a software rasterizer and the PNG files
that it is compared by, a scene with an arena, a quadtree and a tile cache, and
SVG in both directions.

- `src/` is the library, written in Verus. Every function states what it returns
  and is proved against that; what relates several functions stands as a public
  proof function.
- `app/` is the floating-point side: lengths, intersections, coverage, colours.
- `tests/` run the library, with floating-point geometry where it needs some.

## Numbers

Verus does not compute with floating point, so a coordinate is a `Real`: the bits
of an `f64`. The library compares such numbers exactly, and decides everything
that can be decided by comparing. What has to be computed it takes as functions,
and its contracts say what is done with whatever they return. The numbers of an
SVG document stay the text that they were written as.

## Modules

| module   | what it holds |
|----------|---------------|
| `geom`   | numbers as bits, points, boxes |
| `path`   | outlines, cutting and joining pieces, half-edges and faces, winding numbers, borders, arrangements of two paths, offsets, strokes, dashes |
| `raster` | edges, coverage, clips, filling, paints, pixmaps, scenes, PNG, comparison |
| `scene`  | the arena of nodes, the quadtree, the tile cache, the view |
| `svg`    | XML, path data, transforms, styles, import, the graph of nodes, pages, export |
| `text`   | strings as sequences of characters |
