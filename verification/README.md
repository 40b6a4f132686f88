# voxelkloud

Point clouds on the web: what a cloud is, whether a deployment of it can be
streamed, and how to turn surveys into clouds that can.

The library under `src/` is verified with [Verus](https://github.com/verus-lang/verus):
every function states what it returns in `requires` and `ensures` clauses, and
those are proved. `app/` is the command-line program around it: files, sockets,
arguments, and everything that is floating point.

## Layout

- `octree`, `bounds`, `attribute`, `crs`, `cloud`: the vocabulary that every
  format shares.
- `las`: headers, records and dimensions of LAS and LAZ, and the COPC pages.
- `format`: reading Potree v2, COPC, EPT, 3D Tiles, LAS and E57. What has to be
  read next is said by a walk; the program reads it and hands it back.
- `e57`, `read`, `source`: what the points of an input are, and where their bytes
  come from.
- `record`, `build`, `convert`: the canonical record, the octree it is sorted
  into, in memory or through disk, and what a conversion settles before it
  starts.
- `write`: COPC, Potree v2, EPT and 3D Tiles, down to the byte, and what their
  own readers make of them: a walk of what was written counts every node once
  and fails nowhere, and a manifest is read as it was written.
- `optimize`, `round_trip`: re-encoding a Potree v2 cloud without rebuilding its
  tree, and what comes of doing so both ways.
- `built_cloud`: what holds of a cloud from its points to its files.
- `cli`: what each command decides and prints.
- `json`, `text`, `bytes`, `double`, `codec`: the ground the rest stands on.

## Doubles

Coordinates are carried as the bits of a double (`double::Real`) and compared by
them. Adding, scaling and rounding them happens in `app/`, which hands the
library the cell and the child that each point falls in, the quantised positions
and the boxes it measured.

## What is not proved

Compression and JSON parsing are done by other crates. Each call stands behind
one small function whose comment says what is taken on trust: that the outcome
depends on the arguments alone, and for Brotli that what was compressed is what
comes back. The text of a document is written in `app/`; what a reader may make of
it is stated in `json::reads_by`, and the laws about manifests are put over that:
the fields of an object may come in any order, and a fraction may come back as a
double beside the one that was written. The laszip codec has no room for every sequence of GPS times; the
COPC and EPT writers ask for times that it has room for (`write::gps`), and
`can_code` says beforehand whether they are.
