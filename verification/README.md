# sss

Verified bookkeeping and table handling of a ship loading model. The model
itself (floating position, stability and strength of a ship in still water)
computes on floating-point values and meshes, which are not part of the
verified library.

`src/` holds the parts whose logic does not rest on floating-point
arithmetic, each proved by Verus against its contract:

- `cache_table`: the text layout of the precomputed cache tables (lines of
  blank-separated values, read back by columns), with the proof that reading
  a written table gives its columns back;
- `grouping`: tabulated rows grouped by ordering keys (the cross curves of
  stability by trim and draught) and by compartment code;
- `voxel`: the columns of the side silhouette of a voxelized surface, their
  counts, and the area and first moment of the silhouette in voxel units;
- `hold`: adding hold compartments (compartments made of parts) and their
  grain heeling moment curves while keeping those already known, and looking
  up the maximum filling of every compartment.

`app/` holds what works on floating-point values, files and meshes: reading
and writing cache files, the conversion of floating-point keys into ordering
keys, the voxelization of meshes and the scaling of the silhouette to metres.
