# ohc_ingest

Turns the monthly output of an ocean mapping into one zarr store per pressure layer: ocean heat
content, the grids that go with it, and a band of mask flags. The library under `src/` is written in
Verus and verified; the program under `app/` reads and writes the files.

| module | what it holds |
|---|---|
| `double`, `rounding` | IEEE doubles and singles as bit patterns: comparison, product, distance, narrowing |
| `text`, `bytes`, `codec` | whole numbers in decimal, numbers in byte buffers, zlib and gzip streams |
| `grid`, `consts` | the mapping grid, tables and blocks of cells |
| `matread` | MAT v7 files with one array |
| `ncread`, `ncstore` | the classic NetCDF bathymetry |
| `basinmask` | the basin table and nearest-point assignment |
| `masks` | the flag band |
| `config`, `cli` | file names, time axes, calendar days, command line, precedence of settings |
| `ingest` | months in, member-major stacks out |
| `json`, `provenance`, `zarrwrite` | metadata documents, what a store says of its run, chunks, and the files of a store |

Numbers with a fraction are held as the bits of IEEE doubles, and their arithmetic is defined on the
bits. A value is missing where it is NaN, or where it equals the configured sentinel before scaling.

What the library takes on trust is marked `external_body` or `assume_specification`: byte order
(`byteorder`), streams (`flate2`), column-major arrays (`ndarray`), and two functions of the standard
library.
