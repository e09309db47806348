# ttc

Thread tolerance curves from reuse-distance dumps.

`src/` is a verified library (Verus):

- `text`, `num`, `fields`: lines, trimming and comma fields as `str` gives
  them; unsigned integers as `usize::from_str` reads them; the float literal
  grammar of `f64::from_str`.
- `pluss`: the histograms of `distance, count` lines (`DumpedData`,
  `MissRatio`), read in parallel with rayon, sorted and merged per distance.
- `triple`: the dumps with private and shared sections (`DumppedData`).
- `merge`, `order`: merging runs of one distance; stable ordering by key.
- `ccdf`, `mrc`, `sharing`: the integer side of the distributions — which
  histogram entry takes effect at which distance, the average eviction time,
  the miss ratio positions, and the distances that bound the tolerance.
- `cli`: the options and the cache sizes they select.
- `curve`: collecting the curve up to the first cache size whose bound is
  undefined.

`app/` is the command: file I/O, the floating-point distributions built on
the library's walks and searches, JSON output and plotting.

The thread tolerance bounds rest on a conditional expectation of the reuse
distance (`cond_exp`) and on the private model's tolerance
(`thread_tolerance`), which this code base does not define. In `app/` both
are undefined (`None`), so either command stops its curve at the first cache
size and writes an empty curve.
