# nufrost

Verified integer, byte and text logic of the NUFROST Sentinel-2 time-series
reconstruction toolkit, written in Verus.

- `src/` is the library; every function in it carries a contract that Verus
  proves. It covers timestamp parsing and band descriptions (`time`), band
  names, file names and method lists (`bands`, `order`, `text`), the
  timestamp bookkeeping of band stacks and the choice of the held-out target
  (`stack`), the scene cache format, fingerprint and raster windows
  (`scene_cache`, `md5`), the sample cache layout, deterministic sampling
  and record assembly (`sample_cache`), and the integer rules of the
  Zhu (2015) baseline and the configuration checks (`zhu2015`, `config`,
  `series`).
- `app/` is the command-line program around it: GDAL raster I/O, files,
  JSON, and the floating-point model fitting (HANTS, Zhu 2015).
- `tests/` exercises the library on concrete values.

## What the program does not do

The NUFROST model itself (the NUFFT design, the group-fused-lasso ADMM
solver and the per-pixel and per-scene fits) is floating-point numerics and
is not part of this crate, neither of the verified library nor of the
program, which is limited to raster I/O and the HANTS and Zhu (2015) fits.
So the program:

- has no `nufrost` command (single pixel or GeoTIFF) and no `pixel-bench`
  command;
- refuses the method `nufrost` in `full-scene`, which is the default of
  `--methods`: pass `--methods hants,zhu2015` (or one of them) instead.

Everything the model would be handed (timestamps, the held-out target,
band order, sample records, cache layouts) is computed and verified in
`src/` as it is for the other methods.
