# geostat

A geostatistics engine whose logic is verified with Verus: kriging (simple,
ordinary, universal, external drift, block, lognormal), co-kriging, indicator
methods, sequential Gaussian, indicator and truncated Gaussian simulation,
declustering, transforms, and GeoPackage and CSV framing.

## Layout

- `src/` is the library. All of it is checked by Verus, and what a function computes
  is stated in its contract; the few functions that call an outside crate say in
  their doc comments what is taken on trust.
- `tests/` runs the library on concrete values, with the arithmetic of the machine.
- `app/` is the command line: argument handling, files, SQLite and JSON.

## Doubles

A `Double` is an IEEE 754 bit pattern. Comparing, ordering and rounding doubles to
integers is integer logic. Operations that round are handed in as an `Arithmetic`;
contracts state which operations are applied to which numbers, and in which order, so a
result is determined to the last bit by the operations that the caller hands in.

## What is proved

Contracts pin results down, error by error. Beyond them, public proof functions state
what holds across calls, among them:

- data, nodes and seed determine the realizations of every simulation, and the first
  ones do not depend on how many are run (`same_seed_same_realizations` and
  `first_realizations_stay` in `sgs`, `sis` and `tgs`);
- a simulation path visits every node once, coarse levels first;
- searches for the nearest points agree with each other, distance by distance;
- kriging and co-kriging systems are symmetric, and have one solution;
- one indicator model that serves all cutoffs gives what one model each gives where those
  are the same (`sis`, `ik`);
- points that are written to a GeoPackage read back bit for bit, and rasters within a step
  up to rounding (`gpkg`, `exact_raster`);
- for an arithmetic that rounds to the nearest double, corrected distributions ascend,
  stay within zero and one, and settle (`nearest`).

Some of what geostatistics promises holds of doubles only up to rounding. It is proved for
an arithmetic that keeps order, or that does not round, each of them spelled out:

- simulated values and back-transformed scores stay within their bounds (`sgs`, `sis`,
  `transform`);
- elimination and the Cholesky factor solve their systems (`exact`, `exact_definite`);
- kriging and co-kriging are exact at the data and average over a block, and kriging
  reproduces its drift (`exact_kriging`, `exact_cokriging`);
- lognormal and regression kriging are exact at the data, and a constant trend changes
  nothing (`exact_derived`);
- all of this holds of what the predictors give back from all data (`predictions`);
- secondary information that is not correlated has no influence (`uncorrelated`,
  `exact_collocated`);
- declustering weights sum to the number of points (`exact_declustering`; that they are
  positive is proved there for an arithmetic that rounds to the nearest double);
- the mean of a local distribution lies between the bounds of its tails
  (`exact_moments`).
