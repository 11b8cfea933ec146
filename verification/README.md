# mlua_mathlib

A statistics toolkit for Lua hosts, in two parts.

- `src/` is a library verified with Verus. It holds the integer, ordinal and
  combinatorial logic of the toolkit, each function with a contract:
  - `random`: seeded generators, uniform integers, the Fisher-Yates shuffle,
    the partial shuffle of the permutation test and draws of positions with
    replacement (the resampling indices of the bootstraps);
  - `order_keys`: integer keys from the bit patterns of doubles, ordered as
    the total order of doubles;
  - `combinatorics`: every arrangement of `1..=n` by Heap's algorithm;
  - `ordinal`: fractional ranks, ascending orders, sorted keys and the rank
    sums of the Mann-Whitney test, over integer order keys;
  - `pairwise`: the dominance counts of Cliff's delta and the pair classes of
    Kendall's tau-b, with the laws that relate them to ranks;
  - `ecdf`: the two-sample Kolmogorov-Smirnov statistic;
  - `binning`: histogram and calibration bin tallies;
  - `requests`: argument checks of the resampling and permutation tests, the
    choice of tail, and the tally behind a permutation p-value;
  - `counting`: sums and counts over sequences, and their lemmas.
- `app/` registers the functions in a Lua table with `mlua` and does the
  floating-point arithmetic (distributions, special functions, moments,
  information measures, p-values), calling the library for the rest.
  Floats are mapped to order keys (`app/keys.rs`, through `order_keys`)
  before ordinal work.
