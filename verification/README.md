# mc-sim

A Monte Carlo simulator of a stock price under geometric Brownian motion. It
reports how the final prices are distributed, value at risk and expected
shortfall, and, given a strike, prices a European option and sets the result
beside the Black-Scholes price.

The library under `src/` is verified with Verus. Verus does not take floating
point, so the library computes on the encodings of binary64 numbers, and states
and proves every operation as IEEE 754 has it: the exact result, rounded to the
nearest number, ties to even. What it computes is therefore what machine
arithmetic computes, bit for bit, up to the sign and the payload of a NaN.

- `grid`, `round`, `arith`, `binary64`: binary64 numbers and their operations
- `laws`, `scale`, `precision`, `interval`: what follows of those operations, how
  they double, how far they are off, and which bounds they keep
- `sort`, `stats`: a stable sort, and the statistics of a sample of prices
- `sums`, `accuracy`, `shuffle`: how close sums, means and standard deviations come
  to the exact ones, and that the order of the prices makes no difference
- `args`, `seeds`, `path`: what a run is asked to do, its random generators, and
  the paths that it simulates
- `pricing`: European options
- `normal`, `parity`: what the normal distribution function comes to, and put-call
  parity
- `decimal`, `csv`, `report`: text

The program under `app/` reads the command line, samples the normal
distribution, applies the exponential function and the logarithm, spreads the
paths over threads, and writes the files.
