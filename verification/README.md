# options_pricing_engine

An options pricing library whose functions are proved, with Verus, to return what their
contracts say: Black-Scholes-Merton and Black-76, implied volatility, Heston and Bates by
inversion of the characteristic function, forward-mode sensitivities, local volatility with a
surface that is checked and repaired against static arbitrage, Monte Carlo for path-dependent
payoffs, rough Bergomi, inverse options settled in coin, and calibration by
Levenberg-Marquardt, by several starts and by differential evolution.

## Numbers

The library holds no floating point. Every formula is generic in a number type `T`, which
brings the operators of `core::ops` and `PartialOrd`, and in a provider of the elementary
functions, the trait `Elementary`. A contract names each result operation by operation, so it
fixes the roundings too; what it asks of `T` and of the provider is only that results are
determined by arguments (`lawful`). `app/provider.rs` gives the provider for `f64`.

Randomness enters through the trait `RandomSource`, a stream from which a draw is taken and
the rest handed back. What it asks is that a draw is determined by the stream (`steady`), so a
simulation or a search is a function of its seed, and its contract says which. Nothing is
assumed about what is drawn.

## Laws

The laws of the models hold up to rounding. They are public proof functions, whose names begin
with `law_`, stated over a map from numbers to real values under the hypothesis that
arithmetic on numbers is arithmetic on their values (`exact.rs`): the parity of puts and
calls, the spline that goes through its points and does not overshoot, the factor that
rebuilds its matrix, the step that solves its system, and others. The modules `*_laws.rs`
hold those that span a module.

## Layout

- `src/` the verified library, `tests/` its tests in double precision
- `app/` a program around it: demonstrations, parallel drivers, and a data generator
