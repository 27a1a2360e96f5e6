# btest_rs

Bandwidth control and reporting for a network throughput tester, verified with
Verus.

- `src/limiter.rs`: when a sender may go on, for all connections of a session.
- `src/state.rs`: counters, byte budget and totals.
- `src/parse.rs`: reading a bandwidth such as `100M` or `1.5G`.
- `src/report.rs`: writing bandwidths and status lines.
- `src/double.rs`, `src/decimal.rs`: rounding to doubles, in integers, and decimal
  digits.
- `app/`: clocks, locks, sleeping and printing around the library.

The proof functions whose names start with `law_` state what holds of the library
as a whole: among others, that the rate is a session total, that a catch-up burst
is bounded, that a budget pays for every byte once, and that whole numbers are read
exactly.
