# powerbench

Powerbench is a library and a tool to use with the Nordic Power Profiler Kit II
(PPK2) for structured benchmarking of embedded applications at low power.

- **Measure**: enable device power at a chosen voltage, wait for the device to
  settle, sample for a fixed duration, and store the result.
- **Live**: monitor current draw with a moving average over the last N seconds.
- **Stats** and **compare**: summary statistics of a sample file, and a
  comparison of two with a p-value and a bootstrap confidence interval for the
  difference.
- **Plot**: render one or two recordings with gnuplot.

## Layout

- `src/` is the library. All of it is verified with Verus: every function has a
  contract, and the `law_*` proof functions state what holds across functions,
  such as that a saved file loads as it was, that recorded samples do not depend
  on how the stream is cut into reads, or that a session leaves the device
  stopped and, unless asked otherwise, without power.
- `app/` is the command line around it: arguments, the serial port, files, the
  clock, JSON, gnuplot, and floating-point arithmetic.
- `tests/` runs the library on concrete values.

The library does no floating-point arithmetic of its own. Numbers are bit
patterns; comparing and rounding them to whole numbers is done on the bits, and
sums, products and decimal text come from a value that the caller hands in. What
the contracts say of results is: where the caller's operations give one result
for one set of operands, the function returns exactly the named combination of
them. What needs more of the operations is proved from what IEEE 754 asks of
round-to-nearest, as `src/rounding.rs` states it, and with a bound for what
rounding can do where exact results would be needed: percentiles grow with the
percentage, a higher confidence encloses a lower one, and statistics do not
depend on the order of the samples, each up to such a bound. The bounds are in
`src/accuracy.rs` and `src/compare.rs`.

Three functions of the standard library are trusted: the sorting of unsigned
integers, in `src/order.rs`, the appending of a character to a string, in
`src/text.rs`, and the extension of a path, in `src/plot.rs`.

## Usage

```sh
powerbench measure --voltage 3000 --settle 10 --duration 60 \
    --label "main @ abc1234" -o baseline.pbench

# ... flash the new firmware ...

powerbench measure --voltage 3000 --settle 10 --duration 60 \
    --label "fix-idle-power" -o new.pbench

powerbench compare baseline.pbench new.pbench
powerbench plot baseline.pbench new.pbench -o compare.png

powerbench live --voltage 3000 --window 10

powerbench power on --voltage 3000   # stays on after the command exits
powerbench power off
```

A plot is always drawn to the image file given with `-o`; there is no window to
show it in. Its current axis is linear unless `--log` asks for a logarithmic one:
the data do not choose the scale.
