# folding-order

Five folds to find what doesn't belong: a five-stage pipeline for temporal anomaly
detection in constraint computations, verified with Verus.

| Stage | Fold | Strips | Result |
|-------|------|--------|--------|
| 1 | Cycle-normalize | clock frequency | cycles per operation |
| 2 | Throughput-parameterize | instruction count | deviation from the expected throughput |
| 3 | Thermal-normalize | temperature | drift-adjusted deviation |
| 4 | Utilization-fingerprint | load | anomaly score from 0 to 1, and confidence |
| 5 | Decide | | normal or anomalous |

A measurement is anomalous if its score is above 0.95 and its confidence above 0.8.
Heat slows the hardware down, so stage 3 adds back the slowdown that the calibrated
coefficient explains. From the standard score z, the confidence is `1 - 1 / (1 + |z|)`. The score is one less
the chance of lying that far off, which is taken as linear up to two standard
deviations, as an exponential tail from there up to six, and as zero beyond. The tail is
nowhere above the value at two, so a larger deviation never scores lower.

## Layout

- `src/`: the verified library.
  - `ladder`, `settle`, `double`, `arithmetic`: double-precision arithmetic on bit
    patterns, exact and rounded once, against a model in whole numbers.
  - `text`, `render`: decimal text of counts and of doubles.
  - `table`: values filed under text keys.
  - `types`: measurements, profiles, predictions, reports, logical clocks.
  - `fold`: the pipeline. `detector`: the online detectors.
  - `batches`, `profile`, `readings`: loads, calibration, sensor and CPU readings.
  - `report`, `scenario`: what the program prints, and its synthetic measurements.
  - `order`: how arithmetic keeps order. `laws`: properties of the whole. `agreement`:
    that runs on the same input agree.
- `tests/`: tests against machine arithmetic and the standard formatter.
- `app/`: the command line program: files, clocks, sensors.

The exponential of stage 4 is handed to the library as a function. Contracts speak of
what it returned; `laws` says which decisions do not depend on it, and `agreement` what
follows if it has one result for each argument.

## Commands

`profile`, `monitor`, `analyze FILE`, `benchmark`, `calibrate`, `inject-anomaly`.
