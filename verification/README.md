# busperf

Bus performance analysis of simulation traces: for each bus named in a YAML
description file, count in which state the bus spends each clock cycle (busy,
free, backpressure, no data, no transaction, reset), group cycles into bursts
and delays, and report transaction timings of AXI interfaces.

The library in `src/` is written in Verus and verified:

- `yaml`, `config`, `axi_config`, `config_triggers`, `graph`: parsing the bus
  description (`yaml_rust2`) and reading it into buses, analyzers, triggers and
  control triggers, with the exact error each malformed description gives.
- `signal`, `bus`, `analyzer`, `bus_usage`: signal values over a time table, the
  per-cycle rules of each handshake, and the statistics they accumulate.
- `axi`: ready/valid transfers and the pairing of commands, data and responses
  of AXI read and write interfaces.
- `trigger`, `sources`, `fsm`, `control`: triggers, their combinations, the
  intervals in which an analyzer is active, and the timer and state machine
  control triggers.
- `run`: analyzing one bus on the signals loaded for it.
- `schedule`: which control triggers and analyzers run in each round, the
  trigger-cycle error, and the order of the results.
- `show`, `text`: labels and text the reports use; the trace's hash.
- `data_file`: the gzip layer of the data file that statistics are saved in.

`app/` is the command line program around the library: it reads the trace
(`wellen`) and the description file, runs the rounds the library decides, and
writes tables (`tabled`, `csv`) or the encoded statistics (`bitcode`).
