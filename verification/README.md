# kafka-key-guestimator

Samples OTLP metrics traffic from a Kafka topic (or a JSONL dump) and
recommends the Kafka message key that spreads messages most evenly over the
partitions. Every distinct set of resource-attribute names seen in the sample
is a candidate key; for each one the tool simulates Kafka's default
partitioner (Murmur2) and keeps the candidate whose partition counts vary
least.

## Layout

- `src/` is the library. Its functions are proved against their contracts,
  except the few that call `serde_json` or std and whose contracts are
  trusted:
  - `partitioning`: Murmur2, the partition of a key, the simulated
    distribution of counted keys, and the message key of a resource;
  - `analyzer`: counts per (schema, key), merging of several workers' counts;
  - `reporter`: ranking of the schemas, choice of the recommended key, the
    text table and the CSV fields;
  - `otlp_parser`: resource attributes of one OTLP JSON line;
  - `consumer`: the budget split over workers and each worker's decision on
    each event it observes;
  - `reader`, `text`, `layout`, `telemetry`: JSONL lines, decimal and padded
    text, log level names;
  - `attributes`, `order`, `pairs`, `spread`: the attribute map, the byte
    order of strings, maps kept as lists of pairs, and the exact variance
    measure (`n·Q − S²`) by which candidates are compared.
- `app/` is the command-line program around it: argument parsing, files,
  Kafka consumers, signals, OpenTelemetry export, JSON output and the
  floating-point standard deviations that the report prints.
- `tests/` holds the tests of the library.
