# agent_bench

Measures what an agent framework adds to the time of a language model: the same
question about a trip dataset is put through AutoAgents and through Rig, with a
tool and without one, and the timings are compared.

- `src/` is the library, verified with Verus: which number an answer names, how
  requests, tools and model calls are timed, how timings become results, what a
  command line asks for, and how results are kept in a JSON document. Times are
  whole nanoseconds. Metrics are doubles, held by their bit patterns; `src/arith.rs`
  does their arithmetic on integers, rounding as the machine does.
- `app/` is the program around it: the frameworks' traits, the network, the
  operating system, and the doubles as they are printed and compared.
- `tests/` runs the library on given values.

The outside calls that the library makes are declared in `src/json.rs` (reading
and rendering JSON with `serde_json`), `src/text.rs`, `src/config.rs` and
`src/stats.rs` (three functions of the standard library). Their contracts are
taken as given.
