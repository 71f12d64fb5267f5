# theatron

A deterministic discrete-event simulator for wireless networks, verified with Verus.

Nodes (`NodeHandle`) and interferers (`InterferenceSource`) are driven by a `Scheduler` over a
shared `Channel` with collisions and the capture effect; a `MetricsCollector` keeps the counts.
`aloha` holds a Pure ALOHA node and a traffic model, `prng` a reproducible generator.

A node, an interferer or a traffic model says in `behaves` which answers it gives to which calls;
unless it says otherwise, any. What is proved of a run holds for all of them.

Signal levels are integers in thousandths of a decibel.

## Layout

| Module | Contents |
| --- | --- |
| `time`, `types`, `traits` | simulated time, plain data, the interfaces that users implement |
| `channel` | contention, capture, link budget; the model is `Air` |
| `metrics` | counters; the model is `Tally` |
| `queue` | pending events in firing order |
| `simulation` | what a run does, as a function of the answers of nodes and interferers; the model is `Sim` |
| `cast` | the nodes and interferers themselves: each call is answered by the one that it names |
| `scheduler` | the event loop, proved to follow `simulation` and to call whom its log names |
| `xorshift`, `prng`, `aloha` | generators, traffic model and ALOHA node |
| `channel_laws`, `simulation_laws`, `delivery_laws`, `call_laws`, `trace_laws`, `run_laws`, `rerun_laws`, `aloha_laws` | what holds of every use |
| `growth`, `accounts`, `census` | the lemmas behind the simulation laws |

The counters, the event numbering and the clock are 64 bits wide. `Scheduler::run` stops with
`RunOutcome::OutOfRange` where one of them cannot take what comes next.
