# rfx-voiced

A voice node: one process that serves many game servers sharing one talkgroup
space. Players talk to their own server's Mumble; the node taps it, decides who
hears what, renders each transmission the way each listener's radio would sound,
and delivers 8 kHz PCM over a WebSocket per player or dispatch console.

- `src/` is the node's decisions, verified with Verus: routing and preemption
  (`routing`, `router`, `patches`, `laws`, and `history` for what holds after any
  course of operations), the control API (`control`, `http`,
  `json`), the audio sockets' wire format and rules (`stream`), the tap's protocol
  (`mumble`, `varint`), which renderings a transmission needs and how a digital
  link damages it (`dsp`, `vocoder`), mixing on AM (`ammix`), enrolment and keys
  (`servers`, `platform`, `supervisor`, `cli`) and recordings (`recorder`).
- `app/` is the program around it: sockets, TLS, timers, files, and the filters
  and noise of the analogue side.
- `tests/` runs the library on concrete values.

What is believed of outside code rather than proved stands in the doc comments of
the items marked `external_body` and `assume_specification`.
