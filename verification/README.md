# cpusim

Register-machine simulators whose behaviour is specified and proved with Verus.

* `instructions_set` — an `i32` machine with registers `R1`..`R8`, kept to a
  configurable number of low bits, driven by text instructions.
* `till_128` — a machine of 32, 64 or 128 bits over `u128` registers, with flags
  and memory, driven by text instructions.
* `brain_overflow_all` — a machine of any width over natural numbers, with flags
  and memory, operated method by method or through a console that reads lines.
* `natural` — natural numbers of any size; their arithmetic is done by
  `num-bigint`.
* `text` — splitting into words, mnemonic recognition, integer literals.
* `named_map` — a map from names to values.
* `bits` — facts about masks, shifts and two's complement.

`app/` holds the command-line front end: a demonstration program, and the
console (`console` argument).
