# yahtzee

An optimal Yahtzee advisor. The library (`src/`) holds the game's integer
logic with Verus contracts: rolls as face counts, scoring of each category,
the enumeration of rolls and keeps, the packed game-state index and its
successor, and the conversions the server and browser front ends use.

`app/` holds what works on floating-point expectations or talks to the
outside world: the expected-value solver (a backward pass over game stages,
run in parallel with rayon), saving and loading its table, the HTTP advice
service (axum, tokio) and the browser bindings (wasm-bindgen, serde_json).
