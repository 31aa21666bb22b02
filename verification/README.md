# battlefield_sim

A circular battlefield swept by a formation of one-shot FPV drones: twenty
static enemies, twelve drones in two rows of six flying across the disk. Each
tick every live drone senses the nearest enemies and friends, a pluggable
targeting rule picks a target, exclusive locks turn into kills after a fixed
lock time, and each decision is costed in deterministic operations.

## Layout

- `src/` is the verified library (Verus):
  - `order` — `f64` comparisons on bit patterns;
  - `contact` — contacts and keeping the nearest ones (`arrayvec` behind
    specified wrappers);
  - `algorithm`, `algorithms` — the targeting interface and the two rules,
    with their exact choices and operation counts;
  - `drone`, `enemy`, `ids` — the actors;
  - `world` — one tick of a round: sensing, deciding, locking, killing, with
    the well-formedness it keeps;
  - `laws` — properties of every tick (kills are final, the lock-time rule,
    the smaller id wins a conflict, sensing keeps the nearest in range);
  - `config` — validation of the parameters;
  - `metrics` — counts, totals and percentiles of a round;
  - `persist` — the rows a round leaves in the store and the one-round-at-a-time
    protocol, with the law that every enemy ends with exactly one outcome row;
  - `session` — the seeds of the rounds of a session;
  - `plot` — XML escaping for the SVG output.
- `app/` is the program around it: positions and motion (floating point),
  SQLite, CSV and SVG output, the command line, and the learned transformer
  policy.
- `tests/` runs the library on concrete rounds.

Distances and ranges reach the library as the bit patterns of their `f64`
values. The library compares them as `f64` does, reading sign, exponent and
NaN from the bits (`order`): `f64::total_cmp` for ranking contacts, and the
IEEE `<` and `<=` for ranges and the nearest friend.
