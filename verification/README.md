# bridge_backend

The verified core of a backend that monitors wind-induced vibration of
ancient suspension bridges and searches for better aerodynamic deck shapes.

- `src/` is the library, verified with Verus:
  - `catalog`: looking a bridge up by its identifier;
  - `response`: the envelope in which every answer is sent;
  - `recent`: the cache of the latest evaluation of each bridge;
  - `handlers`: which bridge a request names, and where the answer to a
    request for a bridge's latest evaluation comes from;
  - `rng`: the random generator and the draws the library makes from it;
  - `genetics`: deck families and the stabilizer plate count mutation;
  - `population`: the stable fittest-first sort and tournament selection;
  - `optimizer`: the genetic search with elitism, over any `ShapeSearch`.
- `app/` is the HTTP server (actix-web) around it, and everything that
  computes with floating-point numbers: the aerodynamic model, the fitness
  of a deck shape, crossover and mutation of its real-valued fields.
- `tests/` exercises the library on concrete values.

The bridge catalogue is read by the server from the JSON file named by
`BRIDGES_FILE`.
