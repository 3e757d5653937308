# matchmaking

A client for a matchmaking test system. The test system lists the players
waiting for a match; the client forms matches, submits them, and repeats
round after round until the test system says that the last round is over.

- `src/` is the library, verified with Verus: the data exchanged with the
  test system (`models`), the endpoint addresses, the ping and round
  decisions, the test names, and the arithmetic that weighs a match
  (medians of ratings, rating gaps by role), with the laws that hold of it.
- `app/` is the program around it: HTTP requests, JSON, logging and the
  worker threads.
- `tests/` runs the library on concrete values.
