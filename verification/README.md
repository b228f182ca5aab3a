# optdbg

A query optimizer debugger. It takes the plan that an optimizer chose for a query and the plans
that it could have chosen, runs all of them, and reports where the optimizer's estimates were wrong.

`src/` is the library. It is written in Verus: its functions carry contracts that are proved.

- `common`: physical plans, how they are compared and shown, and why a plan has no measurement.
- `sampling`: alternative plans, out of the optimizer's memo table or by other sets of rules.
- `benchmark`: statistics over runs, the cache of outcomes, which subplans are run, and how well
  the optimizer did.
- `analysis`: what is wrong with the nodes of plans, how often, and the report.
- `float`, `duration`, `text`, `hashing`, `ranking`: double precision numbers by their encoding,
  spans of time, decimal texts, hashes and stable sorting.
- `cli`: arguments and texts for the command line.

`tests/` holds the tests of the library. `app/` is the program around it: it talks to the
optimizers, runs plans in processes of their own, and prints.

Two functions on numbers come from outside, as arguments: the exponential function, and the shortest
decimal text of a number.
