# tp_concurrentes

Two concurrent programs with a verified core.

* **Site statistics.** Reads JSON-lines dumps of question sites, counts
  questions and words per site and per tag (in parallel, a chunk of files per
  worker), sums the tags over all sites and ranks the ten sites and tags with
  the most words per question.
* **Ice-cream shop.** Screens send orders, a payment gateway captures and
  settles payments, an order manager hands orders to robots, and robots take
  tastes from a shared stock one at a time under a token-ring mutex.

## Layout

* `src/` is the library, verified with Verus: every decision the programs
  make (word counts, tag and site statistics, the top-ten rankings, chunking,
  argument handling, reading the orders and stock files' text, stock keeping, routing of orders by
  status, robot bookkeeping, the token ring) with its contract, and the laws
  that hold across calls.
* `tests/` runs the library on concrete values.
* `app/` is the programs around it: command lines, files, sockets, threads,
  actors, the (de)serialisation of messages, and the money amounts, which are floating
  point.
