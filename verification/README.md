# lemmalog

A memory of facts for agents, with what holds of it proved by Verus. Episodes are observed, the
facts in them are added under a fixed policy, and the memory is saved to a snapshot, loaded,
searched and queried.

- `src/` is the library. Every function states what it returns, over the views of the types.
  - `text`, `number`, `sorted`: characters, numbers and ordered lists.
  - `snapshot`, `persistence`: the snapshot format, and a memory in it.
  - `engine`, `update`, `agent`: the store of facts, the update policy, the memory.
  - `protocol`: the lines in which facts are told.
  - `search`, `presentation`: the search of a snapshot with a regular expression, and its formats.
  - `clause`: the grammar of facts, rules and comparisons.
  - `defaults`, `datalog`: the default rules, and the rows that hold, which are the least set that
    has the facts of the store, the time and what the rules give of them.
  - `support`, `order`, `rows`: the facts that a row rests on, the order of keys, and the rows of a
    relation.
  - `batches`: rules that are installed and taken back.
  - `query`: goals and rules for one query, and explanations.
  - `context`, `news`: the window that is assembled for a query about entities, and what it tells of
    what was created since the last turn.
  - `cli`, `args`, `workspace`, `evidence`, `clock`: what the program decides.
  - `codec_laws`, `search_laws`, `store_laws`, `default_laws`, `program_join`, `program_laws`,
    `update_laws`, `memory_laws`, `query_laws`, `extraction_laws`, `presentation_laws`: what holds
    across functions.
- `app/` is the program: arguments, files and `git`.
- `tests/` runs the library.

The rules of a memory are facts, which are asserted, and rules over atoms and comparisons, which
may be recursive. They stand beside the default rules: goals, queries, explanations, the update
policy and the context window all go by the rows that hold, which the rules are followed for to
their end. A row that rules give has the confidences and the references of the facts that it rests
on. Batches of rules can be installed later, and taken back. Negation, aggregates and arithmetic are
not read. A search reads the facts of a snapshot alone. The program has no interactive session.

A confidence is kept as a text, a short decimal number in its shortest form; to order facts by it is
left to the caller of the context window.
