# grammar

A toolkit for the classic compiler-construction exercises, written in Verus:

- context-free grammars read from text, with their terminals, non terminals and
  the symbols that derive the empty word;
- FIRST and FOLLOW sets;
- LR(0) and LR(1) item sets and their canonical families, LR(0), SLR(1), LR(1)
  and LALR(1) parse tables, and LL(1) tables;
- table driven LR and LL parsing of a token stream, with the trace of each step
  and the parse tree;
- finite automata: the subset construction from an NFA and the minimization of
  a DFA;
- flow graphs: dominators and back edges, reaching definitions and live
  variables, use-definition and definition-use chains.

## Layout

- `src/` is the verified library. Each function states its result in its
  contract; the public proof functions named `law_*` state what holds across
  calls (a grammar's class does not depend on the order in which states are found, the
  subset construction and minimization keep the language, the flow sets solve
  their equations, and so on).
- `tests/` runs the library on concrete inputs.
- `app/` is the command line front end: it reads files, calls the library and
  prints tables.

Randomness enters only through the order in which item sets are explored: it
decides how the states are numbered, while the laws say that the item sets
found, and whether a grammar belongs to a class, do not depend on it.
