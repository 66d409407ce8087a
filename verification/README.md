# katch2

NetKAT expressions say what happens to packets. This library decides whether an
expression drops every packet, finds words of it, and fills holes in expressions so
that bounds on their words are kept. It is written in Rust and verified with Verus.

- `sp`, `spp`, `bdd`: sets of packets and relations on packets, as shared diagrams.
- `expr`, `parser`, `desugar`, `negation`: expressions, their surface syntax, and the
  sugar in it.
- `lang`, `kleene`: the languages that expressions have.
- `aut`: symbolic automata of expressions.
- `analysis`: what a text allows, and how two texts differ.
- `holes`: automata with invisible states (`aut`, `closure`, `elaborate`, `explicit`,
  `ops`, `reach`, `search`, `subset`, `table`), expressions with holes (`nk_with_holes`,
  `normal`, `heads`, `inst`, `weigh`), learning (`trie`, `learner`, `cand`, `solver`,
  `smt`), and synthesis (`candidate`, `ground`, `escape`, `cut`, `network`, `cegis`,
  `problem`, `parser`).

`app/` holds the command line and the bindings for the browser.
