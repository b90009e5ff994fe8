# culinator

The verified core of Culinator, a recipe-authoring toolkit, written in Verus.

- `src/syntax`: the lossless recipe syntax. A lexer whose tokens tile the
  source, a delimiter tree that spells the source back, byte-exact text
  edits, and an outline of declarations and statements whose ranges tile
  every scope, each node ending at its first block or `;`.
- `src/semantic`: the tokens the recipe reader works on, each number kept
  as text that `f64` parsing accepts; the reader's errors; and the implicit
  intermediate resources that produced-but-undeclared resources become.
- `src/ui`: byte offsets converted to UTF-16 for JavaScript editors, the
  outline projected onto them, the editor's model types and its view of an
  operation (bindings sorted by role with their amounts, predecessors,
  labor, heat, doneness, photo, notes, range).
- `src/schedule`: critical-path scheduling of a recipe's operations, with
  dependency lags, resource contention and the critical path. Steps are
  placed round by round, each round in symbol order, each at the earliest
  moment its dependencies and the contending steps placed before it allow.
- `src/validate`: unknown resources, unknown predecessors and dependency
  cycles.
- `src/application`, `src/service`, `src/storage`, `src/nutrition`,
  `src/secrets`: the use cases' input checks, the service's command line,
  data shapes, WebSocket handshake, RPC method table and the RPC's
  decisions (refuse, answer a ping, run a route, settle its outcome and
  events), catalog helpers (book symbols, search
  queries, search index entries), and the sealing of stored secrets and the secrets file's entries.
- `app/`: the parts that touch files, the environment, randomness, JSON and
  floating point.

Not here: the recipe reader that turns a document's tokens into a recipe
(its grammar, the `prep` shorthand, formulas), and the rest of what is built
from a read recipe for the editor and the reading page (resources, the
narrative). `src/application` reaches a
reader only through the `DocumentParser` trait.
