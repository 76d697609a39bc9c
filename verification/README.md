# sunswitcher

Keyboard-layout aware typo correction for Russian and English text typed on Windows: a word
typed with the wrong layout (`ghbdtn`), with a typo (`дял`), or both, is replaced as soon as
its boundary (Space, punctuation, Enter, Tab) is typed; a word that any dictionary or the
learned vocabulary knows is never touched; Pause undoes the last correction and teaches the
original word.

The library in `src/` is verified with Verus: every public function states in its contract
what it returns or changes, and the laws the runtime relies on are public proof functions.

- `input`: which typed characters belong to the token before the caret; invalidation is
  sticky until an unambiguous boundary.
- `correction`: the weighted Damerau-Levenshtein cost, the lexical candidate provider (layout
  transforms, case patterns, literal punctuation), the decision engine and its laws.
- `language`, `lexicon`: dictionaries with their deletion indexes, and the learned vocabulary.
- `replacement`: the delete/insert/boundary plan of a correction and of its immediate Undo,
  and the plan for replacing selected text.
- `adaptive`: the correction session (pending correction, Undo arming) and the learning rules
  for kept and copied words.
- `persistence`: typed settings and the validation of every stored row.
- `windows`: the decisions of the keyboard hook, the clipboard listener and the events a
  replacement injects.

`app/` holds what runs around the library: the SQLite store, the background learning worker,
and on Windows the hooks, clipboard access and two manual probes. `tests/` exercises the
library on concrete values.
