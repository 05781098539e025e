# namegen

Generates random names from a small text grammar (rules of `|`-separated
alternatives with `<rule>` references, `[a-z]` character classes and `:N`
weights), verified with Verus.

- `src/text.rs` — character predicates, UTF-8 byte measures, `lines`, trimming,
  searching and decimal formatting, each with its spec.
- `src/grammar.rs` — the grammar types and their models, the file format as
  spec functions (`grammar_of`), the verified parser `parse`, error rendering,
  and its laws: a parsed grammar is well formed, its rules are those of the
  rule lines with one alternative per segment, parts are well shaped and
  write back to their text, and every error points into the file.
- `src/generate.rs` — the splitmix64 generator, weighted and uniform picks,
  generation as spec functions (`generation`) and the verified `generate`,
  with its laws: weights give proportional shares, generation is
  reproducible, names lie in the grammar's language, and grammars whose
  reference chains stay within the depth limit always generate.
- `src/cli.rs` — argument reading, the casing formats and the start-rule check
  (with its sorted listing of rule names).
- `app/main.rs` — the command: reads arguments, the file, the clock; prints.
