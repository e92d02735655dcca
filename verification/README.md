# srgn

A code surgeon: scopes text (by regular expression or literal string) and acts on the
parts in scope (replacing, deleting, changing case, normalizing, turning ASCII symbols
into their Unicode equivalents and back, writing German umlauts and eszett where a word
list confirms them). The library in `src/` is verified with Verus; `app/` is the command
line program around it.

## Layout

- `src/scope.rs`, `src/regex.rs`, `src/literal.rs`: scopes and the scopers that make them;
  `src/view.rs` acts on what is in scope and puts the input back together.
- `src/actions*`: the actions. `actions/symbols*` replace ASCII symbols and undo that;
  `actions/german.rs`, `betterletters/` and `modules/` hold the German machinery: a state
  machine finds words and their possible special characters, and the word list decides.
- `src/ranges.rs`, `src/grep/`: ranges, merged and subtracted.
- `src/common*`, `src/iteration.rs`, `src/iterext.rs`: titlecasing, compound words,
  power sets, zipping in parallel. Power sets and combinations are stated and proved
  here directly rather than taken from itertools: their whole behaviour is a spec
  function of a few lines.
- `src/options.rs`, `src/run.rs`: the options of a run, the actions and scoper they make,
  and the decisions of a run over standard input or many files.
- `src/find.rs`, `src/instrament.rs`, `src/langs*`: file types and shebang scanning, file
  names for test data, prepared queries.
- `src/strs.rs`: string helpers and the trusted wrappers of `std`'s string functions.

Laws that span functions stand as public proof functions, such as
`actions::symbols::lemma_symbols_idempotent`,
`actions::symbols::inversion::lemma_inversion_undoes_replacement`,
`scope::lemma_invert_twice`, `iteration::lemma_power_set_len`,
`view::lemma_no_actions_give_input`,
`betterletters::modules::german::machine::lemma_machine_words` (the machine is within a
word exactly after an alphabetic character, its word the alphabetic end of what it
read),
`betterletters::modules::german::machine::lemma_driven_untouched` (text without any
spelling of a special character passes the German machinery unchanged) and
`betterletters::stages::lemma_piping` (chaining stages line by line is piping the
output of the first ones through the others, where those keep lines as lines, as
`betterletters::stages::german::driver::lemma_stage_keeps_lines` shows of the German
stage).

Replacements found in German words are byte ranges of the word's UTF-8 encoding; the
machine only records ranges that fit the word, in order, so that every combination of
them can be made.
