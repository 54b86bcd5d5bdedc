# tr

`tr` copies standard input to standard output, and translates, squeezes or deletes
characters on the way.

- `src/` is the library. Its functions are verified with Verus: the reading of the
  sets (`parse`, `escape`, `construct`, `class`), membership (`operand`), translation
  (`translate`), replacement of the complement (`complement`, `sort`), squeezing
  (`squeeze`) and a whole run (`args`, `tr`). `laws` states what holds of these parts
  together.
- `app/` is the command: its options, standard input and standard output.
- `tests/` runs the library on examples.

Equivalence classes such as `[=e=]` go by the ASCII transliteration of the
`deunicode` crate. What it makes of a character outside the visible ASCII characters
is not described here; the contracts speak of it as `deunicoded`.

The proofs rest on three specifications that are believed and not proved:

- `deunicode_char` of `deunicode` depends on the character alone, and gives a space and
  each visible ASCII character as itself;
- `String::push` appends one character;
- `std::char::from_u32` gives the character with a number, where there is one.
