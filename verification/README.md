# noesh_mini

A small Unix shell. The library (`src/`, verified with Verus) holds its logic:

- `lexer`: turns a command line into tokens (words, `|`, `&&`) with a
  character-by-character automaton that keeps byte offsets into the line.
  Its contracts are stated over a mathematical model of the automaton on the
  line's characters and their UTF-8 byte offsets. Whitespace is the Unicode
  `White_Space` list; alphanumeric is spelled out for ASCII and, for other
  characters, is the value `char::is_alphanumeric` gives, named rather than
  spelled out.
- `parser`: builds a left-nested pipeline tree from the tokens.
- `executor`: lists the commands of a pipeline from left to right, decides how
  a list of commands is run, and builds each command's argument vector.

`app/` is the program around it: the prompt loop, reading standard input, and
starting the processes with `fork`, `pipe`, `dup2` and `execvp` from the `nix`
crate.
