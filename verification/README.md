# stacklang

An interpreter for a small golf-style stack language, verified with Verus.

The language has two stacks: a main stack shared by all functions, and a stack of its own
for each active function. Functions are named by numbers, written `N{...}`, and can be nested;
a call looks the name up in the scope of the calling code. Every other character is a
one-character instruction (`+ - * / > < =`, `s r d t`, `) ( a`, `l p [ ] _ f`, `c b`,
`i o n e`); characters that are no instruction are skipped.

Layout:

- `src/value.rs`: values, their model, printing and copying.
- `src/program.rs`: instruction pointers, names, functions, scope lookup.
- `src/syntax.rs`: the brace check and its report.
- `src/collect.rs`: finding the functions of a program and their scopes.
- `src/semantics.rs`: the meaning of each instruction and of one step of the machine, as
  specifications.
- `src/machine.rs`: the machine, whose `step` is proved to follow `semantics.rs`.
- `src/laws.rs`: properties of the language proved from the specifications.
- `app/main.rs`: the command line, file reading, standard input and output.
- `tests/`: runs of small programs and of each part.
