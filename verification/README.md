# 새롬 (saerom)

The front end and run-time helpers of 새롬, a programming language whose
statements follow Korean grammar: words carry particles (`x는 3이다.`,
`값을 출력한다.`), and verbs are conjugated.

The library is written in Verus. Every function in `src/` is verified
against its contract, except four one-call wrappers of std whose
contracts are trusted: `String::push`, `char::from_u32`,
`char::is_alphanumeric`, and the `Debug` form of a character.

- `hangul`, `words`: syllables, conjugation, and the fixed words of the
  language (particles, the copula, keywords, built-in verbs).
- `lex`: source text to tokens, cutting each word into name, verb, copula
  and particles, and tracking blocks by indentation.
- `prescan`: the survey of a source before it is lexed for real — declared
  names, defined verbs, definitions and imports, and the steps the driver
  takes for each imported module.
- `parse`: the parser's token cursor and error recovery, reading verbs and
  reducing them with the slots before them, the shape of statement lines
  and of definition heads, and the rewriting of comparison words and
  copula sentences.
- `phrase`: reading values out of a sentence — one value, the field
  names after it, values joined by `와`/`과`, the expression embedded in a
  template — and the condition of `만약`.
- `ast`, `hir`: the syntax tree and the lowered program.
- `dump`: the token, syntax-tree and lowered-program dumps.
- `assign`: the definite-assignment check (a local read where some path
  may not have assigned it).
- `load`, `resolve`: the loaded units, the order to load them in, and the
  name tables and helpers of name resolution.
- `sig`, `builtins`: verb signatures and the built-in operations.
- `nothing`: the check that finds each use of a value that may be 없음
  where a real value is needed, following which places a test against
  없음 or an assignment has made known.
- `types`: the type lattice and the inference of the types of places and
  results, run to a fixed point; the type of an expression; which bodies
  always return; the text constants that globals set once hold.
- `reuse`: the places whose text may grow in place instead of being
  copied: text only ever set to new values, never handed on, and no
  loop's counter, item or subject.
- `emit`: bodies that call the program's functions, and the code
  generator's machinery: temporaries, labels and slots,
  boxing and unboxing, places, frames, string constants, closing a
  function and the finished LLVM module.
- `value`, `text`, `ops`: run-time values, tables and integer arithmetic.
- `msg`, `report`, `diag`: messages and how diagnostics are rendered.

`app/` is the command-line driver: it reads files, follows imports, and
prints the token stream (`--dump-tokens`).
