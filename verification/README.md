# simd_toon

A decoder for TOON (Token-Oriented Object Notation) documents whose logic is
verified with Verus.

Decoding runs in four steps, each a module of `src/`:

* `comments` blanks comment lines in place;
* `stage1` indexes the offsets of the structural bytes;
* `stage2` builds a tape (the document as nodes in pre-order) with an
  indentation-driven state machine. It is proved to hand out only tapes that
  hold exactly one value, each of whose scalars and strings is what some byte
  range of the document decodes to, and whose integers are `I64` only where
  they are not positive (which the tapes and values handed out by `parser`
  keep). For a document that is one value, and for one whose
  root object holds only `key: value` lines, `key:` lines, inline arrays
  `key[N]: v1,...`, empty arrays `key[0]:` and objects nested under keys (to
  any depth, closed by dedents), the tape itself is stated (`lone_value`,
  `object_document`), as is when such a document is refused; so is the value
  the `Parser` and `to_*` functions decode such a document to. Each step of
  the machine (a header, a value, a cell, a table row, the end of a scope)
  states exactly when it succeeds, and the cells of inline arrays, table rows
  and list items state the node each one adds;
* `value` reads the tape into a tree of values, where a key that an object
  repeats keeps its first position and its last value, and writes trees back
  into tapes.

`scalar` decodes tokens (numbers, literals, quoted strings with escapes),
`options` holds the decode options, and `parser` ties the steps together
behind `Parser`, `Deserializer`, `Tape` and the `to_*` functions.

`app/` adds what Verus does not see: serde integration (numbers written with a
fraction or an exponent are read as `f64` there) and reading from `std::io`.
