# jdepp_rs

Reading the output of the J.DepP Japanese dependency parser.

J.DepP prints its analysis in the CaboCha format: a header line
`* <id> <head><type>` for each chunk, the morpheme lines of the chunk, and a
closing `EOS`. The library turns that text into a `ParsedSentence`
(chunks with their id, head, dependency type and tokens), and its error
types carry the messages the engine binding prints.

Layout:

- `src/text.rs`: whitespace, lines, words, trimming and decimal numbers,
  specified over `Seq<char>`, with the scans that compute them.
- `src/types.rs`: `Token`, `Chunk`, `ParsedSentence`, the error types, and
  their views.
- `src/cabocha.rs`: the format as a specification (`cabocha`) and the parser
  `parse_cabocha_like`, proved to compute exactly that specification;
  `parse_jdepp_output` for what the engine answers.
- `src/message.rs`: the error messages.
- `src/laws.rs`: properties proved of every input (nothing after `EOS` is
  read; blank and comment lines and trailing whitespace do not matter; the
  probability after `@` in a header is ignored; the shape of a parse).
- `app/`: the binding to the C++ engine over its C ABI, and a small demo
  program.
