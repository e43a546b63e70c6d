# wolf_mem

The memory checker of the wolf language, as a verified library.

- `src/` holds the checker. Static checking goes from checked bodies (`ast`)
  through the lowering walk (`lower`, `lowering`, `walk*`, `low*`) to control
  flow graphs (`cfg`), over which moves (`moves`), call exclusivity (`excl`) and
  loans (`loans`) are decided; `regions` infers allocation regions, `shared`
  finds reference cycles, `boundary` checks unsafe signatures, `byteview` decides
  byte-view lends, `facts` records what code generation may rely on, and
  `package` puts it together.
- Checked execution is a function of the program, a budget, the standard input
  and the host's answers. `semantics`, `evaluate` and `builtin` say what a
  program does; the `run*` modules do it; `shadow` is the tagged memory under
  it. Where a program asks for something only the host can do, the run stops
  with the question.
- `app/` answers those questions with real files, sockets, processes, clocks and
  floating point, and runs the program again with the answers recorded.
