# blend

A serving stack for mixture-of-experts models: scheduling, paged cache memory, expert
caching and placement, weight files, and an HTTP front.

* `src/` is the library. Its functions state in `requires` and `ensures` what they do, and
  Verus proves it. Laws that relate several functions are public proof functions whose names
  begin with `law_`.
* `tests/` runs the library on concrete values.
* `app/` is the command line around it: files, sockets, threads, and arithmetic on
  floating-point numbers.

What the library takes on trust is little: how `serde_json` reads JSON (`src/json.rs`), and
`String::push` and `String::from_utf8_lossy` (`src/text.rs`). Each such item says in its comment what is claimed of it.
