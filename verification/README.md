# iomon

An IO monitor for Linux. It reads `/proc/diskstats`, the `io` and `stat` files
of all processes and threads, and the kernel's delay accounting, and shows

- the rates of devices and of one process (`iomon`),
- a ranking of processes or threads (`iomon top`),
- a page with both, and with the records of processes that take too large a
  share of IO (`iomon web`).

`src/` is the library. It holds all that is computed: parsing, rates, sorting,
the texts that are shown, the requests that are answered, the records and their
files' lines, and the messages that are exchanged with the kernel. Numbers with
a fraction are binary64 numbers that are held by their bits (`binary64.rs`,
`numeral.rs`), so that rounding, printing and reading them are proved too.
Verus proves the functions against their contracts. Three functions of the
standard library are trusted to do what is stated of them: `String::push`
(`text.rs`), `char::from_u32` (`char_of` in `json.rs`) and
`String::from_utf8_lossy` (`lossy_text` in `iotop.rs`). Public proof functions state
what holds across functions: that records survive being written and read, that
one sample over the threshold leaves a record, that no rate is below zero.

`app/` is the program around it: arguments, files, sockets, threads and system
calls.

`tests/` runs the library.
