# dns_resolver

A small stub DNS resolver whose library is verified with Verus.

* `src/dns/wire.rs` reads and writes the wire format: big-endian integers,
  byte strings, and domain names with compression pointers.  Every read is
  specified by a `decode_*` spec function that says what it gives, where it
  leaves the reader, and which error it reports.
* `src/dns/header.rs`, `question.rs`, `answer.rs` and `message.rs` decode and
  encode headers, questions, resource records and whole messages, each
  against its spec function; round trips of headers, names, questions and
  queries are proved there.
* `src/resolver.rs` holds the decisions of a query over UDP as a state
  machine: the driver sends, receives and waits, and hands back each outcome.
* `src/render.rs` makes the coloured text that presents answers.
* `src/text.rs` renders and parses decimal numbers and names the string
  functions of the standard library that the library calls.
* `app/` is the command-line program: argument parsing, the UDP socket, the
  driver loop and printing.
