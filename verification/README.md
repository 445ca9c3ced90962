# orbweaver_giop

A GIOP/IIOP client and naming library whose logic is verified with Verus.

- `src/` — the verified library: CDR encoding (`cdr`), GIOP messages, framing,
  fragmentation and reassembly (`giop`, `message`), object references and their
  stringified form (`ior`), code sets (`codeset`: the component servers publish, the `char` code set a client agrees with a profile, and the `CodeSets` context announcing it), CosNaming names and URLs (`naming`), the naming
  servant (`naming_server`), endpoint rewriting behind NAT (`rewriting`), the ORB's
  initial references and configuration (`orb`), the decisions of a connection pool
  and of forwarded calls (`pool`), the bookkeeping of a multiplexed connection
  (`mux`), what one connection decides about a call (`invocation`), and every
  failure as a sentence (`display`).
- `app/` — the transport around it: sockets, timeouts, locks and the environment.
- `tests/` — the library's tests.

Code sets: a connection agrees a `char` code set with the profile it dials
(this client's component is native UTF-8, converting to ISO-8859-1), keys
pooled connections by it, announces it once in a `CodeSets` context, and
refuses to send under an agreement it does not encode to unless the caller
takes over conversion. Converting string arguments into ISO-8859-1 is left to
that caller: the library's own encoder writes UTF-8 only.

CDR: the encoder and decoder in `cdr` are part of this crate, written and
verified against the wire format (§9.3), so the library depends on no other
crate.
