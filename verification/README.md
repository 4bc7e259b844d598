# h2_fingerprint

Passive HTTP/2 client fingerprinting, verified with Verus.

The library watches the first bytes that a client sends on an HTTP/2 connection
and derives a fingerprint of the form `settings|window|priorities|order`, such as
`1:65536;2:0;4:6291456;6:262144|15663105|0|m,a,s,p`. It copies at most 32 KiB of
the bytes, and gives no fingerprint rather than a wrong one: a frame of the wrong
size anywhere in the preamble ends sniffing. That the bytes themselves reach the
reader unaltered rests on the stream in `app/`, which is not verified.

* `src/preamble.rs`: the model, that is what the bytes of a connection come to
* `src/sniffer.rs`: the frame walker that computes it as bytes arrive
* `src/hpack.rs`: the walk over a header block for the order of pseudo-headers
* `src/text.rs`: decimal numbers and separated lists
* `src/tap.rs`: what a stream does after each read
* `src/outlet.rs`: the writing end of the cell that the fingerprint is published in
* `src/laws.rs`, `src/hpack_laws.rs`: what holds of all that together
* `app/`: a tokio stream around the library
