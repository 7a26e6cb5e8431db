# linux_tuples_client

A client for a LinuxTuples tuple-space server, written in Verus.

- `src/` is the verified library: the little-endian encoding of fixed-width fields
  (`wire`), the wire form of tuples with its encoder and decoder (`tuple`), the proof that
  a receiver reads back what a sender wrote (`roundtrip`), the framing rule that tells a
  receiver how many bytes to read and the decoding of replies with several tuples
  (`frame`), and the requests and reply handling of each operation (`client`).
- `app/` performs the network exchanges over TCP and holds a small demonstration program
  and a command sender.
- `tests/` runs the library on concrete messages.
