# find_pazl

A search tool for key-range puzzles: it walks candidate private keys of a
fixed number of hex digits, derives each compressed public key, and looks
its key hash up in a list of legacy addresses.

- `src/` is the verified library (Verus):
  - `text`: padding, first words, decimal numerals and integer parsing,
    the default configuration text;
  - `config`: the six configuration lines;
  - `digits`: positional numerals in any base and their lemmas;
  - `base58`: the exact meaning of the `base58` crate's encoder and
    decoder, and the round trip between them;
  - `hashing`: SHA-256 (`sha2`) and double SHA-256;
  - `address`: legacy addresses, reading the key hash back, the set of
    searched hashes;
  - `keys`: hex candidates as private keys, compressed public keys
    (`secp256k1`);
  - `search`: the odometer-style enumeration of candidates.
- `app/` is the program around it: files, threads, terminal output, the
  RIPEMD-160 key hash (`sv`), and the Windows DLL bindings.
- `tests/` holds the tests.
