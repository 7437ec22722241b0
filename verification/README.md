# picaro_rs

A masked implementation of the Picaro block cipher (a 12-round Feistel network on
128-bit blocks with a 128-bit key), verified with Verus. Every secret is held as
`SHARE_COUNT` Boolean shares whose exclusive or is the secret; the masks are refreshed
with a ChaCha20 generator.

What is proved:

- splitting, merging, refreshing and adding shares keep the secret;
- the masked field operations (squaring, multiplication of bytes in GF(2^8) and of
  nibbles in GF(2^4)) compute, whatever the random masks, the operation on the
  secrets; the field products are bilinear and commutative;
- expansion, compression and the key schedule are linear, and their masked forms
  commute with merging;
- every function that draws random words has a counterpart ending in `_with` that
  takes those words as arguments and states each share of its result exactly: split
  shares are the masks plus the masked secret, refreshed shares have the masks added,
  and each share of a masked product is its diagonal product plus a row of the table
  that the random words fill; the drawing functions draw the words in order and hand
  them on;
- the field products are the remainders of the polynomial products on division by
  the field polynomial;
- the masked S-box and the masked AES S-box compute their unmasked counterparts; the
  addition chain for `x^254` yields the inverse in GF(2^8);
- `Picaro::encrypt` and `Picaro::decrypt` return the unmasked Picaro encryption and
  decryption of the block, for every number of shares and every generator output,
  and decryption and encryption undo each other.

Layout: `src/bytes.rs` (bytes of a word), `src/masking.rs` and `src/masking/`
(shares and masked field arithmetic), `src/expansion.rs`, `src/compression.rs`,
`src/key_schedule.rs`, `src/s_box.rs`, `src/aes.rs`, `src/rng.rs` (the generator,
declared for verified code) and `src/lib.rs` (the cipher).

The S-box maps a byte, seen as a pair of nibbles `(h, l)` in GF(2)[x]/(x^4 + x^3 + 1),
to `(h^2 l, l^2 h)`.
