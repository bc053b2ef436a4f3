# chiffre_aes_core

Encryption of files and folders into a single `.enc` container: AES-256-GCM in
chunks, a key derived from a password with Argon2id (or given as raw bytes), an
internal archive whose files are compressed one by one, and a password policy.
The library is written in Verus: each function states what it returns, and the
statement is proved.

## Layout

- `src/crypto.rs`, `src/secret.rs`: keys, nonces, key derivation, one encrypted
  buffer, values that are erased when they are dropped.
- `src/format/`: the container. `header` and `recipients` hold the two header
  versions, `plan` the cutting into chunks, `container` what the bytes of a
  container are, `stream` the encryption and decryption chunk by chunk, `memory`
  and `raw_key` whole containers in memory.
- `src/archive/`: the internal archive. `pack` writes it, `extract` decides step
  by step what to do with one that is read, `unpack` reads one in memory, `path`
  and `listing` hold the rules on paths and on the order of entries, `laws` what
  holds of writing and reading together.
- `src/compress.rs`: compression of one file, decompression under a limit.
- `src/pipeline.rs`: the whole way, from a selection of files and folders to its
  container and back, and how failures are reported.
- `src/password_policy.rs`: what a new password must meet, and the pieces in
  which its strength is estimated.
- `app/`: a command-line program around the library: files, folders, permissions.
- `tests/`: tests of the compiled library.

## Laws

The public proof functions whose names start with `law_` state what relates
several functions: a container opens to what it was made of, every cut of it is
found truncated, every addition corrupted, no two nonces of a container are the
same, a selection that was encrypted comes back, and no extracted path leaves the
destination.

That an altered chunk is found rests on AES-GCM itself. What is proved is that a
container is accepted only if every tag in it is authentic at its place, and is
then byte for byte the container of what comes out.

## What is trusted

The functions marked `external_body` call `aes-gcm`, `argon2`, `flate2`, `rand`,
`sha2`, `zeroize`, `zxcvbn` and two functions of the standard library. The doc
comment of each says what its contract claims.
