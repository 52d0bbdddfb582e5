# hf_mount

The logic of an encrypted mount of Hugging Face buckets and repositories,
verified with Verus.

- `src/` is the library. `base91`, `crypto`, `filename_crypto` and `encryption`
  turn names and contents into what the remote stores and back. `hub_api` says
  what is asked of the Hub and what its replies mean. `virtual_fs` keeps what a
  mount knows of the remote in step with it: poll rounds, pushed changes and the
  loops around them. `setup` says what follows from the options of a mount.
- `app/` is what surrounds it: requests, files, the clock and the command line.
- `tests/` runs the library with the crates it calls.

Ciphers, key derivation, base64, hexadecimal and dates come from other crates.
Where the library calls one, the call stands behind one function whose contract
says what is relied on. Containers in files are written and read in `app/`.
