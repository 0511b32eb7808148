# vc_reader

Reads VeraCrypt containers: unlocks them with a password, decrypts their data area and
browses the exFAT or NTFS filesystem in it.

- `src/` is a Verus library. Every function with a body states in its contract what it
  returns, and Verus proves it. The methods of the traits `Filesystem` and `Sink` are for
  users to implement and promise nothing.
  - `veracrypt`: the header, and the decrypted data area as a block device.
  - `crypto`: key derivation, AES-256 in XTS mode and its tweaks. `crypto::primitives`
    holds the calls into the cryptographic crates; what they compute is taken on trust.
  - `fs`: recognising a filesystem, and how exFAT and NTFS directories are walked and
    searched. `fs::exfat_laws` and `fs::ntfs_laws` prove what walks and searches find.
  - `tui`: the tree of a listing, the browser on it, and extraction.
  - `path`, `format`, `text`, `bytes`, `failure`: what the others are built from.
- `app/` is the program: it reads files and the keyboard, draws the screens and calls the
  filesystem crates, and asks the library at each step what to do.
- `tests/` runs the library, on a whole container among others.
