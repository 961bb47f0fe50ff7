# gamestore

Install and launch GOG games from the Steam library: the library that decides what
gets written where, with its decisions stated as contracts and proved by Verus,
and a thin command-line program around it. Where an answer comes from outside
(GOG over HTTP, the token store, the disk), the contracts say what holds of every
answer, and the functions that read an answer have exact contracts. `HttpClient`
and `TokenStore` tie each answer to the request it answers (`answered`, `loaded`,
`saved`, `cleared`), so the contracts of the login, the refresh and the library
fetch say which addresses are asked for, with which bearer, and what is made of
each answer. A client or store written outside Verus says nothing more of its
answers than that they are some answer.

- `src/` is the verified library. `vdf` reads and writes Steam's binary VDF, with
  the round trip proved both ways; `shortcuts` edits `shortcuts.vdf` without
  touching what it does not own; `steam` derives Steam's appids (CRC-32 included);
  `registry` keeps what is installed and recovers from interrupted work; `catalog`
  reads the GOG library; `auth` and `tokens` run the OAuth2 login and keep the
  session fresh; `config`, `platform`, `linux`, `windows`, `tiles` and `atomic`
  hold the per-machine rules. `json`, `text`, `order` and `time` are the small
  pieces the rest is built from.
- `tests/` runs the library on concrete values.
- `app/` is the `gamestore` binary: the command line, the terminal, the files, the
  network and the keyring, each handing plain values to the library.
