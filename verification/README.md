# lance_inspector

The logic of a read-only web inspector for Lance datasets, written and verified
in Verus, with an ordinary server around it.

- `src/` is the library. Every function has a contract, and laws that span
  functions are public proof functions.
  - `text`, `number`, `names`, `ident`: texts, numbers, ordered names, identifiers
  - `error`: failures and how they are answered
  - `cache`, `slots`, `state`: bounded caches and what is kept between requests
  - `sql`, `plan`, `query`, `cursor`: which queries are run, and their pages
  - `schema`, `batch`, `rows`, `blob`, `media`: columns, batches, rows, blobs and
    byte ranges
  - `dataset`, `snapshot`, `files`, `transaction`: references and what is shown of
    a dataset
  - `models`, `profile`: requests and responses
- `tests/` runs the library on concrete values.
- `app/` is the server: HTTP, storage, conversion to and from other crates' types.

Calls into other crates stand behind small functions whose contracts are taken
on trust; their doc comments say what is claimed and what is left unsaid.
