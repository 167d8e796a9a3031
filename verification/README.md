# tpu

Encoding-aware reading, writing, searching and editing of text files, with contracts
that Verus proves.

- `src/` is the library: what each command computes from the bytes of a file, and what it
  refuses. Every function states what it returns for every input.
  - `text`, `num`, `lines`, `paths`, `json`: texts, numbers and values.
  - `escape`, `data_format`: the escape codec, hexadecimal digits and Base64.
  - `encoding`, `encoding_laws`, `layout`, `source`: encodings, byte-order marks and line
    endings of files.
  - `pattern`, `glob`, `hash`, `diff`, `branch`, `walk`: what comes from outside crates, and
    what is made of it.
  - `cmd`: the commands.
- `app/` does what touches the world: files, directories and JSON.
- `tests/` runs the library.

The public proof functions named `law_…` state what holds of several functions together:
that an escaped text comes back, that edits may be given in any order, that a preview
predicts the write, and so on.
