# guixu

An embedded store made of append-only boxes, whose logic comes with machine-checked proofs.

Every box keeps one or two generations of files. A generation is an index of twelve-byte
items (the big-endian store position and signed length of each entry) and a store that
entries are appended to; a small metadata file names the working generation. On top of
these numbered entries sit three kinds of boxes:

- `ByteArrayBox`: raw byte entries under numeric ids;
- `TypedBox<T>`: records that carry their own id, stored as bytes that the caller's
  serializer produces;
- `KVBox`: typed values (booleans, integers, floats by their bits, strings, arrays) under
  string keys, with a key map file that holds one record per key. Canonical decimal keys
  are kept in a dense array indexed by their number.

## Layout

- `src/` is the verified library. It holds every file as the byte image of its mapping
  (`file_access`), and states what each operation does to those images and to the
  contents they stand for:
  - `byte_ops`: big-endian encodings and their round trips;
  - `file_access`: growing files with a length footer, and fixed-size files;
  - `basic_box`: the numbered entry box, lookups across generations, compaction;
  - `byte_array_box`, `typed_box`: the two id-keyed boxes;
  - `kv_key`, `kv_value`, `key_map`, `fx_collections`, `kv_box`: the key/value box, its
    key classification, its value encodings, the key map file format, its hash
    collections and the box itself;
  - `guixu`: the database directory and the names of the files of a box.
- `app/` reads the files of a box from disk when it opens, hands their bytes to the
  library, and writes the images back on `close` or drop; it also serializes the
  records of typed boxes with `bincode`.
- `tests/` runs the boxes on in-memory images, reopening them from the images they leave.

## What is proved

Besides the contract of each operation, the library proves that a key/value box whose key
map is in step with it (`KVBox::persisted`) stays so through every successful write of a
non-empty value, every removal and every close, and that reopening it over the same files
gives back the same value under every key (`lemma_reopen_gives_view`); a compaction with a
fresh working generation keeps what reopening gives, and leaves a box that compacts again
(`lemma_compacts_again`). Each write and removal states how it moves the next id and the
append positions on, so that the room later writes need follows (`KVBox::put_room`,
`lemma_room_for_put`, `lemma_room_after_remove`).

An empty string or array is stored as an entry of length zero, and the index format reads
a zero length as "no entry here". The open box gives such a value back, but a box reopened
over its files finds no entry for that key and fails to open with `EntryNotFound`.
