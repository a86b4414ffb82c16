# walrust

A small peer-to-peer file store. A bootstrap server keeps a routing table of
nodes and of stored files, admits nodes, routes uploaded files to nodes and
fetches them back; storage nodes keep the files; a configuration file sets
up the file system.

- `src/` is the verified library (Verus):
  - `protocol`: the request header format and its parser;
  - `table`: the routing table, kept in key order;
  - `routing`: joining the network, routing uploads, locating files, the
    directory structure and reading the routing table file;
  - `keys`: table keys, the hex SHA-1 of a text (through the `sha1` and
    `hex` crates);
  - `config`: the user configuration and how each configuration line
    changes it;
  - `decimal`, `text`: decimal numbers and text operations with their
    specifications.
- `app/` holds the programs (`bootstrap-server`, `node`, `filesystem`,
  `protocol-demo`): HTTP with axum, calls to nodes with ureq, files and
  directories.
- `tests/` runs the library on concrete values.
