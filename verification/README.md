# libxcp

The core of a tree copier and tree mirror for Unix, verified with Verus.

The library decides; a driver acts. Every run is a conversation: the driver
hands the library an event, the library answers with commands to carry out and
with the next question to put to the file system. All of the logic is in plain
functions from state and event to state and reply, so each of them has an exact
contract.

- `path`, `path_set`, `entry`: lexical Unix paths, and where an entry of a
  source belongs at the destination
- `metadata`, `config`, `error`, `protocol`: what the library reads of a file,
  the options, the errors, and the words of the conversation
- `tree`: copying sources into a destination
- `sync`, `prune`, `checksum`: mirroring a source, removing what it lacks, and
  comparing files by BLAKE3 digest
- `stamp`: timestamps and permissions of directories, once all is written
- `copy`: copying one file, in pieces, sparse or by sharing blocks
- `mirror`: what mirroring achieves for one entry, as proofs
- `world`: a model of a file system, and runs on it that are told the truth. What
  a run leaves to workers is done there at any time and in any order; what it is
  to remove or to compare, after the walk in any order
- `ground`, `care`, `course`, `work`, `replica`: such runs make a replica
- `record`: what they order for files with several names
- `rest`: a run on a replica has nothing to do
- `sample`: one such run from its beginning to its end
- `conduct`: what holds of every run, whatever it is told

`app/` is the driver: it walks directories, performs the commands and runs the
worker threads. `tests/` runs the library, mirroring on a file system in memory
among others.
