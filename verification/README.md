# storage

Server side of a peer-to-peer distributed file storage. Users sign up and
register devices as peers; an uploaded file is cut into pieces, each piece
is erasure-coded (RaptorQ) into chunks that are spread over the peers, and a
file is read back by fetching its chunks, checking each against the SHA-256
hash it was sent with, penalising the peers that returned bad chunks and
decoding the pieces.

## Layout

- `src/` is the verified library (Verus). For every request it computes the
  CQL statements to run and the reply to give, from the request and from
  what the database answered:
  - `query`, `schema`: statement text and the schema;
  - `columns`, `json`, `text`, `encoding`, `hashing`: ordered column maps,
    JSON maps of strings, integer and string formatting, base64, chunk hashes;
  - `upload`: upload size, piece plan and round-robin chunk placement;
  - `distribution`, `coding`: piece order, chunk encoding and decoding, the
    peer selection rows and the piece records written when chunks are sent or
    deleted;
  - `retrieval`, `penalties`: chunk checks, peer penalties and the decoding
    of the pieces back into the file when a file is read;
  - `services`: the remaining request handlers.
- `app/` runs the server: Cassandra and zenoh sessions, the request loop,
  the protobuf encoding of messages and file I/O.
- `tests/` exercises the library on concrete values.
