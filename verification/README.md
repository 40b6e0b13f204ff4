# ns_pixels

A live map of the Dutch railway network on a 64x64 LED matrix, driven by an
ESP32-S3.

Train positions come in over a ZeroMQ feed, as gzipped XML. The registry keeps
every train that was seen in the last five minutes, asks the NS API for its type
and its service category, and renders the trains as colored pixels, either of the
whole country or of the Randstad.

- `src/` is the library. It holds everything that decides or computes, is
  verified with Verus, and does no I/O.
- `app/` is the firmware around it: Wi-Fi, sockets, HTTP, flash, buttons and the
  panel.
- `tests/` exercises the library on concrete inputs.

## The library

| Module | What it holds |
| --- | --- |
| `zmq` | ZMTP 3.0 subscriber: greeting, handshake, frames, messages |
| `gzip`, `decompress` | the gzip envelope, and inflating a payload to text |
| `xml_parser`, `xml_doc` | trains from a whole document, on top of `xmlparser` |
| `train_xml`, `train_doc` | trains from a document in chunks, with O(1) state |
| `schema`, `text` | what both parsers share; reading and writing numbers |
| `feed` | from a message to the registry |
| `registry`, `train_map`, `number_buf` | the trains on the network |
| `ns_api` | enrichment: batches, rounds, responses |
| `clusters`, `display`, `bits` | snapshots of the map, colors, animation |
| `map_mode`, `projection` | which part of the canvas is shown, and where |
| `input`, `accel`, `persist` | buttons, orientation, stored settings |
| `train`, `time` | train types and states; the clock |

Proof functions whose names start with `law_` state what holds of the library as
a whole.

What the library takes from other crates (`heapless`, `miniz_oxide`, `xmlparser`)
stands behind functions marked `external_body`; the comment above each says what
is relied on.
