# teleport

Streams iRacing telemetry over the local network, so that dashboards can run
on another machine than the simulator. What crosses the network, what is
written into the maps and the `.ibt` files, and when, is verified with
[Verus](https://github.com/verus-lang/verus).

## Layout

| Path | What is in it |
|------|---------------|
| `src/wire.rs` | little-endian integers in byte sequences |
| `src/text.rs` | decimal numbers and UTF-16 names |
| `src/protocol.rs` | fragmentation, reassembly, XOR |
| `src/sending.rs` | what a sender promises over many calls |
| `src/reassembly.rs` | what sender and receiver promise together |
| `src/codec.rs` | LZ4 compression of frames |
| `src/delta.rs` | key and delta frames |
| `src/irsdk.rs` | the layout of the simulator's map |
| `src/source.rs` | when a frame is sent, and what is in it |
| `src/target.rs` | what a message does to the map, and what silence does |
| `src/ibt_writer.rs` | contents of `.ibt` files |
| `src/stats.rs` | statistics |
| `src/telemetry.rs` | the interface to shared memory |
| `src/config.rs` | settings |
| `src/mirror/` | mirroring of whole maps with a plainer protocol |
| `app/` | the programs: sockets, clocks, files, shared memory |

The library does no input or output and reads no clock. The programs hand it
what they received and the time, and do what it answers.

What is trusted: `lz4_flex` (`codec.rs`), `lz4` (`mirror/codec.rs`) and the sort
of the standard library (`stats.rs`), each as stated there.
