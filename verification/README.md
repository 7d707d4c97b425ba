# kymux

Multiplexed media streaming over QUIC and WebTransport: the packet formats, the
reordering and reassembly of unreliable datagrams, forward error correction, the
delivery of video as one stream per group of pictures, the negotiation and routing
of endpoints, and clock synchronisation.

`src/` is the library, verified with Verus. It does no I/O: it turns packets into
bytes and bytes into packets, and its state machines go from a state and an event
to the next state and what to do. `app/` does the I/O around it: transports,
sockets, tasks and the command line.

| Modules | What they hold |
|---|---|
| `av`, `kypacket`, `reliable`, `framing`, `wire`, `text` | packet formats and framing |
| `audio_unreliable`, `audio_recv` | audio over datagrams |
| `fec`, `raptor`, `forwarder` | video over datagrams with error correction |
| `pending`, `sequencer` | packets waiting for their turn, unwrapped sequence numbers |
| `gopstream` | video with a stream per group of pictures |
| `endpoint`, `control`, `router`, `waiters` | negotiation and routing of endpoints |
| `clock_sync` | clock offset and network delay |
| `cert`, `transport`, `webtransport`, `error` | certificates, transports and their options, errors |
| `delivery`, `numbering`, `reassembly`, `recovery`, `run`, `audio_run`, `forwarder_run` | laws that relate several of these |

The laws are public proof functions. Each outside function that the library calls
stands behind a small wrapper in `wire` (`byteorder`, `bytes`), `raptor` (`raptorq`)
or `cert` (`rustls`, `rustls-pemfile`), whose contract is taken on trust.
