//! Multiplexed media streaming: packet formats, reordering and reassembly of
//! unreliable datagrams, stream-per-group delivery, endpoint negotiation and
//! routing, clock synchronisation.

pub mod audio_unreliable;
pub mod audio_recv;
pub mod audio_run;
pub mod av;
pub mod cert;
pub mod clock_sync;
pub mod control;
pub mod delivery;
pub mod endpoint;
pub mod error;
pub mod fec;
pub mod forwarder;
pub mod forwarder_run;
pub mod framing;
pub mod gopstream;
pub mod kypacket;
pub mod numbering;
pub mod pending;
pub mod raptor;
pub mod reassembly;
pub mod recovery;
pub mod reliable;
pub mod router;
pub mod run;
pub mod sequencer;
pub mod text;
pub mod transport;
pub mod waiters;
pub mod waiting;
pub mod webtransport;
pub mod wire;
