//! A stream for every group of pictures.
//!
//! A new stream is started on every key frame, and the one before is abandoned:
//! a group of pictures is transmitted reliably as long as no newer one exists.
//! The current codec packet and the current config packet are repeated at the
//! start of every stream, behind two numbers that identify them. The numbers
//! grow with every new codec or config packet; with them the receiver hands out
//! each codec packet and each config packet at most once.

use vstd::prelude::*;
use vstd::string::*;
use crate::av;
use crate::av::{AVPacket, AVPacketView, CodecPacket, MediaPacket};
use crate::error::Error;
use crate::kypacket;
use crate::kypacket::{Packet, PacketView};
use crate::reliable;
use crate::reliable::Arrival;
use crate::wire;

verus! {

/// What to do with a packet.
#[derive(Debug)]
pub enum GopAction {
    /// Nothing goes out.
    Keep,
    /// Open a new stream and write the prelude and the packet to it; then the
    /// stream before is abandoned.
    NewStream { prelude: Vec<u8>, bytes: Vec<u8> },
    /// Write to the current stream.
    Write { bytes: Vec<u8> },
    /// There is no stream to write to.
    Discard,
}

#[verifier::ext_equal]
pub enum GopActionView {
    Keep,
    NewStream { prelude: Seq<u8>, bytes: Seq<u8> },
    Write { bytes: Seq<u8> },
    Discard,
}

impl View for GopAction {
    type V = GopActionView;

    open spec fn view(&self) -> GopActionView {
        match self {
            GopAction::Keep => GopActionView::Keep,
            GopAction::NewStream { prelude, bytes } => GopActionView::NewStream {
                prelude: prelude@,
                bytes: bytes@,
            },
            GopAction::Write { bytes } => GopActionView::Write { bytes: bytes@ },
            GopAction::Discard => GopActionView::Discard,
        }
    }
}

/// The kinds of packets that make a difference.
#[derive(Clone, Copy, Debug, PartialEq, Eq, Structural)]
pub enum Kind {
    Codec,
    Config,
    Key,
    Delta,
}

/// The kind of a media packet.
pub open spec fn media_kind(is_config: bool, is_key: bool) -> Kind {
    if is_config {
        Kind::Config
    } else if is_key {
        Kind::Key
    } else {
        Kind::Delta
    }
}

pub open spec fn av_kind(packet: AVPacketView) -> Kind {
    match packet {
        AVPacketView::Codec { .. } => Kind::Codec,
        AVPacketView::Media { header, .. } => media_kind(header.is_config, header.is_key),
    }
}

pub open spec fn packet_kind(packet: PacketView) -> Kind {
    match packet {
        PacketView::Codec { .. } => Kind::Codec,
        PacketView::Media { header, .. } => media_kind(header.is_config, header.is_key),
    }
}

/// What the sender repeats: the current codec and config packets, as bytes, with
/// their numbers.
#[verifier::ext_equal]
pub struct GopView {
    pub codec_gen: u32,
    pub codec_packet: Option<Seq<u8>>,
    pub config_gen: u32,
    pub config_packet: Option<Seq<u8>>,
}

impl GopView {
    pub open spec fn initial() -> GopView {
        GopView { codec_gen: 0, codec_packet: None, config_gen: 0, config_packet: None }
    }

    /// A packet that is there has a number that is not zero.
    pub open spec fn wf(self) -> bool {
        &&& self.codec_packet is Some <==> self.codec_gen > 0
        &&& self.config_packet is Some <==> self.config_gen > 0
    }

    /// Numbers do not run out, and a key frame comes after a codec packet and a
    /// config packet.
    pub open spec fn accepts(self, kind: Kind) -> bool {
        match kind {
            Kind::Codec => self.codec_gen < u32::MAX,
            Kind::Config => self.config_gen < u32::MAX,
            Kind::Key => self.codec_packet is Some && self.config_packet is Some,
            Kind::Delta => true,
        }
    }

    /// The start of a stream.
    pub open spec fn prelude(self) -> Seq<u8> {
        wire::be_bytes(self.codec_gen as nat, 4) + wire::be_bytes(self.config_gen as nat, 4)
            + self.codec_packet.unwrap() + self.config_packet.unwrap()
    }

    /// The sender after a packet.
    pub open spec fn after(self, kind: Kind, bytes: Seq<u8>) -> GopView {
        match kind {
            Kind::Codec => GopView {
                codec_gen: (self.codec_gen + 1) as u32,
                codec_packet: Some(bytes),
                ..self
            },
            Kind::Config => GopView {
                config_gen: (self.config_gen + 1) as u32,
                config_packet: Some(bytes),
                ..self
            },
            _ => self,
        }
    }

    /// What to do with a packet.
    pub open spec fn action(self, kind: Kind, bytes: Seq<u8>, has_stream: bool) -> GopActionView {
        match kind {
            Kind::Codec => GopActionView::Keep,
            Kind::Config => GopActionView::Keep,
            Kind::Key => GopActionView::NewStream { prelude: self.prelude(), bytes },
            Kind::Delta => if has_stream {
                GopActionView::Write { bytes }
            } else {
                GopActionView::Discard
            },
        }
    }
}

fn kind_of_media(is_config: bool, is_key: bool) -> (r: Kind)
    ensures
        r == media_kind(is_config, is_key),
{
    if is_config {
        Kind::Config
    } else if is_key {
        Kind::Key
    } else {
        Kind::Delta
    }
}

/// The kind of a packet.
pub fn kind_of(packet: &AVPacket) -> (r: Kind)
    ensures
        r == av_kind(packet@),
{
    match packet {
        AVPacket::Codec(_) => Kind::Codec,
        AVPacket::Media(packet) => kind_of_media(packet.header.is_config, packet.header.is_key),
    }
}

/// The kind of a packet from a client.
pub fn kind_of_packet(packet: &Packet) -> (r: Kind)
    ensures
        r == packet_kind(packet@),
{
    match packet {
        Packet::Codec(_) => Kind::Codec,
        Packet::Media(packet) => kind_of_media(packet.header.is_config, packet.header.is_key),
    }
}

/// The start of a stream: two numbers and two packets.
fn prelude_bytes(codec_gen: u32, config_gen: u32, codec: &[u8], config: &[u8]) -> (buf: Vec<u8>)
    requires
        codec@.len() + config@.len() + 8 <= isize::MAX,
    ensures
        buf@ == wire::be_bytes(codec_gen as nat, 4) + wire::be_bytes(config_gen as nat, 4) + codec@
            + config@,
{
    proof {
        wire::lemma_be_bytes_len(codec_gen as nat, 4);
        wire::lemma_be_bytes_len(config_gen as nat, 4);
    }
    let mut buf: Vec<u8> = Vec::new();
    wire::append_u32(&mut buf, codec_gen);
    wire::append_u32(&mut buf, config_gen);
    buf.extend_from_slice(codec);
    buf.extend_from_slice(config);
    assert(buf@ =~= wire::be_bytes(codec_gen as nat, 4) + wire::be_bytes(config_gen as nat, 4)
        + codec@ + config@);
    buf
}

/// Sends video with a stream for every group of pictures.
#[derive(Debug)]
pub struct VideoGopStreamProtocolSendDriver {
    codec_gen: u32,
    codec_packet: Option<CodecPacket>,
    config_gen: u32,
    config_packet: Option<MediaPacket>,
}

impl View for VideoGopStreamProtocolSendDriver {
    type V = GopView;

    closed spec fn view(&self) -> GopView {
        GopView {
            codec_gen: self.codec_gen,
            codec_packet: match self.codec_packet {
                Some(packet) => Some(av::packet_bytes(AVPacket::Codec(packet)@)),
                None => None,
            },
            config_gen: self.config_gen,
            config_packet: match self.config_packet {
                Some(packet) => Some(av::packet_bytes(packet@)),
                None => None,
            },
        }
    }
}

/// The bytes of a media packet.
fn media_bytes(packet: &MediaPacket) -> (r: Vec<u8>)
    requires
        packet.header.wf(),
    ensures
        r@ == av::packet_bytes(packet@),
{
    let header = packet.header.serialize();
    let mut r: Vec<u8> = Vec::new();
    r.extend_from_slice(&header);
    r.extend_from_slice(wire::as_slice(&packet.payload));
    assert(r@ =~= av::packet_bytes(packet@));
    r
}

impl VideoGopStreamProtocolSendDriver {
    pub closed spec fn wf(&self) -> bool {
        &&& self@.wf()
        &&& self.config_packet matches Some(packet) ==> packet.header.wf() && av::packet_bytes(
            packet@,
        ).len() + 20 <= isize::MAX
    }

    pub fn start() -> (r: Self)
        ensures
            r.wf(),
            r@ == GopView::initial(),
    {
        VideoGopStreamProtocolSendDriver {
            codec_gen: 0,
            codec_packet: None,
            config_gen: 0,
            config_packet: None,
        }
    }

    /// Whether a packet of that kind can be sent.
    pub fn accepts(&self, kind: Kind) -> (r: bool)
        ensures
            r == self@.accepts(kind),
    {
        match kind {
            Kind::Codec => self.codec_gen < u32::MAX,
            Kind::Config => self.config_gen < u32::MAX,
            Kind::Key => self.codec_packet.is_some() && self.config_packet.is_some(),
            Kind::Delta => true,
        }
    }

    /// Sends a packet, given whether there is a current stream.
    pub fn send(&mut self, packet: AVPacket, has_stream: bool) -> (r: GopAction)
        requires
            old(self).wf(),
            old(self)@.accepts(av_kind(packet@)),
            packet matches AVPacket::Media(media) ==> media.header.wf() || (av_kind(packet@)
                == Kind::Delta && !has_stream),
            av::packet_bytes(packet@).len() + 20 <= isize::MAX,
        ensures
            final(self).wf(),
            final(self)@ == old(self)@.after(av_kind(packet@), av::packet_bytes(packet@)),
            r@ == old(self)@.action(av_kind(packet@), av::packet_bytes(packet@), has_stream),
    {
        match packet {
            AVPacket::Codec(packet) => {
                self.codec_gen = self.codec_gen + 1;
                self.codec_packet = Some(packet);
                GopAction::Keep
            },
            AVPacket::Media(packet) => {
                match kind_of_media(packet.header.is_config, packet.header.is_key) {
                    Kind::Config => {
                        self.config_gen = self.config_gen + 1;
                        self.config_packet = Some(packet);
                        GopAction::Keep
                    },
                    Kind::Key => {
                        if let (Some(codec), Some(config)) = (
                            &self.codec_packet,
                            &self.config_packet,
                        ) {
                            let codec = codec.header.serialize();
                            let config = media_bytes(config);
                            proof {
                                wire::lemma_be_bytes_len(
                                    self.codec_packet.unwrap().header.codec as nat,
                                    4,
                                );
                                wire::lemma_be_bytes_len(
                                    self.codec_packet.unwrap().header.frame_size as nat,
                                    2,
                                );
                            }
                            let prelude = prelude_bytes(
                                self.codec_gen,
                                self.config_gen,
                                &codec,
                                config.as_slice(),
                            );
                            GopAction::NewStream { prelude, bytes: media_bytes(&packet) }
                        } else {
                            GopAction::Discard
                        }
                    },
                    _ => {
                        if has_stream {
                            GopAction::Write { bytes: media_bytes(&packet) }
                        } else {
                            GopAction::Discard
                        }
                    },
                }
            },
        }
    }
}

/// Forwards video from a client, with a stream for every group of pictures.
#[derive(Debug)]
pub struct GopSender {
    codec: (u32, Option<kypacket::CodecPacket>),
    config: (u32, Option<kypacket::MediaPacket>),
}

impl View for GopSender {
    type V = GopView;

    closed spec fn view(&self) -> GopView {
        GopView {
            codec_gen: self.codec.0,
            codec_packet: match self.codec.1 {
                Some(packet) => Some(packet.header@),
                None => None,
            },
            config_gen: self.config.0,
            config_packet: match self.config.1 {
                Some(packet) => Some(packet.data@),
                None => None,
            },
        }
    }
}

impl GopSender {
    pub closed spec fn wf(&self) -> bool {
        &&& self@.wf()
        &&& self.codec.1 matches Some(packet) ==> packet.header@.len() == kypacket::HEADER_SIZE
        &&& self.config.1 matches Some(packet) ==> packet.data@.len() + 24 <= isize::MAX
    }

    pub fn new() -> (r: Self)
        ensures
            r.wf(),
            r@ == GopView::initial(),
    {
        GopSender { codec: (0, None), config: (0, None) }
    }

    /// Whether a packet of that kind can be sent.
    pub fn accepts(&self, kind: Kind) -> (r: bool)
        ensures
            r == self@.accepts(kind),
    {
        match kind {
            Kind::Codec => self.codec.0 < u32::MAX,
            Kind::Config => self.config.0 < u32::MAX,
            Kind::Key => self.codec.1.is_some() && self.config.1.is_some(),
            Kind::Delta => true,
        }
    }

    /// Forwards a packet, given whether there is a current stream. There is none
    /// before the first key frame.
    pub fn send_video(&mut self, packet: Packet, has_stream: bool) -> (r: GopAction)
        requires
            old(self).wf(),
            old(self)@.accepts(packet_kind(packet@)),
            packet@ matches PacketView::Codec { codec } ==> codec.len() == kypacket::HEADER_SIZE,
            packet@.bytes().len() + 24 <= isize::MAX,
        ensures
            final(self).wf(),
            final(self)@ == old(self)@.after(packet_kind(packet@), packet@.bytes()),
            r@ == old(self)@.action(packet_kind(packet@), packet@.bytes(), has_stream),
    {
        match packet {
            Packet::Codec(packet) => {
                self.codec = (self.codec.0 + 1, Some(packet));
                GopAction::Keep
            },
            Packet::Media(packet) => {
                match kind_of_media(packet.header.is_config, packet.header.is_key) {
                    Kind::Config => {
                        self.config = (self.config.0 + 1, Some(packet));
                        GopAction::Keep
                    },
                    Kind::Key => {
                        if let (Some(codec), Some(config)) = (&self.codec.1, &self.config.1) {
                            let prelude = prelude_bytes(
                                self.codec.0,
                                self.config.0,
                                codec.header.as_slice(),
                                config.data.as_slice(),
                            );
                            GopAction::NewStream { prelude, bytes: packet.data }
                        } else {
                            GopAction::Discard
                        }
                    },
                    _ => {
                        if has_stream {
                            GopAction::Write { bytes: packet.data }
                        } else {
                            GopAction::Discard
                        }
                    },
                }
            },
        }
    }
}

/// Takes only unidirectional streams from the channel.
pub fn accept_uni(arrival: Arrival) -> (r: Result<(), Error>)
    ensures
        match r {
            Ok(_) => arrival == Arrival::Uni,
            Err(error) => {
                &&& arrival != Arrival::Uni
                &&& error matches Error::KymuxProtocolError(text) && text@
                    == "Unexpected KyRecvMsg"@
            },
        },
{
    match arrival {
        Arrival::Uni => Ok(()),
        _ => Err(Error::KymuxProtocolError("Unexpected KyRecvMsg".to_owned())),
    }
}

/// Reads the two numbers at the start of a stream: that of the codec packet,
/// and that of the config packet.
pub fn parse_gens(ids: &[u8]) -> (r: (u32, u32))
    requires
        ids@.len() == 8,
    ensures
        r.0 == wire::be_value(ids@.take(4)),
        r.1 == wire::be_value(ids@.skip(4)),
{
    let codec_gen: u32 = wire::read_u32(ids);
    let config_gen: u32 = wire::read_u32(&ids[4..8]);
    assert(ids@.subrange(4, 8).take(4) =~= ids@.skip(4));
    (codec_gen, config_gen)
}

/// The numbers of the codec and config packets that were handed out last.
#[derive(Clone, Copy, Debug, PartialEq, Eq, Structural)]
pub struct GopReceiver {
    pub last_codec_gen: u32,
    pub last_config_gen: u32,
}

/// A packet on a stream, by its kind and by the numbers of its stream.
#[derive(Clone, Copy, Debug, PartialEq, Eq, Structural)]
pub struct GopMsg {
    pub kind: Kind,
    pub codec_gen: u32,
    pub config_gen: u32,
}

impl GopReceiver {
    /// A codec packet or a config packet is handed out if its number is not the
    /// last one; any other packet is handed out.
    pub open spec fn hands_out(self, msg: GopMsg) -> bool {
        match msg.kind {
            Kind::Codec => msg.codec_gen != self.last_codec_gen,
            Kind::Config => msg.config_gen != self.last_config_gen,
            _ => true,
        }
    }

    /// The receiver after a packet.
    pub open spec fn after(self, msg: GopMsg) -> GopReceiver {
        match msg.kind {
            Kind::Codec => GopReceiver { last_codec_gen: msg.codec_gen, ..self },
            _ => GopReceiver { last_config_gen: msg.config_gen, ..self },
        }
    }

    pub fn new() -> (r: Self)
        ensures
            r.last_codec_gen == 0,
            r.last_config_gen == 0,
    {
        GopReceiver { last_codec_gen: 0, last_config_gen: 0 }
    }

    /// Whether a packet is to be handed out.
    fn on_packet(&mut self, kind: Kind, codec_gen: u32, config_gen: u32) -> (r: bool)
        ensures
            r == old(self).hands_out(GopMsg { kind, codec_gen, config_gen }),
            *final(self) == old(self).after(GopMsg { kind, codec_gen, config_gen }),
    {
        match kind {
            Kind::Codec => {
                let new = codec_gen != self.last_codec_gen;
                if new {
                    self.last_codec_gen = codec_gen;
                }
                new
            },
            Kind::Config => {
                let new = config_gen != self.last_config_gen;
                if new {
                    self.last_config_gen = config_gen;
                }
                new
            },
            _ => {
                self.last_config_gen = config_gen;
                true
            },
        }
    }

    /// Hands out a packet that came on the stream with these numbers, unless it
    /// is a codec or config packet that was handed out before.
    pub fn recv(&mut self, packet: AVPacket, codec_gen: u32, config_gen: u32) -> (r: Option<
        AVPacket,
    >)
        ensures
            ({
                let msg = GopMsg { kind: av_kind(packet@), codec_gen, config_gen };
                &&& *final(self) == old(self).after(msg)
                &&& r == if old(self).hands_out(msg) {
                    Some(packet)
                } else {
                    None
                }
            }),
    {
        let kind = kind_of(&packet);
        if self.on_packet(kind, codec_gen, config_gen) {
            Some(packet)
        } else {
            None
        }
    }

    /// The bytes that the client gets for a packet that came on the stream with
    /// these numbers; nothing for a codec or config packet that it got before.
    pub fn recv_video(&mut self, packet: Packet, codec_gen: u32, config_gen: u32) -> (r: Option<
        Vec<u8>,
    >)
        ensures
            ({
                let msg = GopMsg { kind: packet_kind(packet@), codec_gen, config_gen };
                &&& *final(self) == old(self).after(msg)
                &&& match r {
                    Some(bytes) => old(self).hands_out(msg) && bytes@ == packet@.bytes(),
                    None => !old(self).hands_out(msg),
                }
            }),
    {
        let kind = kind_of_packet(&packet);
        if self.on_packet(kind, codec_gen, config_gen) {
            match packet {
                Packet::Codec(packet) => Some(packet.header),
                Packet::Media(packet) => Some(packet.data),
            }
        } else {
            None
        }
    }
}

/// The receiver after the first `n` packets.
pub open spec fn received(msgs: Seq<GopMsg>, n: int) -> GopReceiver
    decreases n,
{
    if n <= 0 {
        GopReceiver { last_codec_gen: 0, last_config_gen: 0 }
    } else {
        received(msgs, n - 1).after(msgs[n - 1])
    }
}

/// Packet `n` is handed out.
pub open spec fn handed_out(msgs: Seq<GopMsg>, n: int) -> bool {
    received(msgs, n).hands_out(msgs[n])
}

/// The packet has a config number that the receiver takes note of: it is a config
/// packet, or a packet that goes with one.
pub open spec fn is_media(msg: GopMsg) -> bool {
    !(msg.kind is Codec)
}

/// A number that codec packets were given, and that another one replaced, does not
/// come back. That is so if numbers never decrease.
pub open spec fn codec_gens_do_not_return(msgs: Seq<GopMsg>) -> bool {
    forall|i: int, k: int, j: int|
        #![trigger msgs[i], msgs[k], msgs[j]]
        0 <= i < k < j < msgs.len() && msgs[i].kind is Codec && msgs[k].kind is Codec
            && msgs[j].kind is Codec && msgs[i].codec_gen == msgs[j].codec_gen
            ==> msgs[k].codec_gen == msgs[j].codec_gen
}

/// A config number that media packets were given, and that another one replaced,
/// does not come back. That is so if numbers never decrease.
pub open spec fn config_gens_do_not_return(msgs: Seq<GopMsg>) -> bool {
    forall|i: int, k: int, j: int|
        #![trigger msgs[i], msgs[k], msgs[j]]
        0 <= i < k < j < msgs.len() && is_media(msgs[i]) && is_media(msgs[k]) && is_media(msgs[j])
            && msgs[i].config_gen == msgs[j].config_gen ==> msgs[k].config_gen
            == msgs[j].config_gen
}

/// Neither number ever decreases, as a sender gives them and streams are
/// abandoned for newer ones.
pub open spec fn gens_grow(msgs: Seq<GopMsg>) -> bool {
    forall|i: int, j: int|
        0 <= i < j < msgs.len() ==> (#[trigger] msgs[i]).codec_gen <= (
        #[trigger] msgs[j]).codec_gen && msgs[i].config_gen <= msgs[j].config_gen
}

/// Numbers that never decrease do not return.
pub proof fn lemma_growing_gens_do_not_return(msgs: Seq<GopMsg>)
    requires
        gens_grow(msgs),
    ensures
        codec_gens_do_not_return(msgs),
        config_gens_do_not_return(msgs),
{
}

/// After a codec packet, the number that the receiver holds is that of the last
/// one.
proof fn lemma_last_codec(msgs: Seq<GopMsg>, i: int, n: int)
    requires
        0 <= i < n <= msgs.len(),
        msgs[i].kind is Codec,
    ensures
        exists|k: int|
            i <= k < n && (#[trigger] msgs[k]).kind is Codec && msgs[k].codec_gen == received(
                msgs,
                n,
            ).last_codec_gen,
    decreases n,
{
    if msgs[n - 1].kind is Codec {
        assert(msgs[n - 1].codec_gen == received(msgs, n).last_codec_gen);
    } else {
        lemma_last_codec(msgs, i, n - 1);
    }
}

/// After a media packet, the number that the receiver holds is that of the last
/// one.
proof fn lemma_last_config(msgs: Seq<GopMsg>, i: int, n: int)
    requires
        0 <= i < n <= msgs.len(),
        is_media(msgs[i]),
    ensures
        exists|k: int|
            i <= k < n && is_media(#[trigger] msgs[k]) && msgs[k].config_gen == received(
                msgs,
                n,
            ).last_config_gen,
    decreases n,
{
    if is_media(msgs[n - 1]) {
        assert(msgs[n - 1].config_gen == received(msgs, n).last_config_gen);
    } else {
        lemma_last_config(msgs, i, n - 1);
    }
}

/// A codec packet is handed out at most once: one whose number an earlier codec
/// packet had is not handed out.
pub proof fn lemma_codec_at_most_once(msgs: Seq<GopMsg>, i: int, j: int)
    requires
        codec_gens_do_not_return(msgs),
        0 <= i < j < msgs.len(),
        msgs[i].kind is Codec,
        msgs[j].kind is Codec,
        msgs[i].codec_gen == msgs[j].codec_gen,
    ensures
        !handed_out(msgs, j),
{
    lemma_last_codec(msgs, i, j);
    let k = choose|k: int|
        i <= k < j && (#[trigger] msgs[k]).kind is Codec && msgs[k].codec_gen == received(
            msgs,
            j,
        ).last_codec_gen;
    assert(msgs[k].codec_gen == msgs[j].codec_gen);
}

/// A config packet is handed out at most once: one whose number an earlier media
/// packet had is not handed out.
pub proof fn lemma_config_at_most_once(msgs: Seq<GopMsg>, i: int, j: int)
    requires
        config_gens_do_not_return(msgs),
        0 <= i < j < msgs.len(),
        is_media(msgs[i]),
        msgs[j].kind is Config,
        msgs[i].config_gen == msgs[j].config_gen,
    ensures
        !handed_out(msgs, j),
{
    lemma_last_config(msgs, i, j);
    let k = choose|k: int|
        i <= k < j && is_media(#[trigger] msgs[k]) && msgs[k].config_gen == received(
            msgs,
            j,
        ).last_config_gen;
    assert(msgs[k].config_gen == msgs[j].config_gen);
}

/// A codec packet that repeats the one handed out last is not handed out, whatever
/// the numbers before.
pub proof fn lemma_repeated_codec_is_dropped(msgs: Seq<GopMsg>, i: int, j: int)
    requires
        0 <= i < j < msgs.len(),
        msgs[i].kind is Codec,
        handed_out(msgs, i),
        forall|k: int|
            i < k < j && (#[trigger] msgs[k]).kind is Codec ==> !handed_out(msgs, k),
        msgs[j].kind is Codec,
        msgs[j].codec_gen == msgs[i].codec_gen,
    ensures
        !handed_out(msgs, j),
{
    lemma_codec_stays(msgs, i, j);
}

proof fn lemma_codec_stays(msgs: Seq<GopMsg>, i: int, n: int)
    requires
        0 <= i < n <= msgs.len(),
        msgs[i].kind is Codec,
        forall|k: int|
            i < k < n && (#[trigger] msgs[k]).kind is Codec ==> !handed_out(msgs, k),
    ensures
        received(msgs, n).last_codec_gen == msgs[i].codec_gen,
    decreases n,
{
    if n - 1 > i {
        lemma_codec_stays(msgs, i, n - 1);
        if msgs[n - 1].kind is Codec {
            assert(!handed_out(msgs, n - 1));
        }
    }
}

/// A config packet that has the number of the media packet handed out last is not
/// handed out, whatever the numbers before.
pub proof fn lemma_repeated_config_is_dropped(msgs: Seq<GopMsg>, i: int, j: int)
    requires
        0 <= i < j < msgs.len(),
        is_media(msgs[i]),
        handed_out(msgs, i),
        forall|k: int| i < k < j && is_media(#[trigger] msgs[k]) ==> !handed_out(msgs, k),
        msgs[j].kind is Config,
        msgs[j].config_gen == msgs[i].config_gen,
    ensures
        !handed_out(msgs, j),
{
    lemma_config_stays(msgs, i, j);
}

proof fn lemma_config_stays(msgs: Seq<GopMsg>, i: int, n: int)
    requires
        0 <= i < n <= msgs.len(),
        is_media(msgs[i]),
        forall|k: int| i < k < n && is_media(#[trigger] msgs[k]) ==> !handed_out(msgs, k),
    ensures
        received(msgs, n).last_config_gen == msgs[i].config_gen,
    decreases n,
{
    if n - 1 > i {
        lemma_config_stays(msgs, i, n - 1);
        if is_media(msgs[n - 1]) {
            assert(!handed_out(msgs, n - 1));
        }
    }
}

/// Every media packet that is not a config packet is handed out.
pub proof fn lemma_frames_are_handed_out(msgs: Seq<GopMsg>, j: int)
    requires
        0 <= j < msgs.len(),
        msgs[j].kind is Key || msgs[j].kind is Delta,
    ensures
        handed_out(msgs, j),
{
}

/// A codec packet with a number that no earlier packet has is handed out.
pub proof fn lemma_new_codec_is_handed_out(msgs: Seq<GopMsg>, j: int)
    requires
        0 <= j < msgs.len(),
        msgs[j].kind is Codec,
        msgs[j].codec_gen > 0,
        forall|i: int| 0 <= i < j ==> (#[trigger] msgs[i]).codec_gen != msgs[j].codec_gen,
    ensures
        handed_out(msgs, j),
{
    lemma_last_gens(msgs, j);
}

/// A config packet with a number that no earlier packet has is handed out.
pub proof fn lemma_new_config_is_handed_out(msgs: Seq<GopMsg>, j: int)
    requires
        0 <= j < msgs.len(),
        msgs[j].kind is Config,
        msgs[j].config_gen > 0,
        forall|i: int| 0 <= i < j ==> (#[trigger] msgs[i]).config_gen != msgs[j].config_gen,
    ensures
        handed_out(msgs, j),
{
    lemma_last_gens(msgs, j);
}

/// The numbers that the receiver holds are zero or those of packets before.
proof fn lemma_last_gens(msgs: Seq<GopMsg>, n: int)
    requires
        0 <= n <= msgs.len(),
    ensures
        received(msgs, n).last_codec_gen == 0 || exists|i: int|
            0 <= i < n && (#[trigger] msgs[i]).codec_gen == received(msgs, n).last_codec_gen,
        received(msgs, n).last_config_gen == 0 || exists|i: int|
            0 <= i < n && (#[trigger] msgs[i]).config_gen == received(msgs, n).last_config_gen,
    decreases n,
{
    if n > 0 {
        lemma_last_gens(msgs, n - 1);
        assert(msgs[n - 1] == msgs[n - 1]);
    }
}

/// The start of a stream is read as it was written: the numbers, the codec
/// packet and the config packet, and then what follows.
pub proof fn lemma_prelude_roundtrip(
    gop: GopView,
    codec: AVPacketView,
    config: AVPacketView,
    rest: Seq<u8>,
)
    requires
        codec matches AVPacketView::Codec { codec_header } && codec_header.codec < 0x8000_0000,
        config is Media,
        reliable::sized(config),
        gop.codec_packet == Some(av::packet_bytes(codec)),
        gop.config_packet == Some(av::packet_bytes(config)),
    ensures
        ({
            let stream = gop.prelude() + rest;
            &&& wire::be_value(stream.take(8).take(4)) == gop.codec_gen
            &&& wire::be_value(stream.take(8).skip(4)) == gop.config_gen
            &&& reliable::first_packet(stream.skip(8)) == Some((codec, stream.skip(20)))
            &&& reliable::first_packet(stream.skip(20)) == Some((config, rest))
        }),
{
    let stream = gop.prelude() + rest;
    wire::lemma_pow_256();
    wire::lemma_be_bytes_len(gop.codec_gen as nat, 4);
    wire::lemma_be_bytes_len(gop.config_gen as nat, 4);
    wire::lemma_decode_encode(gop.codec_gen as nat, 4);
    wire::lemma_decode_encode(gop.config_gen as nat, 4);
    assert(stream.take(8).take(4) =~= wire::be_bytes(gop.codec_gen as nat, 4));
    assert(stream.take(8).skip(4) =~= wire::be_bytes(gop.config_gen as nat, 4));
    if let AVPacketView::Codec { codec_header } = codec {
        av::lemma_codec_header_roundtrip(codec_header);
    }
    reliable::lemma_first_packet(codec, av::packet_bytes(config) + rest);
    reliable::lemma_first_packet(config, rest);
    assert(stream.skip(8) =~= av::packet_bytes(codec) + (av::packet_bytes(config) + rest));
    assert(stream.skip(20) =~= av::packet_bytes(config) + rest);
}

/// The start of a stream of the multiplexer is read as it was written: the numbers,
/// the codec packet and the config packet, and then what follows.
pub proof fn lemma_packet_prelude_roundtrip(
    gop: GopView,
    codec: Seq<u8>,
    config: Seq<u8>,
    rest: Seq<u8>,
)
    requires
        kypacket::is_packet(codec),
        kypacket::is_packet(config),
        gop.codec_packet == Some(codec),
        gop.config_packet == Some(config),
    ensures
        ({
            let stream = gop.prelude() + rest;
            let after_codec = stream.skip((8 + codec.len()) as int);
            &&& wire::be_value(stream.take(8).take(4)) == gop.codec_gen
            &&& wire::be_value(stream.take(8).skip(4)) == gop.config_gen
            &&& kypacket::first_packet(stream.skip(8)) == Some(
                (kypacket::spec_packet(codec), after_codec),
            )
            &&& kypacket::first_packet(after_codec) == Some((kypacket::spec_packet(config), rest))
        }),
{
    let stream = gop.prelude() + rest;
    wire::lemma_pow_256();
    wire::lemma_be_bytes_len(gop.codec_gen as nat, 4);
    wire::lemma_be_bytes_len(gop.config_gen as nat, 4);
    wire::lemma_decode_encode(gop.codec_gen as nat, 4);
    wire::lemma_decode_encode(gop.config_gen as nat, 4);
    assert(stream.take(8).take(4) =~= wire::be_bytes(gop.codec_gen as nat, 4));
    assert(stream.take(8).skip(4) =~= wire::be_bytes(gop.config_gen as nat, 4));
    kypacket::lemma_first_packet(codec, config + rest);
    kypacket::lemma_first_packet(config, rest);
    assert(stream.skip(8) =~= codec + (config + rest));
    assert(stream.skip((8 + codec.len()) as int) =~= config + rest);
}

/// A sender never gives a number back: both only grow, and a stream starts only
/// when both are above zero.
pub proof fn lemma_gens_never_decrease(gop: GopView, kind: Kind, bytes: Seq<u8>, has_stream: bool)
    requires
        gop.wf(),
        gop.accepts(kind),
    ensures
        gop.after(kind, bytes).wf(),
        gop.codec_gen <= gop.after(kind, bytes).codec_gen,
        gop.config_gen <= gop.after(kind, bytes).config_gen,
        gop.action(kind, bytes, has_stream) is NewStream ==> gop.codec_gen > 0 && gop.config_gen
            > 0,
{
}

/// The sender after packets, from the start.
pub open spec fn sender_after(sent: Seq<(Kind, Seq<u8>)>) -> GopView
    decreases sent.len(),
{
    if sent.len() == 0 {
        GopView::initial()
    } else {
        sender_after(sent.drop_last()).after(sent.last().0, sent.last().1)
    }
}

/// How many packets of a kind there are.
pub open spec fn how_many(sent: Seq<(Kind, Seq<u8>)>, kind: Kind) -> nat {
    sent.filter(|packet: (Kind, Seq<u8>)| packet.0 == kind).len()
}

/// The last packet of a kind is the one at `i`.
pub open spec fn is_last(sent: Seq<(Kind, Seq<u8>)>, kind: Kind, i: int) -> bool {
    &&& 0 <= i < sent.len()
    &&& sent[i].0 == kind
    &&& forall|j: int| i < j < sent.len() ==> (#[trigger] sent[j]).0 != kind
}

/// The sender keeps count of the codec packets and of the config packets.
proof fn lemma_sender_counts(sent: Seq<(Kind, Seq<u8>)>)
    requires
        sent.len() <= u32::MAX,
    ensures
        sender_after(sent).codec_gen == how_many(sent, Kind::Codec),
        sender_after(sent).config_gen == how_many(sent, Kind::Config),
        how_many(sent, Kind::Codec) <= sent.len(),
        how_many(sent, Kind::Config) <= sent.len(),
    decreases sent.len(),
{
    reveal(Seq::filter);
    if sent.len() > 0 {
        lemma_sender_counts(sent.drop_last());
    }
}

/// The sender keeps the last codec packet.
proof fn lemma_sender_keeps_codec(sent: Seq<(Kind, Seq<u8>)>, i: int)
    requires
        is_last(sent, Kind::Codec, i),
    ensures
        sender_after(sent).codec_packet == Some(sent[i].1),
    decreases sent.len(),
{
    if i < sent.len() - 1 {
        let before = sent.drop_last();
        assert(sent[sent.len() - 1].0 != Kind::Codec);
        assert(before[i] == sent[i]);
        assert forall|j: int| i < j < before.len() implies (#[trigger] before[j]).0
            != Kind::Codec by {
            assert(before[j] == sent[j]);
        }
        lemma_sender_keeps_codec(before, i);
    }
}

/// The sender keeps the last config packet.
proof fn lemma_sender_keeps_config(sent: Seq<(Kind, Seq<u8>)>, i: int)
    requires
        is_last(sent, Kind::Config, i),
    ensures
        sender_after(sent).config_packet == Some(sent[i].1),
    decreases sent.len(),
{
    if i < sent.len() - 1 {
        let before = sent.drop_last();
        assert(sent[sent.len() - 1].0 != Kind::Config);
        assert(before[i] == sent[i]);
        assert forall|j: int| i < j < before.len() implies (#[trigger] before[j]).0
            != Kind::Config by {
            assert(before[j] == sent[j]);
        }
        lemma_sender_keeps_config(before, i);
    }
}

/// Over any packets sent from the start, a key frame opens a stream that starts with the
/// number of codec packets and the number of config packets sent so far, and then holds
/// the last codec packet, the last config packet and the key frame. There has to be one
/// of each.
pub proof fn lemma_stream_starts_with_last_packets(
    sent: Seq<(Kind, Seq<u8>)>,
    codec: int,
    config: int,
    key_frame: Seq<u8>,
    has_stream: bool,
)
    requires
        sent.len() <= u32::MAX,
        is_last(sent, Kind::Codec, codec),
        is_last(sent, Kind::Config, config),
    ensures
        sender_after(sent).accepts(Kind::Key),
        sender_after(sent).action(Kind::Key, key_frame, has_stream) == (GopActionView::NewStream {
            prelude: wire::be_bytes(how_many(sent, Kind::Codec), 4) + wire::be_bytes(
                how_many(sent, Kind::Config),
                4,
            ) + sent[codec].1 + sent[config].1,
            bytes: key_frame,
        }),
{
    lemma_sender_counts(sent);
    lemma_sender_keeps_codec(sent, codec);
    lemma_sender_keeps_config(sent, config);
}

/// Without a codec packet or without a config packet before it, a key frame is not taken.
pub proof fn lemma_key_frame_needs_both(sent: Seq<(Kind, Seq<u8>)>, kind: Kind)
    requires
        sent.len() <= u32::MAX,
        kind == Kind::Codec || kind == Kind::Config,
        forall|i: int| 0 <= i < sent.len() ==> (#[trigger] sent[i]).0 != kind,
    ensures
        !sender_after(sent).accepts(Kind::Key),
        kind == Kind::Codec ==> sender_after(sent).codec_packet is None,
        kind == Kind::Config ==> sender_after(sent).config_packet is None,
    decreases sent.len(),
{
    if sent.len() > 0 {
        let before = sent.drop_last();
        assert(sent[sent.len() - 1].0 != kind);
        assert forall|i: int| 0 <= i < before.len() implies (#[trigger] before[i]).0 != kind by {
            assert(before[i] == sent[i]);
        }
        lemma_key_frame_needs_both(before, kind);
    }
}

/// What else a sender does, whatever was sent before: nothing goes out for a codec packet
/// or a config packet; any other packet is written as it is to the current stream, and
/// discarded if there is none. Numbers have 32 bits, which is all that can run out.
pub proof fn lemma_other_packets(sender: GopView, bytes: Seq<u8>, has_stream: bool)
    ensures
        sender.action(Kind::Codec, bytes, has_stream) is Keep,
        sender.action(Kind::Config, bytes, has_stream) is Keep,
        sender.action(Kind::Delta, bytes, true) == (GopActionView::Write { bytes }),
        sender.action(Kind::Delta, bytes, false) is Discard,
        sender.after(Kind::Delta, bytes) == sender,
        sender.after(Kind::Key, bytes) == sender,
        sender.accepts(Kind::Delta),
        sender.accepts(Kind::Codec) <==> sender.codec_gen + 1 < 0x1_0000_0000,
        sender.accepts(Kind::Config) <==> sender.config_gen + 1 < 0x1_0000_0000,
{
}

/// What kind a packet is of. A config packet is one whatever else it is marked as.
pub proof fn lemma_kinds(packet: PacketView, other: AVPacketView)
    ensures
        packet is Codec <==> packet_kind(packet) == Kind::Codec,
        packet matches PacketView::Media { header, .. } ==> {
            &&& packet_kind(packet) == Kind::Config <==> header.is_config
            &&& packet_kind(packet) == Kind::Key <==> header.is_key && !header.is_config
            &&& packet_kind(packet) == Kind::Delta <==> !header.is_key && !header.is_config
        },
        other is Codec <==> av_kind(other) == Kind::Codec,
        other matches AVPacketView::Media { header, .. } ==> {
            &&& av_kind(other) == Kind::Config <==> header.is_config
            &&& av_kind(other) == Kind::Key <==> header.is_key && !header.is_config
            &&& av_kind(other) == Kind::Delta <==> !header.is_key && !header.is_config
        },
{
}

} // verus!
