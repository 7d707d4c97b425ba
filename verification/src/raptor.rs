//! The RaptorQ code, as the `raptorq` crate computes it.
//!
//! An encoder turns an object into packets; enough of them, whichever they are,
//! give the object back. A configuration is the 12 bytes of its object
//! transmission information, a packet is its 4-byte payload id followed by its
//! symbol.

use vstd::prelude::*;
use crate::wire;

verus! {

/// The most symbols that a block of an object has.
pub const MAX_BLOCK_SYMBOLS: u32 = 56403;

/// The most symbols that an object has: 255 full blocks.
pub const MAX_SYMBOLS: u32 = 14_382_765;

/// The most repair symbols that fit the symbol numbers, which have 24 bits.
pub const MAX_REPAIR_SYMBOLS: u32 = 16_720_813;

/// `a / b`, rounded up.
pub open spec fn div_ceil(a: nat, b: nat) -> nat {
    ((a + b - 1) as nat) / b
}

/// The length of the object.
pub open spec fn transfer_length(config: Seq<u8>) -> nat {
    wire::be_value(config.subrange(0, 5))
}

/// The length of a symbol.
pub open spec fn symbol_size(config: Seq<u8>) -> nat {
    wire::be_value(config.subrange(6, 8))
}

/// The number of blocks.
pub open spec fn source_blocks(config: Seq<u8>) -> nat {
    config[8] as nat
}

/// The number of sub-blocks in a block.
pub open spec fn sub_blocks(config: Seq<u8>) -> nat {
    wire::be_value(config.subrange(9, 11))
}

/// What symbol sizes are multiples of.
pub open spec fn alignment(config: Seq<u8>) -> nat {
    config[11] as nat
}

/// The configuration without its reserved byte.
pub open spec fn canonical(config: Seq<u8>) -> Seq<u8> {
    config.update(5, 0)
}

/// The number of symbols of the object. It is kept in 32 bits.
pub open spec fn source_symbols(config: Seq<u8>) -> nat {
    div_ceil(transfer_length(config), symbol_size(config)) % 0x1_0000_0000
}

/// The configuration is one that a decoder can be made with: there are blocks and
/// symbols, and blocks are not too large.
pub open spec fn valid_config(config: Seq<u8>) -> bool {
    &&& config.len() == 12
    &&& symbol_size(config) > 0
    &&& source_blocks(config) > 0
    &&& div_ceil(source_symbols(config), source_blocks(config)) <= MAX_BLOCK_SYMBOLS
}

/// The configuration is one that blocks can be decoded with: symbols have
/// sub-blocks.
pub open spec fn usable_config(config: Seq<u8>) -> bool {
    &&& valid_config(config)
    &&& sub_blocks(config) > 0
    &&& alignment(config) > 0
}

/// How many bytes of a symbol its sub-blocks cover: all of them where the symbol
/// size is a multiple of the alignment.
pub open spec fn covered_size(config: Seq<u8>) -> nat {
    symbol_size(config) / alignment(config) * alignment(config)
}

/// The packet is one of an object with this configuration: a symbol of the right
/// size, of a block that exists.
pub open spec fn fits(config: Seq<u8>, packet: Seq<u8>) -> bool {
    &&& packet.len() == 4 + symbol_size(config)
    &&& packet[0] < source_blocks(config)
}

/// The symbol size that an encoder picks for packets of up to `mtu` bytes.
pub open spec fn aligned(mtu: nat) -> nat {
    if mtu >= 64 {
        (mtu - mtu % 8) as nat
    } else {
        mtu
    }
}

/// An object of `len` bytes can be encoded with symbols of up to `mtu` bytes.
pub open spec fn encodable(len: nat, mtu: nat) -> bool {
    0 < len && 0 < mtu && div_ceil(len, aligned(mtu)) <= MAX_SYMBOLS
}

pub open spec fn seqs(v: Seq<Vec<u8>>) -> Seq<Seq<u8>> {
    v.map_values(|x: Vec<u8>| x@)
}

/// How many source symbols a block has. The first blocks have one more where the
/// symbols of the object do not divide evenly.
pub open spec fn block_symbols(config: Seq<u8>, block: nat) -> nat {
    let symbols = source_symbols(config);
    let blocks = source_blocks(config);
    if block < symbols % blocks {
        symbols / blocks + 1
    } else {
        symbols / blocks
    }
}

/// The packet holds a source symbol: its number is below that of the source symbols
/// of its block.
pub open spec fn is_source(config: Seq<u8>, packet: Seq<u8>) -> bool {
    wire::be_value(packet.subrange(1, 4)) < block_symbols(config, packet[0] as nat)
}

/// The configuration and the packets are those of an encoding of `data`.
pub open spec fn came_from(
    config: Seq<u8>,
    packets: Seq<Seq<u8>>,
    data: Seq<u8>,
    mtu: nat,
    repair: nat,
) -> bool {
    &&& encodable(data.len(), mtu)
    &&& repair <= MAX_REPAIR_SYMBOLS
    &&& config == raptorq_config(data.len(), mtu)
    &&& forall|i: int|
        0 <= i < packets.len() ==> raptorq_packets(data, mtu, repair).contains(
            #[trigger] packets[i],
        )
}

/// What comes out of a decoder is right: packets of an encoding give nothing but
/// the data that was encoded, and all that hold source symbols do give it.
pub open spec fn decodes_right(
    config: Seq<u8>,
    packets: Seq<Seq<u8>>,
    r: Option<Seq<u8>>,
) -> bool {
    forall|data: Seq<u8>, mtu: nat, repair: nat| #[trigger]
        came_from(config, packets, data, mtu, repair) ==> {
            &&& r is Some ==> r == Some(data)
            &&& (forall|i: int|
                0 <= i < raptorq_packets(data, mtu, repair).len() && is_source(
                    config,
                    #[trigger] raptorq_packets(data, mtu, repair)[i],
                ) ==> packets.contains(raptorq_packets(data, mtu, repair)[i])) ==> r is Some
        }
}

/// `raptorq::Encoder`, an object ready to be turned into packets.
#[verifier::external_type_specification]
#[verifier::external_body]
pub struct ExEncoder(raptorq::Encoder);

/// `raptorq::Decoder`, the packets received of an object.
#[verifier::external_type_specification]
#[verifier::external_body]
pub struct ExDecoder(raptorq::Decoder);

/// The object that an encoder encodes.
pub uninterp spec fn encoder_data(e: raptorq::Encoder) -> Seq<u8>;

/// The packet size that an encoder was made with.
pub uninterp spec fn encoder_mtu(e: raptorq::Encoder) -> nat;

/// The packets that a decoder was given, in order.
pub uninterp spec fn decoder_packets(d: raptorq::Decoder) -> Seq<Seq<u8>>;

/// The configuration that a decoder was made with.
pub uninterp spec fn decoder_config(d: raptorq::Decoder) -> Seq<u8>;

/// The configuration of the encoding of an object of `len` bytes in packets of
/// up to `mtu` bytes.
pub uninterp spec fn raptorq_config(len: nat, mtu: nat) -> Seq<u8>;

/// The packets of the encoding of `data` in packets of up to `mtu` bytes, with
/// `repair` repair packets per block.
pub uninterp spec fn raptorq_packets(data: Seq<u8>, mtu: nat, repair: nat) -> Seq<Seq<u8>>;

/// What a decoder answers to the last of these packets.
pub uninterp spec fn raptorq_decode(config: Seq<u8>, packets: Seq<Seq<u8>>) -> Option<Seq<u8>>;

/// `raptorq::Encoder::with_defaults`. It does not take an empty object, nor one
/// of more than 255 full blocks.
#[verifier::external_body]
pub(crate) fn new_encoder(data: &[u8], mtu: u16) -> (e: raptorq::Encoder)
    requires
        encodable(data@.len(), mtu as nat),
    ensures
        encoder_data(e) == data@,
        encoder_mtu(e) == mtu,
{
    raptorq::Encoder::with_defaults(data, mtu)
}

/// `raptorq::Encoder::get_config`, as bytes. The configuration says how long the
/// object is, what the symbol size is (the packet size, down to a multiple of
/// eight from 64 bytes on) and how many blocks there are (as few as can be). It is
/// one that the object can be decoded with.
#[verifier::external_body]
pub(crate) fn config_of(e: &raptorq::Encoder) -> (config: [u8; 12])
    requires
        encodable(encoder_data(*e).len(), encoder_mtu(*e)),
    ensures
        config@ == raptorq_config(encoder_data(*e).len(), encoder_mtu(*e)),
        transfer_length(config@) == encoder_data(*e).len(),
        symbol_size(config@) == aligned(encoder_mtu(*e)),
        source_blocks(config@) == div_ceil(
            div_ceil(encoder_data(*e).len(), aligned(encoder_mtu(*e))),
            MAX_BLOCK_SYMBOLS as nat,
        ),
        config@ == canonical(config@),
        usable_config(config@),
{
    e.get_config().serialize()
}

/// `raptorq::Encoder::get_encoded_packets`, as bytes. There is a packet for every
/// source symbol of the object, and `repair` more for every block. Every packet is
/// one of its configuration. Where there is one block, the source symbols come
/// first.
#[verifier::external_body]
pub(crate) fn packets_of(e: &raptorq::Encoder, repair: u32) -> (packets: Vec<Vec<u8>>)
    requires
        encodable(encoder_data(*e).len(), encoder_mtu(*e)),
        repair <= MAX_REPAIR_SYMBOLS,
    ensures
        seqs(packets@) == raptorq_packets(encoder_data(*e), encoder_mtu(*e), repair as nat),
        packets@.len() == div_ceil(encoder_data(*e).len(), aligned(encoder_mtu(*e)))
            + source_blocks(raptorq_config(encoder_data(*e).len(), encoder_mtu(*e))) * repair,
        forall|i: int|
            0 <= i < packets@.len() ==> fits(
                raptorq_config(encoder_data(*e).len(), encoder_mtu(*e)),
                #[trigger] seqs(packets@)[i],
            ),
        source_blocks(raptorq_config(encoder_data(*e).len(), encoder_mtu(*e))) == 1 ==> forall|
            i: int,
        |
            0 <= i < packets@.len() ==> is_source(
                raptorq_config(encoder_data(*e).len(), encoder_mtu(*e)),
                #[trigger] seqs(packets@)[i],
            ) == (i < div_ceil(encoder_data(*e).len(), aligned(encoder_mtu(*e)))),
{
    e.get_encoded_packets(repair).iter().map(|packet| packet.serialize()).collect()
}

/// `raptorq::Decoder::new`: no packets yet.
#[verifier::external_body]
pub(crate) fn new_decoder(config: &[u8; 12]) -> (d: raptorq::Decoder)
    requires
        valid_config(config@),
    ensures
        decoder_config(d) == canonical(config@),
        decoder_packets(d) == Seq::<Seq<u8>>::empty(),
{
    raptorq::Decoder::new(raptorq::ObjectTransmissionInformation::deserialize(config))
}

/// `raptorq::Decoder::decode`: one more packet. What comes back is a function of
/// the configuration and of the packets so far; packets of an encoding give
/// nothing but the encoded data, and all that hold source symbols do give it.
/// Repair symbols in place of some of them mostly do; when they do is left unsaid.
#[verifier::external_body]
pub(crate) fn decode(d: &mut raptorq::Decoder, packet: &[u8]) -> (r: Option<Vec<u8>>)
    requires
        usable_config(decoder_config(*old(d))),
        fits(decoder_config(*old(d)), packet@),
    ensures
        decoder_config(*final(d)) == decoder_config(*old(d)),
        decoder_packets(*final(d)) == decoder_packets(*old(d)).push(packet@),
        match r {
            Some(data) => raptorq_decode(decoder_config(*final(d)), decoder_packets(*final(d)))
                == Some(data@),
            None => raptorq_decode(
                decoder_config(*final(d)),
                decoder_packets(*final(d)),
            ) is None,
        },
        decodes_right(
            decoder_config(*final(d)),
            decoder_packets(*final(d)),
            raptorq_decode(decoder_config(*final(d)), decoder_packets(*final(d))),
        ),
{
    d.decode(raptorq::EncodingPacket::deserialize(packet))
}

} // verus!
