//! Erasure coding of pieces into chunks with RaptorQ.
use vstd::prelude::*;

verus! {

/// The RaptorQ transmission parameters of an encoded piece.
#[derive(Clone, Copy, Debug, PartialEq, Eq)]
pub struct TransmissionInfo {
    pub transfer_length: u64,
    pub symbol_size: u16,
    pub source_blocks: u8,
    pub sub_blocks: u16,
    pub symbol_alignment: u8,
}

/// The serialized packets that `raptorq::Encoder::with_defaults(data, mtu)`
/// gives for `repair` repair packets per block.
pub uninterp spec fn raptorq_packets(data: Seq<u8>, mtu: u16, repair: u32) -> Seq<Seq<u8>>;

/// The transmission parameters (transfer length, symbol size, source
/// blocks, sub-blocks, alignment) that `raptorq::Encoder::with_defaults(data, mtu)` picks.
pub uninterp spec fn raptorq_parameters(data: Seq<u8>, mtu: u16) -> (u64, u16, u8, u16, u8);

/// The view of a list of packets.
pub open spec fn packets_view(p: Seq<Vec<u8>>) -> Seq<Seq<u8>> {
    p.map_values(|x: Vec<u8>| x@)
}

/// The parameters of a transmission as a tuple.
pub open spec fn info_tuple(t: TransmissionInfo) -> (u64, u16, u8, u16, u8) {
    (t.transfer_length, t.symbol_size, t.source_blocks, t.sub_blocks, t.symbol_alignment)
}

/// `raptorq::Encoder::with_defaults(data, mtu)`, then `get_encoded_packets(repair)`
/// with each packet serialized, and `get_config()`. The source shows that the
/// transfer length is the length of `data`, and that every block yields its
/// source packets and `repair` repair packets, so that at least `repair`
/// packets come. Each packet is a 4-byte header, whose first byte is its
/// block's number, and one symbol, so the packets and the parameters are
/// ones the decoder takes (`decodable`). From an MTU of 64 on, the symbols
/// are aligned on 8 bytes and as long as the MTU allows, and
/// `generate_encoding_parameters` fits the at most 1563 symbols of a piece
/// in one block: then the packets are the source packets, one per symbol
/// and first, and the repair packets. Empty data gives no source block, on
/// which the encoder divides by zero, so `data` must not be empty; and a
/// repair packet's symbol identifier must stay below 2^24, which bounds
/// `repair`.
#[verifier::external_body]
pub(crate) fn encode(data: &[u8], mtu: u16, repair: u32) -> (r: (Vec<Vec<u8>>, TransmissionInfo))
    requires
        mtu >= 1,
        0 < data@.len() <= 100_000,
        repair <= 1_000_000,
    ensures
        packets_view(r.0@) == raptorq_packets(data@, mtu, repair),
        info_tuple(r.1) == raptorq_parameters(data@, mtu),
        r.1.transfer_length == data@.len(),
        r.0@.len() >= repair,
        decodable(r.1, packets_view(r.0@)),
        mtu >= 64 ==> r.1.source_blocks == 1 && r.1.symbol_alignment == 8
            && r.1.symbol_size == mtu - mtu % 8
            && r.0@.len() == ceil_div(data@.len() as int, r.1.symbol_size as int) + repair,
{
    let encoder = raptorq::Encoder::with_defaults(data, mtu);
    let packets: Vec<Vec<u8>> = encoder.get_encoded_packets(repair).iter().map(|p| p.serialize()).collect();
    let c = encoder.get_config();
    (packets, TransmissionInfo {
        transfer_length: c.transfer_length(),
        symbol_size: c.symbol_size(),
        source_blocks: c.source_blocks(),
        sub_blocks: c.sub_blocks(),
        symbol_alignment: c.symbol_alignment(),
    })
}


/// What `raptorq::Decoder` gives back when it is set up with the parameters
/// `info` (transfer length, symbol size, source blocks, sub-blocks,
/// alignment) and given the serialized packets `packets` in order.
pub uninterp spec fn raptorq_decoded(info: (u64, u16, u8, u16, u8), packets: Seq<Seq<u8>>) -> Option<Seq<u8>>;

/// `a / b` rounded up.
pub open spec fn ceil_div(a: int, b: int) -> int {
    (a + b - 1) / b
}

/// Whether the decoder can be set up with `info` and given `packets`
/// without failing an assertion or an index: parameters that
/// `ObjectTransmissionInformation::new` accepts, with no zero that it
/// divides by, and packets of a header and one symbol each, naming a
/// source block that exists.
pub open spec fn decodable(info: TransmissionInfo, packets: Seq<Seq<u8>>) -> bool {
    &&& info.symbol_size > 0
    &&& info.source_blocks > 0
    &&& info.sub_blocks > 0
    &&& info.symbol_alignment > 0
    &&& info.symbol_size % (info.symbol_alignment as u16) == 0
    &&& info.transfer_length <= 942574504275
    &&& ceil_div(ceil_div(info.transfer_length as int, info.symbol_size as int), info.source_blocks as int) <= 56403
    &&& forall|i: int| 0 <= i < packets.len() ==> (#[trigger] packets[i]).len() == 4 + info.symbol_size
        && packets[i][0] < info.source_blocks
}

/// Whether `packets` are, in any order, some of the packets of `encoding`
/// and among them its first `k`: with one block, its source packets.
pub open spec fn source_packets_among(packets: Seq<Seq<u8>>, encoding: Seq<Seq<u8>>, k: int) -> bool {
    &&& 0 <= k <= encoding.len()
    &&& packets.to_multiset().subset_of(encoding.to_multiset())
    &&& encoding.take(k).to_multiset().subset_of(packets.to_multiset())
}

/// The view of an optional byte vector.
pub open spec fn opt_bytes(r: Option<Vec<u8>>) -> Option<Seq<u8>> {
    match r {
        Some(b) => Some(b@),
        None => None,
    }
}

/// `raptorq::Decoder::new` with the parameters `info`, each of `packets`
/// deserialized with `EncodingPacket::deserialize` and given to
/// `add_new_packet` in order, then `get_result`. Giving the packets one by
/// one to `Decoder::decode` and stopping at the first result gives the same
/// result: once every block is decoded, further packets change nothing. The
/// source shows that the result is the decoded blocks cut to the transfer
/// length, which they are never shorter than; and that decoding gives back
/// the data whenever the packets are all those of the data's encoding, in
/// any order, as the crate's example does with shuffled packets: they hold
/// every source packet of every block. That is claimed where the encoder
/// takes its arguments, as `encode` asks them. What the decoder gives for other
/// packets is left to the name `raptorq_decoded`, but for one more fact of
/// the source: with one block, packets of its encoding that hold its source
/// packets (its first packets, as `encode` lists them) give back the data,
/// whatever repair packets are among them. Every source symbol is then
/// given; a block decoded earlier from repair packets solves the same
/// equations and is the same block.
#[verifier::external_body]
pub(crate) fn decode_piece(info: &TransmissionInfo, packets: &Vec<Vec<u8>>) -> (r: Option<Vec<u8>>)
    requires
        decodable(*info, packets_view(packets@)),
    ensures
        opt_bytes(r) == raptorq_decoded(info_tuple(*info), packets_view(packets@)),
        r matches Some(b) ==> b@.len() == info.transfer_length,
        forall|data: Seq<u8>, mtu: u16, repair: u32|
            0 < data.len() <= 100_000 && mtu >= 1 && repair <= 1_000_000
            && info_tuple(*info) == raptorq_parameters(data, mtu)
            && packets_view(packets@).to_multiset() == (#[trigger] raptorq_packets(data, mtu, repair)).to_multiset()
            ==> opt_bytes(r) == Some(data),
        forall|data: Seq<u8>, mtu: u16, repair: u32|
            0 < data.len() <= 100_000 && mtu >= 1 && repair <= 1_000_000
            && info_tuple(*info) == raptorq_parameters(data, mtu)
            && info.source_blocks == 1
            && source_packets_among(packets_view(packets@), #[trigger] raptorq_packets(data, mtu, repair),
                ceil_div(info.transfer_length as int, info.symbol_size as int))
            ==> opt_bytes(r) == Some(data),
{
    let config = raptorq::ObjectTransmissionInformation::new(info.transfer_length, info.symbol_size,
        info.source_blocks, info.sub_blocks, info.symbol_alignment);
    let mut decoder = raptorq::Decoder::new(config);
    for p in packets.iter() {
        decoder.add_new_packet(raptorq::EncodingPacket::deserialize(p));
    }
    decoder.get_result()
}

}
