//! Reading a file back: the chunks of each piece are checked against the
//! hashes recorded when they were sent, the peers that returned a bad chunk
//! are penalised, the penalties go to the restriction table, and the pieces
//! are decoded from their intact chunks and joined into the file.
use vstd::prelude::*;
use crate::coding::{TransmissionInfo, ceil_div, decodable, source_packets_among, decode_piece, info_tuple, opt_bytes, packets_view, raptorq_decoded, raptorq_packets, raptorq_parameters};
use crate::constants::PENALTY_CORRUPTION;
use crate::hashing::{calculate_hash, hex_text, sha256};
use crate::penalties::{Penalties, penalty_of, with_penalty};
use crate::columns::str_equal;
use crate::columns::{column_names, position_of};
use crate::constants::{MTU, PIECE_SIZE};
use crate::distribution::{piece_bytes, piece_count};
use crate::json::{json_string_map, parse_string_map};
use crate::protobuf::{MsgFileId, MsgFileInfo};
use crate::query::{get_from_table, select_text};
use crate::services::FileRow;
use crate::upload::{chunks_at, law_full_replication, piece_size_at, trunc_div};
use crate::text::{views, order_by_text, parse_int_spec, parse_u16, parse_u64, parse_u8, text_less};

verus! {

/// The clause that selects the pieces of file `file_id` in their order.
pub open spec fn ordered_pieces_clause(file_id: Seq<char>) -> Seq<char> {
    "file_id='"@ + file_id + "' ORDER BY piece_order"@
}

/// The statement that reads the pieces of file `data` in their order.
pub fn pieces_query(data: &MsgFileId) -> (q: String)
    ensures
        q@ == select_text("file"@, "piece"@, "*"@, ordered_pieces_clause(data.file_id@)),
{
    let mut clause = String::new();
    clause.append("file_id='");
    clause.append(data.file_id.as_str());
    clause.append("' ORDER BY piece_order");
    assert(clause@ =~= ordered_pieces_clause(data.file_id@));
    get_from_table("file", "piece", "*", clause)
}

/// A piece, as the piece table gives it back once its chunks were sent.
pub struct PieceRow {
    pub piece_order: String,
    pub chunk_peer: String,
    pub chunk_hash: String,
    pub transfer_length: String,
    pub symbol_size: String,
    pub source_blocks: String,
    pub sub_blocks: String,
    pub symbol_alignment: String,
}

/// One chunk to fetch and check: where it is kept and the hash it was sent with.
pub struct ChunkCheck {
    pub chunk: String,
    pub peer: String,
    pub hash: String,
}

/// Whether every chunk of the chunk-to-peer map has a recorded hash.
pub open spec fn all_hashed(peers: Seq<(Seq<char>, Seq<char>)>, hashes: Seq<(Seq<char>, Seq<char>)>) -> bool {
    forall|k: int| 0 <= k < peers.len() ==> position_of(hashes, #[trigger] peers[k].0) is Some
}

/// Whether the chunk-to-peer and chunk-hash columns of a piece both read as
/// JSON maps, and every chunk has a hash.
pub open spec fn checkable(row: PieceRow) -> bool {
    &&& json_string_map(row.chunk_peer@) is Some
    &&& json_string_map(row.chunk_hash@) is Some
    &&& all_hashed(json_string_map(row.chunk_peer@)->0, json_string_map(row.chunk_hash@)->0)
}

/// Whether `c` is the check of one chunk of the maps: a chunk with its peer,
/// and the hash recorded for it.
pub open spec fn is_check_of(c: ChunkCheck, peers: Seq<(Seq<char>, Seq<char>)>, hashes: Seq<(Seq<char>, Seq<char>)>) -> bool {
    &&& exists|k: int| 0 <= k < peers.len() && peers[k] == (c.chunk@, c.peer@)
    &&& position_of(hashes, c.chunk@) matches Some(h) && hashes[h].1 == c.hash@
}

/// The chunks of piece `row` to fetch and check, every chunk of its
/// chunk-to-peer map once, in the order of their names (as sorting the names
/// orders them); none where a column does not read as a JSON map or a chunk has no hash.
pub fn chunk_checks(row: &PieceRow) -> (r: Option<Vec<ChunkCheck>>)
    ensures
        r is Some <==> checkable(*row),
        r is Some ==> row.chunk_peer@.len() > 0,
        r matches Some(v) ==> {
            let peers = json_string_map(row.chunk_peer@)->0;
            let hashes = json_string_map(row.chunk_hash@)->0;
            &&& v@.len() == peers.len()
            &&& forall|i: int| 0 <= i < v@.len() ==> is_check_of(#[trigger] v@[i], peers, hashes)
            &&& forall|i: int, j: int| 0 <= i < j < v@.len() ==> text_less(v@[i].chunk@, v@[j].chunk@)
        },
{
    let peers = match parse_string_map(row.chunk_peer.as_str()) {
        Some(m) => m,
        None => return None,
    };
    let hashes = match parse_string_map(row.chunk_hash.as_str()) {
        Some(m) => m,
        None => return None,
    };
    let mut k: usize = 0;
    while k < peers.len()
        invariant
            k <= peers@.len(),
            json_string_map(row.chunk_peer@) == Some(peers@),
            json_string_map(row.chunk_hash@) == Some(hashes@),
            forall|j: int| 0 <= j < k ==> position_of(hashes@, #[trigger] peers@[j].0) is Some,
        decreases peers@.len() - k,
    {
        if hashes.find(peers.column(k).as_str()).is_none() {
            assert(position_of(hashes@, peers@[k as int].0) is None);
            assert(json_string_map(row.chunk_peer@) == Some(peers@));
            assert(json_string_map(row.chunk_hash@) == Some(hashes@));
            assert(!all_hashed(peers@, hashes@));
            return None;
        }
        k = k + 1;
    }
    let names = peers.names();
    proof {
        assert(views(names@).len() == column_names(peers@).len());
        assert forall|a: int| 0 <= a < names@.len() implies #[trigger] names@[a]@ == column_names(peers@)[a] by {
            assert(views(names@)[a] == names@[a]@);
        }
    }
    let order = order_by_text(&names);
    let mut checks: Vec<ChunkCheck> = Vec::new();
    let mut i: usize = 0;
    while i < order.len()
        invariant
            i <= order@.len(),
            json_string_map(row.chunk_peer@) == Some(peers@),
            json_string_map(row.chunk_hash@) == Some(hashes@),
            order@.len() == names@.len(),
            names@.len() == peers@.len(),
            views_eq(names@, column_names(peers@)),
            all_hashed(peers@, hashes@),
            forall|a: int| 0 <= a < order@.len() ==> #[trigger] order@[a] < names@.len(),
            forall|a: int, b: int| 0 <= a < b < order@.len()
                ==> text_less(names@[order@[a] as int]@, names@[order@[b] as int]@),
            checks@.len() == i,
            forall|a: int| 0 <= a < i ==> #[trigger] checks@[a].chunk@ == names@[order@[a] as int]@,
            forall|a: int| 0 <= a < i ==> is_check_of(#[trigger] checks@[a], peers@, hashes@),
        decreases order.len() - i,
    {
        let idx = order[i];
        let chunk = peers.column(idx).clone();
        let peer = peers.value(idx).clone();
        assert(names@[idx as int]@ == peers@[idx as int].0);
        assert(position_of(hashes@, peers@[idx as int].0) is Some);
        let pos = hashes.find(chunk.as_str());
        let h = match pos {
            Some(p) => hashes.value(p).clone(),
            None => String::new(),
        };
        let c = ChunkCheck { chunk, peer, hash: h };
        assert(peers@[idx as int] == (c.chunk@, c.peer@));
        assert(is_check_of(c, peers@, hashes@));
        checks.push(c);
        i = i + 1;
    }
    Some(checks)
}

/// Whether names read as the column names of a map.
pub open spec fn views_eq(names: Seq<String>, columns: Seq<Seq<char>>) -> bool {
    &&& names.len() == columns.len()
    &&& forall|i: int| 0 <= i < names.len() ==> #[trigger] names[i]@ == columns[i]
}

/// The transmission parameters of a piece, each read as its integer type
/// reads it; none where one does not read.
pub fn piece_transmission(row: &PieceRow) -> (t: Option<TransmissionInfo>)
    ensures
        t is Some <==> {
            &&& parse_int_spec(row.transfer_length@, 0, u64::MAX as int, false) is Some
            &&& parse_int_spec(row.symbol_size@, 0, u16::MAX as int, false) is Some
            &&& parse_int_spec(row.source_blocks@, 0, u8::MAX as int, false) is Some
            &&& parse_int_spec(row.sub_blocks@, 0, u16::MAX as int, false) is Some
            &&& parse_int_spec(row.symbol_alignment@, 0, u8::MAX as int, false) is Some
        },
        t matches Some(x) ==> {
            &&& parse_int_spec(row.transfer_length@, 0, u64::MAX as int, false) == Some(x.transfer_length as int)
            &&& parse_int_spec(row.symbol_size@, 0, u16::MAX as int, false) == Some(x.symbol_size as int)
            &&& parse_int_spec(row.source_blocks@, 0, u8::MAX as int, false) == Some(x.source_blocks as int)
            &&& parse_int_spec(row.sub_blocks@, 0, u16::MAX as int, false) == Some(x.sub_blocks as int)
            &&& parse_int_spec(row.symbol_alignment@, 0, u8::MAX as int, false) == Some(x.symbol_alignment as int)
        },
{
    let transfer_length = parse_u64(row.transfer_length.as_str());
    let symbol_size = parse_u16(row.symbol_size.as_str());
    let source_blocks = parse_u8(row.source_blocks.as_str());
    let sub_blocks = parse_u16(row.sub_blocks.as_str());
    let symbol_alignment = parse_u8(row.symbol_alignment.as_str());
    match (transfer_length, symbol_size, source_blocks, sub_blocks, symbol_alignment) {
        (Some(a), Some(b), Some(c), Some(d), Some(e)) => Some(TransmissionInfo {
            transfer_length: a,
            symbol_size: b,
            source_blocks: c,
            sub_blocks: d,
            symbol_alignment: e,
        }),
        _ => None,
    }
}

/// Whether `m` is file `data` as read back: the metadata of `row`, the
/// content `bytes`, and no rights.
pub open spec fn fetched_file(m: MsgFileInfo, data: MsgFileId, row: FileRow, bytes: Seq<u8>) -> bool {
    &&& m.username@ == data.username@
    &&& m.file_id@ == data.file_id@
    &&& m.file_name@ == row.file_name@
    &&& m.file_size@ == row.file_size@
    &&& m.file_size_compressed@ == row.file_size_compressed@
    &&& m.file_type@ == row.file_type@
    &&& m.file_status@ == row.file_status@
    &&& m.upload_date@ == row.upload_date@
    &&& m.file_bytes@ == bytes
    &&& m.owner@.len() == 0
    &&& m.write@.len() == 0
}

/// File `data` as read back, with the metadata of `row` and the content `file_bytes`.
pub fn fetched_file_info(data: &MsgFileId, row: &FileRow, file_bytes: Vec<u8>) -> (m: MsgFileInfo)
    ensures
        fetched_file(m, *data, *row, file_bytes@),
{
    MsgFileInfo {
        username: data.username.clone(),
        file_id: data.file_id.clone(),
        file_name: row.file_name.clone(),
        file_size: row.file_size.clone(),
        file_size_compressed: row.file_size_compressed.clone(),
        file_type: row.file_type.clone(),
        file_status: row.file_status.clone(),
        upload_date: row.upload_date.clone(),
        file_bytes,
        owner: String::new(),
        write: String::new(),
    }
}


/// Checks one fetched chunk against the hash it was sent with: an intact
/// chunk joins the packets of its piece; a bad one costs its peer
/// `PENALTY_CORRUPTION`. A chunk that could not be fetched reads as empty and
/// counts as bad: the chunk-to-peer column of a checked piece is never empty
/// (see `chunk_checks`), so no chunk is charged `PENALTY_NOT_FOUND`. Returns false, and changes nothing, only where that
/// penalty would no longer fit in an `i8`.
pub fn check_chunk(packets: &mut Vec<Vec<u8>>, penalties: &mut Penalties, check: &ChunkCheck, bytes: Vec<u8>) -> (ok: bool)
    ensures
        hex_text(sha256(bytes@)) == check.hash@ ==> ok && final(packets)@ == old(packets)@.push(bytes)
            && final(penalties)@ == old(penalties)@,
        hex_text(sha256(bytes@)) != check.hash@ ==> final(packets)@ == old(packets)@ && (
            if penalty_of(old(penalties)@, check.peer@) + PENALTY_CORRUPTION <= i8::MAX {
                ok && final(penalties)@ == with_penalty(old(penalties)@, check.peer@, PENALTY_CORRUPTION as int)
            } else {
                !ok && final(penalties)@ == old(penalties)@
            }),
{
    let h = calculate_hash(bytes.as_slice());
    if str_equal(h.as_str(), check.hash.as_str()) {
        packets.push(bytes);
        true
    } else {
        let current = penalties.penalty(check.peer.as_str());
        if current > i8::MAX - PENALTY_CORRUPTION {
            false
        } else {
            penalties.charge(check.peer.as_str(), PENALTY_CORRUPTION);
            true
        }
    }
}


/// Whether the decoder can be set up with `info` and given `packets`: the
/// test that `decode_checked_piece` asks to have passed.
pub fn can_decode(info: &TransmissionInfo, packets: &Vec<Vec<u8>>) -> (r: bool)
    ensures
        r == decodable(*info, packets_view(packets@)),
{
    if info.symbol_size == 0 || info.source_blocks == 0 || info.sub_blocks == 0 || info.symbol_alignment == 0 {
        return false;
    }
    if info.symbol_size % (info.symbol_alignment as u16) != 0 {
        return false;
    }
    if info.transfer_length > 942574504275 {
        return false;
    }
    let ss: u64 = info.symbol_size as u64;
    let z: u64 = info.source_blocks as u64;
    let symbols: u64 = (info.transfer_length + ss - 1) / ss;
    assert(symbols <= 942574504275) by (nonlinear_arith)
        requires
            symbols as int == (info.transfer_length as int + ss as int - 1) / (ss as int),
            info.transfer_length <= 942574504275,
            ss >= 1;
    let per_block: u64 = (symbols + z - 1) / z;
    if per_block > 56403 {
        return false;
    }
    let mut i: usize = 0;
    while i < packets.len()
        invariant
            i <= packets@.len(),
            forall|k: int| 0 <= k < i ==> (#[trigger] packets_view(packets@)[k]).len() == 4 + info.symbol_size
                && packets_view(packets@)[k][0] < info.source_blocks,
        decreases packets.len() - i,
    {
        assert(packets_view(packets@)[i as int] == packets@[i as int]@);
        if packets[i].len() != 4 + info.symbol_size as usize || packets[i][0] >= info.source_blocks {
            return false;
        }
        i = i + 1;
    }
    true
}

/// The bytes of a piece from its checked packets, which the decoder takes
/// the last checked first; none where they do not decode. The bytes have the
/// piece's transfer length, and they are the data whose encoding the packets
/// are, whatever order they were checked in, where the packets are all of
/// that encoding or, with one block, some of it that hold its source packets.
pub fn decode_checked_piece(info: &TransmissionInfo, packets: Vec<Vec<u8>>) -> (r: Option<Vec<u8>>)
    requires
        decodable(*info, packets_view(packets@)),
    ensures
        opt_bytes(r) == raptorq_decoded(info_tuple(*info), packets_view(packets@).reverse()),
        r matches Some(b) ==> b@.len() == info.transfer_length,
        forall|data: Seq<u8>, mtu: u16, repair: u32|
            0 < data.len() <= 100_000 && mtu >= 1 && repair <= 1_000_000
            && info_tuple(*info) == raptorq_parameters(data, mtu)
            && packets_view(packets@).to_multiset() == (#[trigger] raptorq_packets(data, mtu, repair)).to_multiset()
            ==> opt_bytes(r) == Some(data),
        forall|data: Seq<u8>, mtu: u16, repair: u32|
            0 < data.len() <= 100_000 && mtu >= 1 && repair <= 1_000_000
            && info_tuple(*info) == raptorq_parameters(data, mtu)
            && info.source_blocks == 1
            && source_packets_among(packets_view(packets@), #[trigger] raptorq_packets(data, mtu, repair),
                ceil_div(info.transfer_length as int, info.symbol_size as int))
            ==> opt_bytes(r) == Some(data),
{
    let ghost given = packets_view(packets@);
    let mut rest = packets;
    let mut order: Vec<Vec<u8>> = Vec::new();
    while rest.len() > 0
        invariant
            given.len() == rest@.len() + order@.len(),
            packets_view(rest@) == given.take(rest@.len() as int),
            packets_view(order@) == given.reverse().take(order@.len() as int),
        decreases rest.len(),
    {
        let ghost n = rest@.len() as int;
        let ghost old_rest = rest@;
        assert(packets_view(old_rest)[n - 1] == old_rest[n - 1]@);
        assert(given.take(n)[n - 1] == given[n - 1]);
        let p = rest.pop().unwrap();
        assert(p@ == given[n - 1]);
        assert(packets_view(rest@) =~= given.take(n - 1));
        assert(given.reverse()[order@.len() as int] == given[n - 1]);
        let ghost prev = order@;
        order.push(p);
        assert(packets_view(order@) =~= given.reverse().take(order@.len() as int)) by {
            assert(packets_view(prev) == given.reverse().take(prev.len() as int));
        }
    }
    assert(packets_view(order@) =~= given.reverse());
    proof {
        given.lemma_reverse_to_multiset();
    }
    decode_piece(info, &order)
}

/// The bytes of pieces, one after the other.
pub open spec fn joined(pieces: Seq<Seq<u8>>) -> Seq<u8>
    decreases pieces.len(),
{
    if pieces.len() == 0 {
        Seq::empty()
    } else {
        joined(pieces.drop_last()) + pieces.last()
    }
}

/// The content of a file from its decoded pieces, in order.
pub fn join_pieces(pieces: &Vec<Vec<u8>>) -> (b: Vec<u8>)
    ensures
        b@ == joined(packets_view(pieces@)),
{
    let mut b: Vec<u8> = Vec::new();
    let mut i: usize = 0;
    while i < pieces.len()
        invariant
            i <= pieces@.len(),
            b@ == joined(packets_view(pieces@).take(i as int)),
        decreases pieces.len() - i,
    {
        let ghost before = b@;
        let mut j: usize = 0;
        while j < pieces[i].len()
            invariant
                i < pieces@.len(),
                j <= pieces@[i as int]@.len(),
                b@ == before + pieces@[i as int]@.take(j as int),
            decreases pieces@[i as int]@.len() - j,
        {
            b.push(pieces[i][j]);
            assert(b@ =~= before + pieces@[i as int]@.take(j + 1));
            j = j + 1;
        }
        assert(pieces@[i as int]@.take(j as int) =~= pieces@[i as int]@);
        assert(packets_view(pieces@).take(i + 1).drop_last() =~= packets_view(pieces@).take(i as int));
        i = i + 1;
    }
    assert(packets_view(pieces@).take(i as int) =~= packets_view(pieces@));
    b
}


/// The first `m` pieces of a file, in order.
pub open spec fn first_pieces(b: Seq<u8>, m: nat) -> Seq<Seq<u8>> {
    Seq::new(m, |k: int| piece_bytes(b, k))
}

proof fn lemma_piece_count(len: nat, m: int)
    requires
        0 <= m,
    ensures
        m < piece_count(len) ==> m * PIECE_SIZE < len,
        piece_count(len) * PIECE_SIZE >= len,
{
    let p = PIECE_SIZE as int;
    assert(p == 100_000);
    let c = (len + p - 1) / p;
    assert(c * p <= len + p - 1 && len + p - 1 < c * p + p) by (nonlinear_arith)
        requires
            c == (len + p - 1) / p,
            p > 0;
    if m < c {
        assert(m * p <= (c - 1) * p) by (nonlinear_arith)
            requires
                m <= c - 1,
                p > 0;
    }
}

proof fn lemma_first_pieces(b: Seq<u8>, m: nat)
    requires
        m <= piece_count(b.len()),
    ensures
        joined(first_pieces(b, m)) == b.subrange(0, if m * PIECE_SIZE < b.len() { m * PIECE_SIZE } else { b.len() as int }),
    decreases m,
{
    if m == 0 {
        assert(b.subrange(0, 0) =~= Seq::<u8>::empty());
    } else {
        let k = (m - 1) as nat;
        lemma_first_pieces(b, k);
        lemma_piece_count(b.len(), k as int);
        assert(first_pieces(b, m).drop_last() =~= first_pieces(b, k));
        assert(first_pieces(b, m).last() == piece_bytes(b, k as int));
        let start = k * PIECE_SIZE;
        assert(start == k * 100_000);
        assert(m * PIECE_SIZE == start + PIECE_SIZE);
        let end = if start + PIECE_SIZE < b.len() { start + PIECE_SIZE } else { b.len() as int };
        assert(b.subrange(0, start) + b.subrange(start, end) =~= b.subrange(0, end));
    }
}

/// The pieces of a file, joined in order, give the file back: cutting a
/// file into pieces loses and repeats nothing.
pub proof fn law_pieces_join_to_file(b: Seq<u8>)
    ensures
        joined(first_pieces(b, piece_count(b.len()))) == b,
{
    lemma_first_pieces(b, piece_count(b.len()));
    lemma_piece_count(b.len(), 0);
    assert(b.subrange(0, b.len() as int) =~= b);
}


/// The checked packets of one piece, in the order they were checked, with
/// the parameters the piece was encoded with.
pub struct CheckedPiece {
    pub info: TransmissionInfo,
    pub packets: Vec<Vec<u8>>,
}

/// A checked piece as plain values.
pub open spec fn checked_view(p: CheckedPiece) -> (TransmissionInfo, Seq<Seq<u8>>) {
    (p.info, packets_view(p.packets@))
}

/// Checked pieces as plain values.
pub open spec fn checked_views(ps: Seq<CheckedPiece>) -> Seq<(TransmissionInfo, Seq<Seq<u8>>)> {
    ps.map_values(|p: CheckedPiece| checked_view(p))
}

/// Why the content of a file could not be rebuilt from its pieces.
#[derive(Clone, Copy, Debug, PartialEq, Eq)]
pub enum ReadError {
    /// The parameters or the packets of the piece at this position are not
    /// ones the decoder can be set up with.
    Malformed(usize),
    /// The packets of the piece at this position do not decode.
    Undecoded(usize),
}

/// What the decoder gives back for a checked piece, fed the last checked
/// packet first.
pub open spec fn piece_decoding(p: (TransmissionInfo, Seq<Seq<u8>>)) -> Option<Seq<u8>> {
    raptorq_decoded(info_tuple(p.0), p.1.reverse())
}

/// The content of a file rebuilt from its checked pieces, in order: the
/// decoded pieces joined, or the error of the first piece that fails.
pub open spec fn file_decoding(ps: Seq<(TransmissionInfo, Seq<Seq<u8>>)>) -> Result<Seq<u8>, ReadError>
    decreases ps.len(),
{
    if ps.len() == 0 {
        Ok(Seq::empty())
    } else {
        match file_decoding(ps.drop_last()) {
            Err(e) => Err(e),
            Ok(before) => {
                let k = (ps.len() - 1) as usize;
                if !decodable(ps.last().0, ps.last().1) {
                    Err(ReadError::Malformed(k))
                } else {
                    match piece_decoding(ps.last()) {
                        None => Err(ReadError::Undecoded(k)),
                        Some(b) => Ok(before + b),
                    }
                }
            },
        }
    }
}

/// The view of a rebuilt file.
pub open spec fn read_view(r: Result<Vec<u8>, ReadError>) -> Result<Seq<u8>, ReadError> {
    match r {
        Ok(b) => Ok(b@),
        Err(e) => Err(e),
    }
}

/// Whether the checked piece `p` gives back `data`, the decoder being set
/// up with parameters it takes: `p`'s parameters are those of `data`'s
/// encoding with `mtu` and `repair` repair packets (values the encoder
/// takes), and its packets are all the packets of that encoding in any
/// order, or, where the encoding has one block, some of them that hold its
/// source packets.
pub open spec fn piece_recoverable(p: (TransmissionInfo, Seq<Seq<u8>>), data: Seq<u8>, mtu: u16, repair: u32) -> bool {
    &&& mtu >= 1
    &&& repair <= 1_000_000
    &&& info_tuple(p.0) == raptorq_parameters(data, mtu)
    &&& decodable(p.0, p.1)
    &&& {
        ||| p.1.to_multiset() == raptorq_packets(data, mtu, repair).to_multiset()
        ||| p.0.source_blocks == 1 && source_packets_among(p.1, raptorq_packets(data, mtu, repair),
                ceil_div(p.0.transfer_length as int, p.0.symbol_size as int))
    }
}

/// Whether the checked pieces are, one for each piece of `b` and in order,
/// pieces that give back that piece of `b` (`piece_recoverable`), piece `k`
/// encoded with `mtus[k]` and `repairs[k]` repair packets.
pub open spec fn recoverable(ps: Seq<(TransmissionInfo, Seq<Seq<u8>>)>, b: Seq<u8>, mtus: Seq<u16>, repairs: Seq<u32>) -> bool {
    &&& ps.len() == piece_count(b.len())
    &&& mtus.len() == ps.len()
    &&& repairs.len() == ps.len()
    &&& forall|k: int| 0 <= k < ps.len() ==> piece_recoverable(#[trigger] ps[k], piece_bytes(b, k), mtus[k], repairs[k])
}

/// Rebuilds the content of a file from its checked pieces, in order: each
/// piece is decoded from its packets, the last checked first, and the
/// pieces are joined. Where a piece cannot be decoded the error names it.
/// Where each piece's packets give that piece back (all the packets of its
/// encoding, or, with one block, some that hold its source packets), the
/// file comes back whole.
pub fn decode_file(pieces: Vec<CheckedPiece>) -> (r: Result<Vec<u8>, ReadError>)
    ensures
        read_view(r) == file_decoding(checked_views(pieces@)),
        forall|b: Seq<u8>, mtus: Seq<u16>, repairs: Seq<u32>|
            #[trigger] recoverable(checked_views(pieces@), b, mtus, repairs) ==> read_view(r) == Ok::<Seq<u8>, ReadError>(b),
{
    let ghost all = checked_views(pieces@);
    let mut rest = pieces;
    let total: usize = rest.len();
    let mut bytes: Vec<u8> = Vec::new();
    let mut i: usize = 0;
    while rest.len() > 0
        invariant
            all == checked_views(pieces@),
            i + rest@.len() == all.len(),
            i + rest@.len() == total,
            checked_views(rest@) == all.skip(i as int),
            file_decoding(all.take(i as int)) == Ok::<Seq<u8>, ReadError>(bytes@),
            forall|b: Seq<u8>, mtus: Seq<u16>, repairs: Seq<u32>|
                #[trigger] recoverable(all, b, mtus, repairs) ==> bytes@ == joined(first_pieces(b, i as nat)),
        decreases rest.len(),
    {
        let ghost before = bytes@;
        let ghost prev_rest = rest@;
        assert(checked_views(prev_rest)[0] == checked_view(prev_rest[0]));
        let piece = rest.remove(0);
        assert(checked_views(rest@) =~= all.skip(i + 1)) by {
            assert forall|j: int| 0 <= j < rest@.len() implies checked_views(rest@)[j] == all.skip(i + 1)[j] by {
                assert(rest@[j] == prev_rest[j + 1]);
                assert(checked_views(prev_rest)[j + 1] == all.skip(i as int)[j + 1]);
            }
        }
        let ghost p = all[i as int];
        assert(p == checked_view(piece)) by {
            assert(all.skip(i as int)[0] == all[i as int]);
        }
        assert(all.take(i + 1).drop_last() =~= all.take(i as int));
        assert(all.take(i + 1).last() == p);
        if !can_decode(&piece.info, &piece.packets) {
            proof {
                assert forall|b: Seq<u8>, mtus: Seq<u16>, repairs: Seq<u32>|
                    #[trigger] recoverable(all, b, mtus, repairs) implies false by {
                    assert(all[i as int] == p);
                }
                assert(!decodable(p.0, p.1));
                assert(file_decoding(all.take(i + 1)) == Err::<Seq<u8>, ReadError>(ReadError::Malformed(i)));
                lemma_decoding_fails_on(all, i as int);
            }
            return Err(ReadError::Malformed(i));
        }
        let decoded = decode_checked_piece(&piece.info, piece.packets);
        match decoded {
            None => {
                proof {
                    assert forall|b: Seq<u8>, mtus: Seq<u16>, repairs: Seq<u32>|
                        #[trigger] recoverable(all, b, mtus, repairs) implies false by {
                        assert(all[i as int] == p);
                        lemma_piece_count(b.len(), i as int);
                    }
                    assert(piece_decoding(p) is None);
                    assert(file_decoding(all.take(i + 1)) == Err::<Seq<u8>, ReadError>(ReadError::Undecoded(i)));
                    lemma_decoding_fails_on(all, i as int);
                }
                return Err(ReadError::Undecoded(i));
            },
            Some(piece_bytes_decoded) => {
                let mut j: usize = 0;
                while j < piece_bytes_decoded.len()
                    invariant
                        j <= piece_bytes_decoded@.len(),
                        bytes@ == before + piece_bytes_decoded@.take(j as int),
                    decreases piece_bytes_decoded.len() - j,
                {
                    bytes.push(piece_bytes_decoded[j]);
                    assert(bytes@ =~= before + piece_bytes_decoded@.take(j + 1));
                    j = j + 1;
                }
                assert(piece_bytes_decoded@.take(j as int) =~= piece_bytes_decoded@);
                proof {
                    assert forall|b: Seq<u8>, mtus: Seq<u16>, repairs: Seq<u32>|
                        #[trigger] recoverable(all, b, mtus, repairs) implies bytes@ == joined(first_pieces(b, (i + 1) as nat)) by {
                        assert(all[i as int] == p);
                        lemma_piece_count(b.len(), i as int);
                        assert(first_pieces(b, (i + 1) as nat).drop_last() =~= first_pieces(b, i as nat));
                    }
                }
                i = i + 1;
            },
        }
    }
    assert(all.take(i as int) =~= all);
    proof {
        assert forall|b: Seq<u8>, mtus: Seq<u16>, repairs: Seq<u32>|
            #[trigger] recoverable(all, b, mtus, repairs) implies bytes@ == b by {
            law_pieces_join_to_file(b);
        }
    }
    Ok(bytes)
}

/// Once a piece fails, the whole file fails with the error of the first
/// piece that failed.
proof fn lemma_decoding_fails_on(all: Seq<(TransmissionInfo, Seq<Seq<u8>>)>, i: int)
    requires
        0 <= i < all.len(),
        file_decoding(all.take(i + 1)) is Err,
    ensures
        file_decoding(all) == file_decoding(all.take(i + 1)),
    decreases all.len() - i,
{
    if i + 1 == all.len() {
        assert(all.take(i + 1) =~= all);
    } else {
        assert(all.drop_last().take(i + 1) =~= all.take(i + 1));
        lemma_decoding_fails_on(all.drop_last(), i);
    }
}


/// The packets of a prefix of a sequence are among its packets.
proof fn lemma_prefix_among<A>(s: Seq<A>, n: int)
    requires
        0 <= n <= s.len(),
    ensures
        s.take(n).to_multiset().subset_of(s.to_multiset()),
{
    broadcast use vstd::multiset::group_multiset_axioms;
    vstd::seq_lib::lemma_multiset_commutative(s.take(n), s.skip(n));
    assert(s.take(n) + s.skip(n) =~= s);
}

/// A piece of `len` bytes, `0 < len <= PIECE_SIZE`, gets from the upload
/// plan at least as many chunks as it has source symbols of 1488 bytes.
proof fn lemma_enough_chunks(len: int)
    requires
        0 < len <= PIECE_SIZE,
    ensures
        ceil_div(len, 1488) <= 2 * (1 + len / (MTU as int)),
        2 * (1 + len / (MTU as int)) <= 1_000_000,
{
    let q = len / 1492;
    assert(MTU as int == 1492);
    assert(1492 * q <= len < 1492 * q + 1492) by (nonlinear_arith)
        requires q == len / 1492, len > 0;
    assert((len + 1487) / 1488 <= 2 * q + 2) by (nonlinear_arith)
        requires 1492 * q <= len < 1492 * q + 1492, q >= 0;
    assert(q <= 100_000) by (nonlinear_arith)
        requires 1492 * q <= len, len <= 100_000, q >= 0;
}

/// What was sent reads back as the file. Take a file `b` and, for each of
/// its pieces `k`, the parameters and chunks that
/// `Distribution::encode_piece` gives for that piece with the chunk count
/// `ns[k]` that the upload plan gives piece `k` of a file of `b`'s size:
/// the first `ns[k]` packets of the piece's encoding, with one block of
/// 1488-byte symbols. Read back in any order, each piece is one that
/// `decode_file` gives back whole, so `decode_file` on them gives back `b`.
pub proof fn law_sent_chunks_read_back(b: Seq<u8>, ps: Seq<(TransmissionInfo, Seq<Seq<u8>>)>, ns: Seq<u32>)
    requires
        ps.len() == piece_count(b.len()),
        ns.len() == ps.len(),
        forall|k: int| 0 <= k < ps.len() ==> {
            let data = piece_bytes(b, k);
            let encoding = raptorq_packets(data, MTU, ns[k]);
            &&& ns[k] as int == chunks_at(b.len() as int, k as nat)
            &&& info_tuple((#[trigger] ps[k]).0) == raptorq_parameters(data, MTU)
            &&& ps[k].0.transfer_length == data.len()
            &&& ps[k].0.source_blocks == 1
            &&& ps[k].0.symbol_size == 1488
            &&& encoding.len() == ceil_div(data.len() as int, 1488) + ns[k]
            &&& decodable(ps[k].0, encoding.take(ns[k] as int))
            &&& ps[k].1.to_multiset() == encoding.take(ns[k] as int).to_multiset()
        },
    ensures
        recoverable(ps, b, Seq::new(ps.len(), |k: int| MTU), ns),
{
    broadcast use vstd::seq_lib::to_multiset_contains;
    let mtus = Seq::new(ps.len(), |k: int| MTU);
    assert forall|k: int| 0 <= k < ps.len() implies piece_recoverable(#[trigger] ps[k], piece_bytes(b, k), mtus[k], ns[k]) by {
        let data = piece_bytes(b, k);
        let encoding = raptorq_packets(data, MTU, ns[k]);
        let stored = encoding.take(ns[k] as int);
        let len = b.len() as int;
        lemma_piece_count(b.len(), k);
        crate::upload::lemma_remaining_full(len, k as nat);
        assert(piece_size_at(len, k as nat) == data.len());
        law_full_replication(len, k as nat);
        assert(trunc_div(data.len() as int, MTU as int) == (data.len() as int) / (MTU as int));
        lemma_enough_chunks(data.len() as int);
        let kk = ceil_div(data.len() as int, 1488);
        assert(ceil_div(ps[k].0.transfer_length as int, ps[k].0.symbol_size as int) == kk);
        lemma_prefix_among(encoding, ns[k] as int);
        lemma_prefix_among(stored, kk);
        assert(stored.take(kk) =~= encoding.take(kk));
        assert forall|i: int| 0 <= i < ps[k].1.len() implies (#[trigger] ps[k].1[i]).len() == 4 + ps[k].0.symbol_size
            && ps[k].1[i][0] < ps[k].0.source_blocks by {
            let x = ps[k].1[i];
            assert(ps[k].1.contains(x));
            assert(ps[k].1.to_multiset().count(x) > 0);
            assert(stored.to_multiset().count(x) > 0);
            assert(stored.contains(x));
            let j = choose|j: int| 0 <= j < stored.len() && stored[j] == x;
            assert(stored[j] == x);
        }
    }
}
}
