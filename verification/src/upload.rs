//! Planning the upload of a file: which size counts, which peers are asked
//! for, how the file is cut into pieces and which peer keeps which chunk.
use vstd::prelude::*;
use crate::constants::{MTU, PIECE_SIZE, REPLICATION_FACTOR};
use crate::columns::{ColumnValues, lemma_column_names};
use crate::constants::FILE_STATUS_TO_DISTRIBUTE;
use crate::query::{delete_from_table, delete_text, get_from_table, insert_into_table, insert_text, select_text};
use crate::text::{debug_string, debug_text, join, seq_join};
use crate::text::{decimal, int_to_string, nat_digits, parse_i32, parse_int_spec, push_decimal, views};

verus! {

/// Integer division rounding toward zero, as Rust's `/` on integers does.
pub open spec fn trunc_div(a: int, b: int) -> int
    recommends
        b > 0,
{
    if a >= 0 { a / b } else { -((-a) / b) }
}

/// The value `str::parse::<i32>` reads from `s`.
pub open spec fn parsed_i32(s: Seq<char>) -> int {
    parse_int_spec(s, i32::MIN as int, i32::MAX as int, true)->0
}

/// Whether `str::parse::<i32>` accepts `s`.
pub open spec fn parses_as_i32(s: Seq<char>) -> bool {
    parse_int_spec(s, i32::MIN as int, i32::MAX as int, true) is Some
}

/// The size that an upload is planned for: the compressed size where it is
/// smaller than the actual size, the actual size otherwise.
pub open spec fn upload_size_spec(file_size: int, file_size_compressed: int) -> int {
    if file_size_compressed < file_size { file_size_compressed } else { file_size }
}

/// The size that the upload of a file is planned for, read from the sizes
/// that the client sent.
pub fn upload_size(file_size: &str, file_size_compressed: &str) -> (size: i32)
    requires
        parses_as_i32(file_size@),
        parses_as_i32(file_size_compressed@),
    ensures
        size == upload_size_spec(parsed_i32(file_size@), parsed_i32(file_size_compressed@)),
{
    let size_file = match parse_i32(file_size) {
        Some(v) => v,
        None => 0,
    };
    let size_file_c = match parse_i32(file_size_compressed) {
        Some(v) => v,
        None => 0,
    };
    if size_file_c < size_file {
        size_file_c
    } else {
        size_file
    }
}

/// How many peers are asked for to hold a file of `file_size` bytes.
pub open spec fn peer_number_spec(file_size: int) -> int {
    (1 + trunc_div(file_size, MTU as int)) * 3
}

/// The selection clause of the peers that can hold a file of `file_size` bytes.
pub open spec fn peers_clause(file_size: int) -> Seq<char> {
    "ranking in ('0','1','2','3','4','5','6','7','8','9','10') and disk_available > "@ + decimal(file_size)
        + " LIMIT "@ + decimal(peer_number_spec(file_size))
}

/// The query for the peers that can hold a file of `file_size` bytes.
pub fn peers_query(file_size: i32) -> (q: String)
    ensures
        q@ == select_text("peer"@, "selection"@, "*"@, peers_clause(file_size as int)),
{
    let peer_number: i32 = (1 + file_size / (MTU as i32)) * 3;
    let mut clause = String::new();
    clause.append("ranking in ('0','1','2','3','4','5','6','7','8','9','10') and disk_available > ");
    push_decimal(&mut clause, file_size as i128);
    clause.append(" LIMIT ");
    push_decimal(&mut clause, peer_number as i128);
    assert(clause@ =~= peers_clause(file_size as int));
    get_from_table("peer", "selection", "*", clause)
}

/// The name of chunk `i` of a piece.
pub open spec fn chunk_name(i: nat) -> Seq<char> {
    "chunk"@ + nat_digits(i)
}

/// Chunk `i` of a piece goes to peer `i mod n`, for every `i` below `chunks`.
pub open spec fn assignment_spec(peers: Seq<Seq<char>>, chunks: int) -> Seq<(Seq<char>, Seq<char>)> {
    Seq::new(
        if chunks > 0 { chunks as nat } else { 0 },
        |i: int| (chunk_name(i as nat), peers[i % (peers.len() as int)]),
    )
}

/// Spreads `chunks` chunks over `peers` in turn: chunk `i` to peer `i mod n`.
pub fn chunk_peer_selection(peers: &Vec<String>, chunks: i32) -> (assignment: Vec<(String, String)>)
    requires
        chunks > 0 ==> peers@.len() > 0,
    ensures
        assignment@.map_values(|p: (String, String)| (p.0@, p.1@)) == assignment_spec(views(peers@), chunks as int),
{
    let mut assignment: Vec<(String, String)> = Vec::new();
    let ghost target = assignment_spec(views(peers@), chunks as int);
    let mut i: i32 = 0;
    while i < chunks
        invariant
            0 <= i,
            chunks > 0 ==> i <= chunks,
            chunks <= 0 ==> i == 0,
            chunks > 0 ==> peers@.len() > 0,
            target == assignment_spec(views(peers@), chunks as int),
            assignment@.len() == i,
            forall|k: int| 0 <= k < i ==> (#[trigger] assignment@[k]).0@ == target[k].0 && assignment@[k].1@ == target[k].1,
        decreases chunks - i,
    {
        let mut name = String::new();
        name.append("chunk");
        push_decimal(&mut name, i as i128);
        let peer = peers[(i as usize) % peers.len()].clone();
        assert(name@ =~= chunk_name(i as nat));
        assignment.push((name, peer));
        i = i + 1;
    }
    assert(assignment@.map_values(|p: (String, String)| (p.0@, p.1@)) =~= target);
    assignment
}


/// The bytes of the file still to be placed before piece `k` is cut.
pub open spec fn remaining_before(size: int, k: nat) -> int
    decreases k,
{
    if k == 0 {
        size
    } else {
        let r = remaining_before(size, (k - 1) as nat);
        if r > PIECE_SIZE { r - PIECE_SIZE } else { r }
    }
}

/// The size of piece `k`: a full piece while more than a piece remains, what remains otherwise.
pub open spec fn piece_size_at(size: int, k: nat) -> int {
    let r = remaining_before(size, k);
    if r > PIECE_SIZE { PIECE_SIZE as int } else { r }
}

/// The source chunks of piece `k`.
pub open spec fn chunk_num_at(size: int, k: nat) -> int {
    1 + trunc_div(piece_size_at(size, k), MTU as int)
}

/// The repair chunks of piece `k`.
pub open spec fn replication_num_at(size: int, k: nat) -> int {
    trunc_div(chunk_num_at(size, k) * (REPLICATION_FACTOR as int), 100)
}

/// All chunks of piece `k`, source and repair.
pub open spec fn chunks_at(size: int, k: nat) -> int {
    chunk_num_at(size, k) + replication_num_at(size, k)
}

/// How many pieces a file of `size` bytes is cut into.
pub open spec fn piece_num_spec(size: int) -> int {
    1 + trunc_div(size, PIECE_SIZE as int)
}

/// The layout of one piece of a file: its order, size, chunk counts and
/// which peer keeps which chunk.
pub struct PieceLayout {
    pub order: i32,
    pub piece_size: i32,
    pub chunk_num: i32,
    pub replication_num: i32,
    pub assignment: Vec<(String, String)>,
}

/// The view of a chunk assignment.
pub open spec fn assignment_view(a: Seq<(String, String)>) -> Seq<(Seq<char>, Seq<char>)> {
    a.map_values(|p: (String, String)| (p.0@, p.1@))
}

/// Piece `p` is piece `k` of a file of `size` bytes spread over `peers`, and it has chunks.
pub open spec fn is_piece_at(p: PieceLayout, size: int, peers: Seq<Seq<char>>, k: nat) -> bool {
    &&& p.order == k
    &&& p.piece_size == piece_size_at(size, k)
    &&& p.chunk_num == chunk_num_at(size, k)
    &&& p.replication_num == replication_num_at(size, k)
    &&& assignment_view(p.assignment@) == assignment_spec(peers, chunks_at(size, k))
    &&& chunks_at(size, k) > 0
}

/// `plan` lists the pieces of a file of `size` bytes over `peers`: piece after
/// piece, up to the first whose chunk count is not positive.
pub open spec fn is_piece_plan(plan: Seq<PieceLayout>, size: int, peers: Seq<Seq<char>>) -> bool {
    &&& plan.len() <= (if piece_num_spec(size) > 0 { piece_num_spec(size) } else { 0 })
    &&& forall|k: int| 0 <= k < plan.len() ==> #[trigger] is_piece_at(plan[k], size, peers, k as nat)
    &&& plan.len() < piece_num_spec(size) ==> chunks_at(size, plan.len()) <= 0
}

/// The bytes left once the pieces of a plan of `n` pieces were cut: the
/// cutting stops after the last piece, or after the first piece that got no
/// chunk, which is cut too.
pub open spec fn remaining_after_plan(size: int, n: nat) -> int {
    if n < piece_num_spec(size) {
        remaining_before(size, n + 1)
    } else {
        remaining_before(size, n)
    }
}

/// Cuts a file of `size` bytes into pieces and spreads the chunks of each
/// piece over `peers`, as the upload does; also gives the bytes left after the
/// last piece was cut.
pub fn plan_pieces(size: i32, peers: &Vec<String>) -> (res: (Vec<PieceLayout>, i32))
    requires
        peers@.len() > 0,
    ensures
        is_piece_plan(res.0@, size as int, views(peers@)),
        res.1 == remaining_after_plan(size as int, res.0@.len()),
{
    let piece_num: i32 = 1 + size / PIECE_SIZE;
    assert(piece_num == piece_num_spec(size as int));
    let mut plan: Vec<PieceLayout> = Vec::new();
    let mut remaining: i32 = size;
    let mut order: i32 = 0;
    let ghost ps = views(peers@);
    while order < piece_num
        invariant_except_break
            remaining == remaining_before(size as int, order as nat),
        invariant
            peers@.len() > 0,
            ps == views(peers@),
            piece_num == piece_num_spec(size as int),
            0 <= order,
            piece_num > 0 ==> order <= piece_num,
            piece_num <= 0 ==> order == 0,
            plan@.len() == order,
            forall|k: int| 0 <= k < order ==> #[trigger] is_piece_at(plan@[k], size as int, ps, k as nat),
        ensures
            plan@.len() == order,
            piece_num > 0 ==> order <= piece_num,
            piece_num <= 0 ==> order == 0,
            forall|k: int| 0 <= k < order ==> #[trigger] is_piece_at(plan@[k], size as int, ps, k as nat),
            order < piece_num ==> chunks_at(size as int, order as nat) <= 0,
            remaining == remaining_before(size as int, (if order < piece_num { order + 1 } else { order as int }) as nat),
        decreases piece_num - order,
    {
        let piece_size: i32 = if remaining > PIECE_SIZE {
            remaining = remaining - PIECE_SIZE;
            PIECE_SIZE
        } else {
            remaining
        };
        assert(remaining == remaining_before(size as int, (order + 1) as nat));
        assert(piece_size == piece_size_at(size as int, order as nat));
        let chunk_num: i32 = 1 + piece_size / (MTU as i32);
        let total_chunk: i32 = chunk_num * (REPLICATION_FACTOR as i32) / 100;
        assert(chunk_num == chunk_num_at(size as int, order as nat));
        assert(total_chunk == replication_num_at(size as int, order as nat));
        let assignment = chunk_peer_selection(peers, chunk_num + total_chunk);
        assert(assignment_view(assignment@).len() == assignment@.len());
        if assignment.len() == 0 {
            break;
        }
        let layout = PieceLayout {
            order,
            piece_size,
            chunk_num,
            replication_num: total_chunk,
            assignment,
        };
        assert(is_piece_at(layout, size as int, ps, order as nat));
        let ghost prev = plan@;
        plan.push(layout);
        assert forall|k: int| 0 <= k < order + 1 implies #[trigger] is_piece_at(plan@[k], size as int, ps, k as nat) by {
            if k < order {
                assert(plan@[k] == prev[k]);
            }
        }
        order = order + 1;
    }
    (plan, remaining)
}


/// The total size of the first `m` pieces.
pub open spec fn sum_piece_sizes(size: int, m: nat) -> int
    decreases m,
{
    if m == 0 {
        0
    } else {
        sum_piece_sizes(size, (m - 1) as nat) + piece_size_at(size, (m - 1) as nat)
    }
}

pub(crate) proof fn lemma_remaining_full(size: int, k: nat)
    requires
        size >= 0,
        size - k * PIECE_SIZE > 0,
    ensures
        remaining_before(size, k) == size - k * PIECE_SIZE,
    decreases k,
{
    if k > 0 {
        lemma_remaining_full(size, (k - 1) as nat);
    }
}

proof fn lemma_remaining_stays(size: int, k: nat)
    requires
        size > 0,
        size % (PIECE_SIZE as int) == 0,
        k + 1 >= size / (PIECE_SIZE as int),
    ensures
        remaining_before(size, k) == PIECE_SIZE,
    decreases k,
{
    let q = size / (PIECE_SIZE as int);
    if k + 1 == q {
        lemma_remaining_full(size, k);
    } else {
        lemma_remaining_stays(size, (k - 1) as nat);
    }
}

proof fn lemma_sum_full(size: int, m: nat)
    requires
        size >= 0,
        forall|k: nat| k < m ==> #[trigger] piece_size_at(size, k) == PIECE_SIZE,
    ensures
        sum_piece_sizes(size, m) == m * PIECE_SIZE,
    decreases m,
{
    if m > 0 {
        lemma_sum_full(size, (m - 1) as nat);
    }
}

/// A file of `size >= 0` bytes is cut into `1 + size / PIECE_SIZE` pieces,
/// each with chunks, none larger than a piece. Their sizes add up to the
/// file's size, except where the size is a positive multiple of the piece
/// size: then one more full piece is planned.
pub proof fn law_pieces_cover_file(size: int)
    requires
        0 <= size <= i32::MAX,
    ensures
        piece_num_spec(size) == 1 + size / (PIECE_SIZE as int),
        forall|k: nat| k < piece_num_spec(size) ==> #[trigger] chunks_at(size, k) > 0,
        forall|k: nat| k < piece_num_spec(size) ==> 0 <= #[trigger] piece_size_at(size, k) <= PIECE_SIZE,
        sum_piece_sizes(size, piece_num_spec(size) as nat) == size
            + (if size > 0 && size % (PIECE_SIZE as int) == 0 { PIECE_SIZE as int } else { 0 }),
{
    let p = PIECE_SIZE as int;
    let q = size / p;
    let r = size % p;
    assert forall|k: nat| true implies 0 <= #[trigger] remaining_before(size, k) by {
        lemma_remaining_nonneg(size, k);
    }
    assert forall|k: nat| k < piece_num_spec(size) implies #[trigger] chunks_at(size, k) > 0 by {
        lemma_remaining_nonneg(size, k);
    }
    assert forall|k: nat| k < piece_num_spec(size) implies 0 <= #[trigger] piece_size_at(size, k) <= PIECE_SIZE by {
        lemma_remaining_nonneg(size, k);
    }
    if r > 0 {
        assert forall|k: nat| k < q implies #[trigger] piece_size_at(size, k) == PIECE_SIZE by {
            lemma_remaining_full(size, k);
        }
        lemma_sum_full(size, q as nat);
        lemma_remaining_full(size, q as nat);
        assert(sum_piece_sizes(size, (q + 1) as nat) == q * p + r);
    } else if size == 0 {
        assert(sum_piece_sizes(size, 0) == 0);
        assert(remaining_before(size, 0) == 0);
        assert(sum_piece_sizes(size, 1) == 0);
    } else {
        assert forall|k: nat| k < q + 1 implies #[trigger] piece_size_at(size, k) == PIECE_SIZE by {
            if k + 1 < q {
                lemma_remaining_full(size, k);
            } else {
                lemma_remaining_stays(size, k);
            }
        }
        lemma_sum_full(size, (q + 1) as nat);
    }
}

/// Once every piece of a file of `size >= 0` bytes is cut, the bytes left are
/// the size of the last piece: `size % PIECE_SIZE` where that is not zero.
pub proof fn law_remaining_is_last_piece(size: int)
    requires
        0 <= size <= i32::MAX,
    ensures
        remaining_after_plan(size, piece_num_spec(size) as nat) == piece_size_at(size, (piece_num_spec(size) - 1) as nat),
        size % (PIECE_SIZE as int) != 0 ==> remaining_after_plan(size, piece_num_spec(size) as nat)
            == size % (PIECE_SIZE as int),
{
    let p = PIECE_SIZE as int;
    let q = size / p;
    let r = size % p;
    assert(piece_num_spec(size) == q + 1);
    if r > 0 {
        lemma_remaining_full(size, q as nat);
        assert(remaining_before(size, q as nat) == r);
        assert(remaining_before(size, (q + 1) as nat) == r);
    } else if size == 0 {
        assert(remaining_before(size, 0) == 0);
        assert(remaining_before(size, 1) == 0);
    } else {
        lemma_remaining_stays(size, q as nat);
        assert(remaining_before(size, (q + 1) as nat) == p);
    }
}

proof fn lemma_remaining_nonneg(size: int, k: nat)
    requires
        size >= 0,
    ensures
        remaining_before(size, k) >= 0,
    decreases k,
{
    if k > 0 {
        lemma_remaining_nonneg(size, (k - 1) as nat);
    }
}

/// A plan for a file of `size >= 0` bytes has all its pieces.
pub proof fn law_plan_has_every_piece(plan: Seq<PieceLayout>, size: int, peers: Seq<Seq<char>>)
    requires
        0 <= size <= i32::MAX,
        is_piece_plan(plan, size, peers),
    ensures
        plan.len() == piece_num_spec(size),
{
    law_pieces_cover_file(size);
    if plan.len() < piece_num_spec(size) {
        assert(chunks_at(size, plan.len()) > 0);
    }
}


/// With the replication factor at 100%, every piece gets as many repair
/// chunks as source chunks: twice its source chunks in all.
pub proof fn law_full_replication(size: int, k: nat)
    ensures
        replication_num_at(size, k) == chunk_num_at(size, k),
        chunks_at(size, k) == 2 * chunk_num_at(size, k),
{
    let c = chunk_num_at(size, k);
    assert(REPLICATION_FACTOR as int == 100);
    if c >= 0 {
        assert((c * 100) / 100 == c) by (nonlinear_arith);
    } else {
        assert((-(c * 100)) / 100 == -c) by (nonlinear_arith);
    }
}

/// Chunks go round the peers: chunk `i` goes to peer `i mod n`, and when a
/// piece has at least as many chunks as there are peers, every peer receives
/// one; no two chunks of a piece share a name.
pub proof fn law_round_robin(peers: Seq<Seq<char>>, chunks: int)
    requires
        peers.len() > 0,
    ensures
        assignment_spec(peers, chunks).len() == (if chunks > 0 { chunks } else { 0 }),
        forall|i: int| 0 <= i < assignment_spec(peers, chunks).len()
            ==> (#[trigger] assignment_spec(peers, chunks)[i]).1 == peers[i % (peers.len() as int)],
        chunks >= peers.len() ==> forall|j: int| 0 <= j < peers.len()
            ==> (#[trigger] assignment_spec(peers, chunks)[j]).1 == peers[j],
        forall|i: int, j: int|
            0 <= i < assignment_spec(peers, chunks).len() && 0 <= j < assignment_spec(peers, chunks).len() && i != j
            ==> (#[trigger] assignment_spec(peers, chunks)[i]).0 != (#[trigger] assignment_spec(peers, chunks)[j]).0,
{
    let a = assignment_spec(peers, chunks);
    assert forall|j: int| chunks >= peers.len() && 0 <= j < peers.len() implies (#[trigger] a[j]).1 == peers[j] by {
        assert(j % (peers.len() as int) == j) by (nonlinear_arith)
            requires 0 <= j < peers.len();
    }
    assert forall|i: int, j: int| 0 <= i < a.len() && 0 <= j < a.len() && i != j implies (#[trigger] a[i]).0 != (#[trigger] a[j]).0 by {
        lemma_chunk_names_differ(i as nat, j as nat);
    }
}

proof fn lemma_chunk_names_differ(i: nat, j: nat)
    requires
        i != j,
    ensures
        chunk_name(i) != chunk_name(j),
{
    let pre = "chunk"@;
    if chunk_name(i) == chunk_name(j) {
        assert(chunk_name(i).subrange(pre.len() as int, chunk_name(i).len() as int) =~= nat_digits(i));
        assert(chunk_name(j).subrange(pre.len() as int, chunk_name(j).len() as int) =~= nat_digits(j));
        crate::text::lemma_nat_digits(i);
        crate::text::lemma_nat_digits(j);
    }
}


/// The row of a new file: its metadata, the status "to distribute" and its identifier.
pub open spec fn file_row_spec(
    username: Seq<char>,
    file_name: Seq<char>,
    file_size: Seq<char>,
    file_size_compressed: Seq<char>,
    file_type: Seq<char>,
    upload_date: Seq<char>,
    file_id: Seq<char>,
) -> Seq<(Seq<char>, Seq<char>)> {
    seq![
        ("file_name"@, file_name),
        ("file_type"@, file_type),
        ("username"@, username),
        ("upload_date"@, upload_date),
        ("file_size"@, file_size),
        ("file_size_compressed"@, file_size_compressed),
        ("file_status"@, FILE_STATUS_TO_DISTRIBUTE@),
        ("file_id"@, file_id),
    ]
}

/// The statement that records a new file, unless a file with its key exists.
pub fn file_insert_query(
    username: &str,
    file_name: &str,
    file_size: &str,
    file_size_compressed: &str,
    file_type: &str,
    upload_date: &str,
    file_id: &str,
) -> (q: String)
    ensures
        q@ == insert_text("file"@, "file"@, file_row_spec(username@, file_name@, file_size@,
            file_size_compressed@, file_type@, upload_date@, file_id@), "IF NOT EXISTS"@),
{
    proof {
        lemma_column_names();
        assert("file_name"@.len() == 9 && "file_type"@.len() == 9 && "file_size"@.len() == 9);
        assert("file_name"@[5] == 'n' && "file_type"@[5] == 't' && "file_size"@[5] == 's');
        assert("upload_date"@.len() == 11 && "file_status"@.len() == 11);
        assert("upload_date"@[0] == 'u' && "file_status"@[0] == 'f');
    }
    let row = ColumnValues::from_pairs(vec![
        ("file_name".to_string(), file_name.to_string()),
        ("file_type".to_string(), file_type.to_string()),
        ("username".to_string(), username.to_string()),
        ("upload_date".to_string(), upload_date.to_string()),
        ("file_size".to_string(), file_size.to_string()),
        ("file_size_compressed".to_string(), file_size_compressed.to_string()),
        ("file_status".to_string(), FILE_STATUS_TO_DISTRIBUTE.to_string()),
        ("file_id".to_string(), file_id.to_string()),
    ]);
    assert(row@ =~= file_row_spec(username@, file_name@, file_size@, file_size_compressed@, file_type@,
        upload_date@, file_id@));
    insert_into_table("file", "file", row, "IF NOT EXISTS")
}


/// Whether `s` is a version-4 UUID written hyphenated in lower case:
/// 36 characters, hyphens at 8, 13, 18 and 23, the version digit `4` at 14,
/// and lower-case hexadecimal digits elsewhere.
pub open spec fn is_uuid_v4_text(s: Seq<char>) -> bool {
    &&& s.len() == 36
    &&& forall|i: int| 0 <= i < 36 ==> (#[trigger] s[i] == '-' <==> (i == 8 || i == 13 || i == 18 || i == 23))
    &&& forall|i: int| 0 <= i < 36 && i != 8 && i != 13 && i != 18 && i != 23
            ==> ('0' <= #[trigger] s[i] <= '9' || 'a' <= s[i] <= 'f')
    &&& s[14] == '4'
}

/// `uuid::Uuid::new_v4().to_string()`: a fresh random identifier, written
/// hyphenated in lower case. Which identifier comes is chance; only its form is stated.
#[verifier::external_body]
pub(crate) fn generate_id() -> (id: String)
    ensures
        is_uuid_v4_text(id@),
{
    uuid::Uuid::new_v4().to_string()
}

/// A new file: its identifier and the statement that records it.
pub struct UploadStart {
    pub file_id: String,
    pub file_query: String,
}

/// Gives a new file a fresh identifier and builds the statement that records it.
pub fn start_upload(
    username: &str,
    file_name: &str,
    file_size: &str,
    file_size_compressed: &str,
    file_type: &str,
    upload_date: &str,
) -> (s: UploadStart)
    ensures
        is_uuid_v4_text(s.file_id@),
        s.file_query@ == insert_text("file"@, "file"@, file_row_spec(username@, file_name@, file_size@,
            file_size_compressed@, file_type@, upload_date@, s.file_id@), "IF NOT EXISTS"@),
{
    let file_id = generate_id();
    let file_query = file_insert_query(username, file_name, file_size, file_size_compressed, file_type,
        upload_date, file_id.as_str());
    UploadStart { file_id, file_query }
}

/// Starts the upload of a file where some peer can hold it: none where
/// `peers` is empty (the upload is refused), otherwise as `start_upload`.
pub fn start_upload_with_peers(
    peers: &Vec<String>,
    username: &str,
    file_name: &str,
    file_size: &str,
    file_size_compressed: &str,
    file_type: &str,
    upload_date: &str,
) -> (s: Option<UploadStart>)
    ensures
        s is None <==> peers@.len() == 0,
        s matches Some(st) ==> is_uuid_v4_text(st.file_id@) && st.file_query@ == insert_text("file"@, "file"@,
            file_row_spec(username@, file_name@, file_size@, file_size_compressed@, file_type@, upload_date@,
            st.file_id@), "IF NOT EXISTS"@),
{
    if peers.len() == 0 {
        None
    } else {
        Some(start_upload(username, file_name, file_size, file_size_compressed, file_type, upload_date))
    }
}

/// One chunk-to-peer entry as the piece row records it: `{"<chunk>":"<peer in debug form>"}`.
pub open spec fn chunk_peer_entry(p: (Seq<char>, Seq<char>)) -> Seq<char> {
    "{\""@ + p.0 + "\":\""@ + debug_text(p.1) + "\"}"@
}

/// The chunk-to-peer column of a piece row: its entries, comma separated.
pub open spec fn chunk_peer_text(a: Seq<(Seq<char>, Seq<char>)>) -> Seq<char> {
    seq_join(a.map_values(|p: (Seq<char>, Seq<char>)| chunk_peer_entry(p)), ", "@)
}

/// The chunk-to-peer column of a piece row.
pub fn chunk_peer_column(assignment: &Vec<(String, String)>) -> (s: String)
    ensures
        s@ == chunk_peer_text(assignment_view(assignment@)),
{
    let ghost target = assignment_view(assignment@).map_values(|p: (Seq<char>, Seq<char>)| chunk_peer_entry(p));
    let mut entries: Vec<String> = Vec::new();
    let mut i: usize = 0;
    while i < assignment.len()
        invariant
            i <= assignment@.len(),
            entries@.len() == i,
            target == assignment_view(assignment@).map_values(|p: (Seq<char>, Seq<char>)| chunk_peer_entry(p)),
            views(entries@) == target.take(i as int),
        decreases assignment.len() - i,
    {
        let mut e = String::new();
        e.append("{\"");
        e.append(assignment[i].0.as_str());
        e.append("\":\"");
        let d = debug_string(assignment[i].1.as_str());
        e.append(d.as_str());
        e.append("\"}");
        assert(e@ =~= target[i as int]);
        let ghost prev = entries@;
        entries.push(e);
        assert forall|k: int| 0 <= k < i + 1 implies #[trigger] views(entries@)[k] == target.take(i + 1)[k] by {
            if k < i {
                assert(views(prev)[k] == target.take(i as int)[k]);
            }
        }
        assert(views(entries@) =~= target.take(i + 1));
        i = i + 1;
    }
    assert(target.take(i as int) =~= target);
    join(&entries, ", ")
}

/// The row of a piece: file, order, size, chunk counts and chunk-to-peer column.
pub open spec fn piece_row_spec(file_id: Seq<char>, p: PieceLayout) -> Seq<(Seq<char>, Seq<char>)> {
    seq![
        ("file_id"@, file_id),
        ("piece_order"@, decimal(p.order as int)),
        ("piece_size"@, decimal(p.piece_size as int)),
        ("chunk_num"@, decimal(p.chunk_num as int)),
        ("replication_num"@, decimal(p.replication_num as int)),
        ("chunk_peer"@, chunk_peer_text(assignment_view(p.assignment@))),
    ]
}

/// The statement that records a piece of file `file_id`.
pub fn piece_insert_query(file_id: &str, piece: &PieceLayout) -> (q: String)
    ensures
        q@ == insert_text("file"@, "piece"@, piece_row_spec(file_id@, *piece), ""@),
{
    proof {
        lemma_column_names();
    }
    let row = ColumnValues::from_pairs(vec![
        ("file_id".to_string(), file_id.to_string()),
        ("piece_order".to_string(), int_to_string(piece.order as i128)),
        ("piece_size".to_string(), int_to_string(piece.piece_size as i128)),
        ("chunk_num".to_string(), int_to_string(piece.chunk_num as i128)),
        ("replication_num".to_string(), int_to_string(piece.replication_num as i128)),
        ("chunk_peer".to_string(), chunk_peer_column(&piece.assignment)),
    ]);
    assert(row@ =~= piece_row_spec(file_id@, *piece));
    insert_into_table("file", "piece", row, "")
}

/// The clause that selects the row of file `file_id` of `username`, as the upload writes it.
pub open spec fn file_key_clause(file_id: Seq<char>, username: Seq<char>) -> Seq<char> {
    "file_id='"@ + file_id + "' AND username='"@ + username + "'"@
}

/// The clause that selects the pieces of file `file_id`.
pub open spec fn pieces_clause(file_id: Seq<char>) -> Seq<char> {
    "file_id='"@ + file_id + "'"@
}

/// The statements that take back a file whose pieces could not be placed:
/// its row, then its pieces.
pub fn upload_cleanup_queries(file_id: &str, username: &str) -> (qs: (String, String))
    ensures
        qs.0@ == delete_text("file"@, "file"@, file_key_clause(file_id@, username@)),
        qs.1@ == delete_text("file"@, "piece"@, pieces_clause(file_id@)),
{
    let mut c1 = String::new();
    c1.append("file_id='");
    c1.append(file_id);
    c1.append("' AND username='");
    c1.append(username);
    c1.append("'");
    assert(c1@ =~= file_key_clause(file_id@, username@));
    let mut c2 = String::new();
    c2.append("file_id='");
    c2.append(file_id);
    c2.append("'");
    assert(c2@ =~= pieces_clause(file_id@));
    (delete_from_table("file", "file", c1), delete_from_table("file", "piece", c2))
}

/// What the upload does once the file row was written: the statements that
/// record its pieces, those that take the file back where no piece could be
/// placed, and the reply: the file identifier, or "false".
pub struct UploadRecord {
    pub pieces: Vec<PieceLayout>,
    pub piece_queries: Vec<String>,
    pub cleanup_queries: Vec<String>,
    pub reply: String,
    pub remaining: i32,
}

/// Whether `r` is what the upload of file `file_id` of `username`, of `size`
/// bytes, writes and answers over `peers`: the plan of its pieces, a
/// statement for each, the reply, which is the file identifier where some
/// piece was placed (where none was, the reply is "false" and the file is
/// taken back), and the bytes left once the pieces were cut.
pub open spec fn is_upload_record(r: UploadRecord, file_id: Seq<char>, username: Seq<char>, size: int, peers: Seq<Seq<char>>) -> bool {
    &&& is_piece_plan(r.pieces@, size, peers)
    &&& r.piece_queries@.len() == r.pieces@.len()
    &&& forall|k: int| 0 <= k < r.pieces@.len() ==> (#[trigger] r.piece_queries@[k])@
            == insert_text("file"@, "piece"@, piece_row_spec(file_id, r.pieces@[k]), ""@)
    &&& r.pieces@.len() == 0 ==> r.reply@ == "false"@ && r.cleanup_queries@.len() == 2
            && r.cleanup_queries@[0]@ == delete_text("file"@, "file"@, file_key_clause(file_id, username))
            && r.cleanup_queries@[1]@ == delete_text("file"@, "piece"@, pieces_clause(file_id))
    &&& r.pieces@.len() > 0 ==> r.reply@ == file_id && r.cleanup_queries@.len() == 0
    &&& r.remaining == remaining_after_plan(size, r.pieces@.len())
}

/// Plans the pieces of a recorded file of `size` bytes over `peers` and
/// builds what the upload writes and answers.
pub fn record_upload(file_id: &str, username: &str, size: i32, peers: &Vec<String>) -> (r: UploadRecord)
    requires
        peers@.len() > 0,
    ensures
        is_upload_record(r, file_id@, username@, size as int, views(peers@)),
{
    let (pieces, remaining) = plan_pieces(size, peers);
    let mut piece_queries: Vec<String> = Vec::new();
    let mut i: usize = 0;
    while i < pieces.len()
        invariant
            i <= pieces@.len(),
            piece_queries@.len() == i,
            forall|k: int| 0 <= k < i ==> (#[trigger] piece_queries@[k])@
                == insert_text("file"@, "piece"@, piece_row_spec(file_id@, pieces@[k]), ""@),
        decreases pieces.len() - i,
    {
        let q = piece_insert_query(file_id, &pieces[i]);
        piece_queries.push(q);
        i = i + 1;
    }
    let mut cleanup_queries: Vec<String> = Vec::new();
    let reply: String;
    if pieces.len() == 0 {
        let (q1, q2) = upload_cleanup_queries(file_id, username);
        cleanup_queries.push(q1);
        cleanup_queries.push(q2);
        reply = "false".to_string();
    } else {
        reply = file_id.to_string();
    }
    UploadRecord { pieces, piece_queries, cleanup_queries, reply, remaining }
}


/// What the upload does once the statement that records the file ran: where
/// the file was recorded ("true"), its pieces are planned over `peers` as
/// `record_upload` does; otherwise nothing more, and that answer is the reply.
pub fn upload_after_write(file_reply: &str, file_id: &str, username: &str, size: i32, peers: &Vec<String>)
    -> (r: Option<UploadRecord>)
    requires
        peers@.len() > 0,
    ensures
        r is Some <==> file_reply@ == "true"@,
        r matches Some(rec) ==> is_upload_record(rec, file_id@, username@, size as int, views(peers@)),
{
    if crate::columns::str_equal(file_reply, "true") {
        Some(record_upload(file_id, username, size, peers))
    } else {
        None
    }
}


/// The size an upload is planned for is the smaller of the two sizes the
/// client sent, whatever they are: at most the actual size, at most the
/// compressed size, and one of the two.
pub proof fn law_upload_size_is_the_smaller(file_size: int, file_size_compressed: int)
    ensures
        upload_size_spec(file_size, file_size_compressed) <= file_size,
        upload_size_spec(file_size, file_size_compressed) <= file_size_compressed,
        upload_size_spec(file_size, file_size_compressed) == file_size
            || upload_size_spec(file_size, file_size_compressed) == file_size_compressed,
{
}
}
