//! The messages that peers exchange: how each is written and how its first lines are read.
use vstd::prelude::*;
use crate::file_handler::{
    piece_lines_readable, pieces_of_lines, pieces_text, pieces_view, FileDivider, FilePiece,
};
use crate::digest::{piece_digest, piece_hash};
use crate::matching::{capture_pair, pair_captures};
use crate::text::{
    after_bytes, dec_chars, lines_of, parse_u64, parse_usize, push_decimal, same_text, skip_bytes,
    split_lines, splits_at, try_skip_bytes, u64_of, usize_of,
};

verus! {

/// The pattern of the line that comes before the bytes of each piece sent to a peer.
pub const PIECE_SENT_PATTERN: &'static str = "piece_no:(\\d+)epiece_hash:(\\w+)";

/// The search query broadcast to all peers.
pub open spec fn search_query_text(value: Seq<char>) -> Seq<char> {
    "type:search_query\nquery:"@ + value + "\n"@
}

/// Builds the search query broadcast to all peers.
pub fn search_query_message(value: &str) -> (r: String)
    ensures
        r@ == search_query_text(value@),
{
    let mut out = String::new();
    out.append("type:search_query\nquery:");
    out.append(value);
    out.append("\n");
    out
}

/// The broadcast that asks peers to send again what they know of a file.
pub open spec fn retransmission_text(file_hash: Seq<char>) -> Seq<char> {
    "type:retransmission\nfile_hash:"@ + file_hash + "\n"@
}

/// Builds the broadcast that asks peers to send again what they know of a file.
pub fn retransmission_message(file_hash: &str) -> (r: String)
    ensures
        r@ == retransmission_text(file_hash@),
{
    let mut out = String::new();
    out.append("type:retransmission\nfile_hash:");
    out.append(file_hash);
    out.append("\n");
    out
}

/// The request to a peer for the list of pieces it holds of a file.
pub open spec fn asking_available_pieces_text(file_hash: Seq<char>) -> Seq<char> {
    "type:asking_available_pieces\nfile_hash:"@ + file_hash
}

/// Builds the request to a peer for the list of pieces it holds of a file.
pub fn asking_available_pieces_message(file_hash: &str) -> (r: String)
    ensures
        r@ == asking_available_pieces_text(file_hash@),
{
    let mut out = String::new();
    out.append("type:asking_available_pieces\nfile_hash:");
    out.append(file_hash);
    out
}

/// The reply that lists the pieces this node holds of a file: the number of lines of the
/// piece information, then that information as it is stored.
pub open spec fn available_pieces_text(file_hash: Seq<char>, contents: Seq<char>) -> Seq<char> {
    "type:available_pieces\nfile_hash:"@ + file_hash + "\nno_of_pieces:"@
        + dec_chars(lines_of(contents).len()) + "\n"@ + contents
}

/// Builds the reply that lists the pieces this node holds of a file from the stored piece
/// information `contents`.
pub fn available_pieces_message(file_hash: &str, contents: &str) -> (r: String)
    ensures
        r@ == available_pieces_text(file_hash@, contents@),
{
    let lines = split_lines(contents);
    let mut out = String::new();
    out.append("type:available_pieces\nfile_hash:");
    out.append(file_hash);
    out.append("\nno_of_pieces:");
    push_decimal(&mut out, lines.len() as u64);
    out.append("\n");
    out.append(contents);
    out
}

/// The answer to a retransmission broadcast: the stored piece information `msg` of a file.
pub open spec fn re_peer_info_text(file_hash: Seq<char>, msg: Seq<char>) -> Seq<char> {
    "type:re_peer_info\nfile_hash:"@ + file_hash + "\n"@ + msg + "\n"@
}

/// Builds the answer to a retransmission broadcast.
pub fn re_peer_info_message(file_hash: &str, msg: &str) -> (r: String)
    ensures
        r@ == re_peer_info_text(file_hash@, msg@),
{
    let mut out = String::new();
    out.append("type:re_peer_info\nfile_hash:");
    out.append(file_hash);
    out.append("\n");
    out.append(msg);
    out.append("\n");
    out
}

/// The request to one peer for some pieces of a file: the file's header, how many pieces are
/// asked for, then one line per piece.
pub open spec fn asking_pieces_text(
    file_name: Seq<char>,
    file_hash: Seq<char>,
    file_size: u64,
    total_pieces: u64,
    piece_length: u64,
    pieces: Seq<(u64, Seq<char>)>,
) -> Seq<char> {
    "type:asking_pieces\nfile_name:"@ + file_name + "\nfile_hash:"@ + file_hash + "\nfile_size:"@
        + dec_chars(file_size as nat) + "\ntotal_pieces:"@ + dec_chars(total_pieces as nat)
        + "\npiece_length:"@ + dec_chars(piece_length as nat) + "\nno_of_pieces:"@
        + dec_chars(pieces.len()) + "\n"@ + pieces_text(pieces)
}

/// Builds the request to one peer for the pieces `pieces` of the file `file`.
pub fn asking_pieces_message(file: &FileDivider, pieces: &Vec<FilePiece>) -> (r: String)
    ensures
        r@ == asking_pieces_text(
            file.file_name@,
            file.file_hash@,
            file.file_size,
            file.no_of_pieces,
            file.piece_length,
            pieces_view(pieces@),
        ),
{
    let mut out = String::new();
    out.append("type:asking_pieces\nfile_name:");
    out.append(file.file_name.as_str());
    out.append("\nfile_hash:");
    out.append(file.file_hash.as_str());
    out.append("\nfile_size:");
    push_decimal(&mut out, file.file_size);
    out.append("\ntotal_pieces:");
    push_decimal(&mut out, file.no_of_pieces);
    out.append("\npiece_length:");
    push_decimal(&mut out, file.piece_length);
    out.append("\nno_of_pieces:");
    push_decimal(&mut out, pieces.len() as u64);
    out.append("\n");
    let mut i: usize = 0;
    let ghost head = out@;
    while i < pieces.len()
        invariant
            i <= pieces@.len(),
            out@ == head + pieces_text(pieces_view(pieces@).take(i as int)),
        decreases pieces@.len() - i,
    {
        let line = pieces[i].convert_to_str();
        out.append(line.as_str());
        assert(pieces_view(pieces@).take(i + 1).drop_last() =~= pieces_view(pieces@).take(i as int));
        i = i + 1;
    }
    assert(pieces_view(pieces@).take(pieces@.len() as int) =~= pieces_view(pieces@));
    out
}

/// The first lines of a transfer of pieces: the file's header and how many pieces follow.
pub open spec fn pieces_header_text(
    file_name: Seq<char>,
    file_hash: Seq<char>,
    file_size: nat,
    total_pieces: nat,
    piece_length: nat,
    no_of_pieces: nat,
) -> Seq<char> {
    "type:pieces\nfile_name:"@ + file_name + "\nfile_hash:"@ + file_hash + "\nfile_size:"@
        + dec_chars(file_size) + "\ntotal_pieces:"@ + dec_chars(total_pieces)
        + "\npiece_length:"@ + dec_chars(piece_length) + "\nno_of_pieces:"@
        + dec_chars(no_of_pieces) + "\n"@
}

/// Builds the first lines of a transfer of pieces.
pub fn pieces_header_message(
    file_name: &str,
    file_hash: &str,
    file_size: usize,
    total_pieces: u64,
    piece_length: u64,
    no_of_pieces: usize,
) -> (r: String)
    ensures
        r@ == pieces_header_text(
            file_name@,
            file_hash@,
            file_size as nat,
            total_pieces as nat,
            piece_length as nat,
            no_of_pieces as nat,
        ),
{
    let mut out = String::new();
    out.append("type:pieces\nfile_name:");
    out.append(file_name);
    out.append("\nfile_hash:");
    out.append(file_hash);
    out.append("\nfile_size:");
    push_decimal(&mut out, file_size as u64);
    out.append("\ntotal_pieces:");
    push_decimal(&mut out, total_pieces);
    out.append("\npiece_length:");
    push_decimal(&mut out, piece_length);
    out.append("\nno_of_pieces:");
    push_decimal(&mut out, no_of_pieces as u64);
    out.append("\n");
    out
}

/// The line sent before the bytes of a piece, and kept in the piece information of a file
/// once the piece has arrived.
pub open spec fn piece_sent_text(piece_no: nat, hash: Seq<char>) -> Seq<char> {
    "piece_no:"@ + dec_chars(piece_no) + "epiece_hash:"@ + hash + "\n"@
}

/// Builds the line sent before the bytes of a piece.
pub fn piece_sent_line(piece_no: u64, hash: &str) -> (r: String)
    ensures
        r@ == piece_sent_text(piece_no as nat, hash@),
{
    let mut out = String::new();
    out.append("piece_no:");
    push_decimal(&mut out, piece_no);
    out.append("epiece_hash:");
    out.append(hash);
    out.append("\n");
    out
}

/// True when reading the line before a piece's bytes does not fail: the line must match the
/// pattern, and its number must fit a `usize`.
pub open spec fn piece_sent_readable(text: Seq<char>) -> bool {
    match pair_captures(PIECE_SENT_PATTERN@, text) {
        Some((n, _)) => usize_of(n) is Some,
        None => true,
    }
}

/// The piece number and hash read from the line before a piece's bytes.
pub open spec fn piece_sent_of(text: Seq<char>) -> Option<(usize, Seq<char>)> {
    match pair_captures(PIECE_SENT_PATTERN@, text) {
        Some((n, h)) => Some((usize_of(n).unwrap(), h)),
        None => None,
    }
}

/// The piece number and hash that the captured texts `n` and `h` give; `None` when `n` is not
/// a `usize`.
pub fn piece_no_from_captures(n: &str, h: String) -> (r: Option<(usize, String)>)
    ensures
        r is Some <==> usize_of(n@) is Some,
        r matches Some((v, t)) ==> v == usize_of(n@).unwrap() && t@ == h@,
{
    match parse_usize(n) {
        Some(v) => Some((v, h)),
        None => None,
    }
}

/// Reads the piece number and hash from the line that comes before a piece's bytes.
pub fn parse_piece_no(text: &str) -> (r: Option<(usize, String)>)
    requires
        piece_sent_readable(text@),
    ensures
        match r {
            Some((n, h)) => piece_sent_of(text@) == Some((n, h@)),
            None => piece_sent_of(text@) is None,
        },
{
    match capture_pair(PIECE_SENT_PATTERN, text) {
        Some((n, h)) => piece_no_from_captures(n.as_str(), h),
        None => None,
    }
}

/// Whether `parse_piece_no` can read `text` without failure.
pub fn piece_sent_line_readable(text: &str) -> (r: bool)
    ensures
        r == piece_sent_readable(text@),
{
    match capture_pair(PIECE_SENT_PATTERN, text) {
        Some((n, _)) => parse_usize(n.as_str()).is_some(),
        None => true,
    }
}


/// The kinds of request that arrive over a stream connection.
#[derive(Clone, Copy, Debug, PartialEq, Eq, Structural)]
pub enum RequestKind {
    /// A peer answers a search with the files it offers.
    Hash,
    /// A peer asks which pieces of a file this node holds.
    AskingAvailablePieces,
    /// A peer answers with the pieces it holds of a file.
    AvailablePieces,
    /// A peer asks for some pieces of a file.
    AskingPieces,
    /// A peer sends pieces of a file.
    Pieces,
    /// A peer answers a retransmission broadcast.
    RePeerInfo,
    /// Anything else; it is ignored.
    Other,
}

/// The kind named by the text after `type:` on the first line of a request.
pub open spec fn kind_of(t: Seq<char>) -> RequestKind {
    if t == "hash"@ {
        RequestKind::Hash
    } else if t == "asking_available_pieces"@ {
        RequestKind::AskingAvailablePieces
    } else if t == "available_pieces"@ {
        RequestKind::AvailablePieces
    } else if t == "asking_pieces"@ {
        RequestKind::AskingPieces
    } else if t == "pieces"@ {
        RequestKind::Pieces
    } else if t == "re_peer_info"@ {
        RequestKind::RePeerInfo
    } else {
        RequestKind::Other
    }
}

/// The kind of a request, read from its first line (without the newline): the text after
/// its first five bytes names the kind.
pub fn request_kind(first_line: &str) -> (r: RequestKind)
    requires
        splits_at(first_line@, 5),
    ensures
        r == kind_of(after_bytes(first_line@, 5)),
{
    let t = skip_bytes(first_line, 5);
    if same_text(t, "hash") {
        RequestKind::Hash
    } else if same_text(t, "asking_available_pieces") {
        RequestKind::AskingAvailablePieces
    } else if same_text(t, "available_pieces") {
        RequestKind::AvailablePieces
    } else if same_text(t, "asking_pieces") {
        RequestKind::AskingPieces
    } else if same_text(t, "pieces") {
        RequestKind::Pieces
    } else if same_text(t, "re_peer_info") {
        RequestKind::RePeerInfo
    } else {
        RequestKind::Other
    }
}

/// The kind of a request, or `None` where `request_kind` would fail.
pub fn try_request_kind(first_line: &str) -> (r: Option<RequestKind>)
    ensures
        r is Some <==> splits_at(first_line@, 5),
        r matches Some(k) ==> k == kind_of(after_bytes(first_line@, 5)),
{
    if try_skip_bytes(first_line, 5).is_some() {
        Some(request_kind(first_line))
    } else {
        None
    }
}

/// What a datagram asks for.
#[derive(Debug)]
pub enum DatagramRequest {
    /// A search for files that match the query.
    Search(String),
    /// A request to send again what this node knows of a file.
    Retransmission(String),
    /// Anything else; it is ignored.
    Other,
}

/// The meaning of a datagram, as plain values: the search query, the file hash asked about,
/// or nothing.
pub enum DatagramModel {
    Search(Seq<char>),
    Retransmission(Seq<char>),
    Other,
}

/// The view of a datagram request.
pub open spec fn datagram_view(r: DatagramRequest) -> DatagramModel {
    match r {
        DatagramRequest::Search(q) => DatagramModel::Search(q@),
        DatagramRequest::Retransmission(h) => DatagramModel::Retransmission(h@),
        DatagramRequest::Other => DatagramModel::Other,
    }
}

/// True when reading the datagram `text` does not fail: it has a first line that can be cut
/// after five bytes, and a search or retransmission has a second line that can be cut after
/// its field name.
pub open spec fn datagram_readable(text: Seq<char>) -> bool {
    let ls = lines_of(text);
    &&& ls.len() >= 1
    &&& splits_at(ls[0], 5)
    &&& (after_bytes(ls[0], 5) == "search_query"@ ==> ls.len() >= 2 && splits_at(ls[1], 6))
    &&& (after_bytes(ls[0], 5) == "retransmission"@ ==> ls.len() >= 2 && splits_at(ls[1], 10))
}

/// The meaning of the datagram `text`.
pub open spec fn datagram_of(text: Seq<char>) -> DatagramModel {
    let ls = lines_of(text);
    let t = after_bytes(ls[0], 5);
    if t == "search_query"@ {
        DatagramModel::Search(after_bytes(ls[1], 6))
    } else if t == "retransmission"@ {
        DatagramModel::Retransmission(after_bytes(ls[1], 10))
    } else {
        DatagramModel::Other
    }
}

/// Reads a datagram: the text after `type:` on its first line names the request, and the
/// text after the field name on its second line is the query or the file hash.
pub fn classify_datagram(text: &str) -> (r: DatagramRequest)
    requires
        datagram_readable(text@),
    ensures
        datagram_view(r) == datagram_of(text@),
{
    let ls = split_lines(text);
    assert(ls.deep_view()[0] == ls[0]@);
    let t = skip_bytes(ls[0].as_str(), 5);
    if same_text(t, "search_query") {
        assert(ls.deep_view()[1] == ls[1]@);
        DatagramRequest::Search(skip_bytes(ls[1].as_str(), 6).to_owned())
    } else if same_text(t, "retransmission") {
        assert(ls.deep_view()[1] == ls[1]@);
        DatagramRequest::Retransmission(skip_bytes(ls[1].as_str(), 10).to_owned())
    } else {
        DatagramRequest::Other
    }
}

/// Reads a datagram as `classify_datagram` does, or gives `None` where it would fail.
pub fn try_classify_datagram(text: &str) -> (r: Option<DatagramRequest>)
    ensures
        r is Some <==> datagram_readable(text@),
        r matches Some(d) ==> datagram_view(d) == datagram_of(text@),
{
    let ls = split_lines(text);
    if ls.len() == 0 {
        return None;
    }
    assert(ls.deep_view()[0] == ls[0]@);
    let t = match try_skip_bytes(ls[0].as_str(), 5) {
        Some(t) => t,
        None => return None,
    };
    let ghost ls_v = lines_of(text@);
    assert(ls_v == ls.deep_view());
    proof {
        reveal_strlit("search_query");
        reveal_strlit("retransmission");
        assert("search_query"@.len() != "retransmission"@.len());
    }
    if same_text(t, "search_query") {
        if ls.len() < 2 {
            return None;
        }
        assert(ls_v[1] == ls[1]@);
        if try_skip_bytes(ls[1].as_str(), 6).is_none() {
            return None;
        }
    } else if same_text(t, "retransmission") {
        if ls.len() < 2 {
            return None;
        }
        assert(ls_v[1] == ls[1]@);
        if try_skip_bytes(ls[1].as_str(), 10).is_none() {
            return None;
        }
    }
    Some(classify_datagram(text))
}


/// True when line `i` can be cut after `n` bytes and the rest read as a `usize`.
pub open spec fn usize_field(lines: Seq<Seq<char>>, i: int, n: int) -> bool {
    splits_at(lines[i], n) && usize_of(after_bytes(lines[i], n)) is Some
}

/// True when line `i` can be cut after `n` bytes and the rest read as a `u64`.
pub open spec fn u64_field(lines: Seq<Seq<char>>, i: int, n: int) -> bool {
    splits_at(lines[i], n) && u64_of(after_bytes(lines[i], n)) is Some
}

/// A request for pieces, as read from the lines after its first line.
#[derive(Debug)]
pub struct PieceRequest {
    pub file_name: String,
    pub file_hash: String,
    pub file_size: usize,
    pub total_pieces: u64,
    pub piece_size: u64,
    pub no_of_pieces: usize,
    pub pieces: Vec<FilePiece>,
}

/// True when reading a request for pieces from `lines` does not fail: six header lines, each
/// field cut at its byte offset, the numbers valid, and every piece line readable.
pub open spec fn piece_request_readable(lines: Seq<Seq<char>>) -> bool {
    &&& lines.len() >= 6
    &&& splits_at(lines[0], 10)
    &&& splits_at(lines[1], 10)
    &&& usize_field(lines, 2, 10)
    &&& u64_field(lines, 3, 13)
    &&& u64_field(lines, 4, 13)
    &&& usize_field(lines, 5, 13)
    &&& piece_lines_readable(lines.skip(6))
}

impl PieceRequest {
    /// Reads a request for pieces: the file's name, hash and size, the number of pieces of
    /// the file, their length, how many are asked for, then every remaining line as a piece.
    pub fn parse(lines: &Vec<String>) -> (r: PieceRequest)
        requires
            piece_request_readable(lines.deep_view()),
        ensures
            r.file_name@ == after_bytes(lines.deep_view()[0], 10),
            r.file_hash@ == after_bytes(lines.deep_view()[1], 10),
            r.file_size == usize_of(after_bytes(lines.deep_view()[2], 10)).unwrap(),
            r.total_pieces == u64_of(after_bytes(lines.deep_view()[3], 13)).unwrap(),
            r.piece_size == u64_of(after_bytes(lines.deep_view()[4], 13)).unwrap(),
            r.no_of_pieces == usize_of(after_bytes(lines.deep_view()[5], 13)).unwrap(),
            pieces_view(r.pieces@) == pieces_of_lines(lines.deep_view().skip(6)),
    {
        let ghost ls = lines.deep_view();
        assert(ls[0] == lines[0]@ && ls[1] == lines[1]@ && ls[2] == lines[2]@);
        assert(ls[3] == lines[3]@ && ls[4] == lines[4]@ && ls[5] == lines[5]@);
        let file_name = skip_bytes(lines[0].as_str(), 10).to_owned();
        let file_hash = skip_bytes(lines[1].as_str(), 10).to_owned();
        let file_size = parse_usize(skip_bytes(lines[2].as_str(), 10)).unwrap();
        let total_pieces = parse_u64(skip_bytes(lines[3].as_str(), 13)).unwrap();
        let piece_size = parse_u64(skip_bytes(lines[4].as_str(), 13)).unwrap();
        let no_of_pieces = parse_usize(skip_bytes(lines[5].as_str(), 13)).unwrap();
        let mut rest: Vec<String> = Vec::new();
        let mut i: usize = 6;
        while i < lines.len()
            invariant
                6 <= i <= lines@.len(),
                ls == lines.deep_view(),
                rest.deep_view() =~= ls.subrange(6, i as int),
            decreases lines@.len() - i,
        {
            assert(ls[i as int] == lines[i as int]@);
            let ghost before = rest.deep_view();
            rest.push(lines[i].clone());
            assert(rest.deep_view() =~= before.push(lines[i as int]@));
            i = i + 1;
        }
        assert(ls.subrange(6, lines@.len() as int) =~= ls.skip(6));
        let pieces = FilePiece::parser(rest, no_of_pieces);
        PieceRequest { file_name, file_hash, file_size, total_pieces, piece_size, no_of_pieces, pieces }
    }

    /// Reads a request for pieces as `parse` does, or gives `None` where it would fail.
    pub fn try_parse(lines: &Vec<String>) -> (r: Option<PieceRequest>)
        ensures
            r is Some <==> piece_request_readable(lines.deep_view()),
            r matches Some(q) ==> {
                &&& q.file_name@ == after_bytes(lines.deep_view()[0], 10)
                &&& q.file_hash@ == after_bytes(lines.deep_view()[1], 10)
                &&& q.file_size == usize_of(after_bytes(lines.deep_view()[2], 10)).unwrap()
                &&& q.total_pieces == u64_of(after_bytes(lines.deep_view()[3], 13)).unwrap()
                &&& q.piece_size == u64_of(after_bytes(lines.deep_view()[4], 13)).unwrap()
                &&& q.no_of_pieces == usize_of(after_bytes(lines.deep_view()[5], 13)).unwrap()
                &&& pieces_view(q.pieces@) == pieces_of_lines(lines.deep_view().skip(6))
            },
    {
        let ghost ls = lines.deep_view();
        if lines.len() < 6 {
            return None;
        }
        assert(ls[0] == lines[0]@ && ls[1] == lines[1]@ && ls[2] == lines[2]@);
        assert(ls[3] == lines[3]@ && ls[4] == lines[4]@ && ls[5] == lines[5]@);
        if !text_field(lines, 0, 10) || !text_field(lines, 1, 10) || !usize_field_ok(lines, 2, 10)
            || !u64_field_ok(lines, 3, 13) || !u64_field_ok(lines, 4, 13)
            || !usize_field_ok(lines, 5, 13) {
            return None;
        }
        let mut i: usize = 6;
        while i < lines.len()
            invariant
                6 <= i <= lines@.len(),
                ls == lines.deep_view(),
                forall|j: int| 0 <= j < i - 6 ==> crate::file_handler::piece_line_readable(#[trigger] ls.skip(6)[j]),
            decreases lines@.len() - i,
        {
            assert(ls.skip(6)[i - 6] == lines[i as int]@);
            if !FilePiece::line_readable(lines[i].as_str()) {
                return None;
            }
            i = i + 1;
        }
        Some(PieceRequest::parse(lines))
    }
}

/// Whether line `i` can be cut after `n` bytes.
fn text_field(lines: &Vec<String>, i: usize, n: usize) -> (r: bool)
    requires
        i < lines@.len(),
    ensures
        r == splits_at(lines.deep_view()[i as int], n as int),
{
    assert(lines.deep_view()[i as int] == lines[i as int]@);
    try_skip_bytes(lines[i].as_str(), n).is_some()
}

/// Whether line `i` can be cut after `n` bytes and the rest read as a `usize`.
fn usize_field_ok(lines: &Vec<String>, i: usize, n: usize) -> (r: bool)
    requires
        i < lines@.len(),
    ensures
        r == usize_field(lines.deep_view(), i as int, n as int),
{
    assert(lines.deep_view()[i as int] == lines[i as int]@);
    match try_skip_bytes(lines[i].as_str(), n) {
        Some(t) => parse_usize(t).is_some(),
        None => false,
    }
}

/// Whether line `i` can be cut after `n` bytes and the rest read as a `u64`.
fn u64_field_ok(lines: &Vec<String>, i: usize, n: usize) -> (r: bool)
    requires
        i < lines@.len(),
    ensures
        r == u64_field(lines.deep_view(), i as int, n as int),
{
    assert(lines.deep_view()[i as int] == lines[i as int]@);
    match try_skip_bytes(lines[i].as_str(), n) {
        Some(t) => parse_u64(t).is_some(),
        None => false,
    }
}

/// The first lines of a transfer of pieces, as read by the receiver.
#[derive(Debug)]
pub struct PiecesHeader {
    pub file_name: String,
    pub file_hash: String,
    pub file_size: usize,
    pub total_pieces: usize,
    pub piece_length: usize,
    pub no_of_pieces: usize,
}

/// True when reading the header of a transfer of pieces from `lines` does not fail.
pub open spec fn pieces_header_readable(lines: Seq<Seq<char>>) -> bool {
    &&& lines.len() >= 6
    &&& splits_at(lines[0], 10)
    &&& splits_at(lines[1], 10)
    &&& usize_field(lines, 2, 10)
    &&& usize_field(lines, 3, 13)
    &&& usize_field(lines, 4, 13)
    &&& usize_field(lines, 5, 13)
}

impl PiecesHeader {
    /// Reads the header of a transfer of pieces: the file's name, hash and size, the number of
    /// pieces of the file, their length, and how many pieces follow.
    pub fn parse(lines: &Vec<String>) -> (r: PiecesHeader)
        requires
            pieces_header_readable(lines.deep_view()),
        ensures
            r.file_name@ == after_bytes(lines.deep_view()[0], 10),
            r.file_hash@ == after_bytes(lines.deep_view()[1], 10),
            r.file_size == usize_of(after_bytes(lines.deep_view()[2], 10)).unwrap(),
            r.total_pieces == usize_of(after_bytes(lines.deep_view()[3], 13)).unwrap(),
            r.piece_length == usize_of(after_bytes(lines.deep_view()[4], 13)).unwrap(),
            r.no_of_pieces == usize_of(after_bytes(lines.deep_view()[5], 13)).unwrap(),
    {
        let ghost ls = lines.deep_view();
        assert(ls[0] == lines[0]@ && ls[1] == lines[1]@ && ls[2] == lines[2]@);
        assert(ls[3] == lines[3]@ && ls[4] == lines[4]@ && ls[5] == lines[5]@);
        PiecesHeader {
            file_name: skip_bytes(lines[0].as_str(), 10).to_owned(),
            file_hash: skip_bytes(lines[1].as_str(), 10).to_owned(),
            file_size: parse_usize(skip_bytes(lines[2].as_str(), 10)).unwrap(),
            total_pieces: parse_usize(skip_bytes(lines[3].as_str(), 13)).unwrap(),
            piece_length: parse_usize(skip_bytes(lines[4].as_str(), 13)).unwrap(),
            no_of_pieces: parse_usize(skip_bytes(lines[5].as_str(), 13)).unwrap(),
        }
    }

    /// Reads the header as `parse` does, or gives `None` where it would fail.
    pub fn try_parse(lines: &Vec<String>) -> (r: Option<PiecesHeader>)
        ensures
            r is Some <==> pieces_header_readable(lines.deep_view()),
            r matches Some(h) ==> {
                &&& h.file_name@ == after_bytes(lines.deep_view()[0], 10)
                &&& h.file_hash@ == after_bytes(lines.deep_view()[1], 10)
                &&& h.file_size == usize_of(after_bytes(lines.deep_view()[2], 10)).unwrap()
                &&& h.total_pieces == usize_of(after_bytes(lines.deep_view()[3], 13)).unwrap()
                &&& h.piece_length == usize_of(after_bytes(lines.deep_view()[4], 13)).unwrap()
                &&& h.no_of_pieces == usize_of(after_bytes(lines.deep_view()[5], 13)).unwrap()
            },
    {
        if lines.len() < 6 {
            return None;
        }
        if !text_field(lines, 0, 10) || !text_field(lines, 1, 10) || !usize_field_ok(lines, 2, 10)
            || !usize_field_ok(lines, 3, 13) || !usize_field_ok(lines, 4, 13)
            || !usize_field_ok(lines, 5, 13) {
            return None;
        }
        Some(PiecesHeader::parse(lines))
    }
}

/// The line to send before a piece's bytes when those bytes hash to the piece's hash;
/// `None` when they do not, and the piece is not sent.
pub fn piece_transfer(piece: &FilePiece, data: &[u8]) -> (r: Option<String>)
    ensures
        r is Some <==> piece_digest(data@) == piece.hash@,
        r matches Some(line) ==> line@ == piece_sent_text(piece.piece_no as nat, piece.hash@),
{
    let h = piece_hash(data);
    if same_text(h.as_str(), piece.hash.as_str()) {
        Some(piece_sent_line(piece.piece_no, piece.hash.as_str()))
    } else {
        None
    }
}

} // verus!
