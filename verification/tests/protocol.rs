use swarmnet::search::{contains_text, search_answer};
use swarmnet::digest::piece_hash;
use swarmnet::file_handler::{FileDivider, FilePiece};
use swarmnet::protocol::{
    piece_no_from_captures,
    asking_available_pieces_message, asking_pieces_message, available_pieces_message, classify_datagram,
    parse_piece_no, piece_sent_line, piece_sent_line_readable, piece_transfer, pieces_header_message,
    re_peer_info_message, request_kind, retransmission_message, search_query_message, try_classify_datagram,
    try_request_kind, DatagramRequest, PieceRequest, PiecesHeader, RequestKind,
};

fn lines(text: &str) -> Vec<String> {
    text.lines().map(|l| l.to_string()).collect()
}

#[test]
fn messages_are_written_as_expected() {
    assert_eq!(search_query_message("movie"), "type:search_query\nquery:movie\n");
    assert_eq!(retransmission_message("abc"), "type:retransmission\nfile_hash:abc\n");
    assert_eq!(asking_available_pieces_message("abc"), "type:asking_available_pieces\nfile_hash:abc");
    assert_eq!(re_peer_info_message("abc", "x\ny"), "type:re_peer_info\nfile_hash:abc\nx\ny\n");
    assert_eq!(piece_sent_line(4, "ff"), "piece_no:4epiece_hash:ff\n");
    assert_eq!(
        pieces_header_message("a.txt", "hh", 10, 3, 4, 2),
        "type:pieces\nfile_name:a.txt\nfile_hash:hh\nfile_size:10\ntotal_pieces:3\npiece_length:4\nno_of_pieces:2\n"
    );
}

#[test]
fn availability_reply_counts_the_lines_of_the_piece_information() {
    let contents = "no_of_pieces:1\npiece_no:0ehash:aa\n";
    assert_eq!(
        available_pieces_message("hh", contents),
        "type:available_pieces\nfile_hash:hh\nno_of_pieces:2\nno_of_pieces:1\npiece_no:0ehash:aa\n"
    );
    assert_eq!(available_pieces_message("hh", ""), "type:available_pieces\nfile_hash:hh\nno_of_pieces:0\n");
}

#[test]
fn request_for_pieces_is_written_and_read_back() {
    let f = FileDivider {
        file_name: "movie.mp4".to_string(),
        file_hash: "ffee".to_string(),
        file_size: 6,
        no_of_pieces: 2,
        piece_length: 4,
        pieces: vec![FilePiece::new(0, "aa".to_string()), FilePiece::new(1, "bb".to_string())],
    };
    let asked = vec![FilePiece::new(1, "bb".to_string())];
    let msg = asking_pieces_message(&f, &asked);
    assert_eq!(
        msg,
        "type:asking_pieces\nfile_name:movie.mp4\nfile_hash:ffee\nfile_size:6\ntotal_pieces:2\npiece_length:4\nno_of_pieces:1\npiece_no:1ehash:bb\n"
    );
    let ls = lines(&msg);
    assert_eq!(try_request_kind(&ls[0]), Some(RequestKind::AskingPieces));
    let rest: Vec<String> = ls[1..].to_vec();
    let q = PieceRequest::parse(&rest);
    assert_eq!(q.file_name, "movie.mp4");
    assert_eq!(q.file_hash, "ffee");
    assert_eq!(q.file_size, 6);
    assert_eq!(q.total_pieces, 2);
    assert_eq!(q.piece_size, 4);
    assert_eq!(q.no_of_pieces, 1);
    assert_eq!(q.pieces.len(), 1);
    assert_eq!((q.pieces[0].piece_no, q.pieces[0].hash.as_str()), (1, "bb"));
    assert!(PieceRequest::try_parse(&rest).is_some());
    assert!(PieceRequest::try_parse(&rest[..5].to_vec()).is_none());
}

#[test]
fn pieces_header_reads_back() {
    let msg = pieces_header_message("a.txt", "hh", 10, 3, 4, 2);
    let ls = lines(&msg);
    assert_eq!(request_kind(&ls[0]), RequestKind::Pieces);
    let h = PiecesHeader::parse(&ls[1..].to_vec());
    assert_eq!(h.file_name, "a.txt");
    assert_eq!(h.file_hash, "hh");
    assert_eq!((h.file_size, h.total_pieces, h.piece_length, h.no_of_pieces), (10, 3, 4, 2));
    let bad = lines("file_name:a\nfile_hash:h\nfile_size:1\ntotal_pieces:x\npiece_length:1\nno_of_pieces:1");
    assert!(PiecesHeader::try_parse(&bad).is_none());
}

#[test]
fn request_kinds_are_read_from_the_first_line() {
    assert_eq!(request_kind("type:hash"), RequestKind::Hash);
    assert_eq!(request_kind("type:asking_available_pieces"), RequestKind::AskingAvailablePieces);
    assert_eq!(request_kind("type:available_pieces"), RequestKind::AvailablePieces);
    assert_eq!(request_kind("type:asking_pieces"), RequestKind::AskingPieces);
    assert_eq!(request_kind("type:pieces"), RequestKind::Pieces);
    assert_eq!(request_kind("type:re_peer_info"), RequestKind::RePeerInfo);
    assert_eq!(request_kind("type:unknown"), RequestKind::Other);
    assert_eq!(request_kind("xxxxxpieces"), RequestKind::Pieces);
    assert_eq!(try_request_kind("typ"), None);
}

#[test]
fn datagrams_read_back_as_sent() {
    let mut buf = search_query_message("movie").into_bytes();
    buf.resize(1024, 0);
    let text = std::str::from_utf8(&buf).unwrap();
    match classify_datagram(text) {
        DatagramRequest::Search(q) => assert_eq!(q, "movie"),
        other => panic!("unexpected {:?}", other),
    }
    match try_classify_datagram(&retransmission_message("abc")) {
        Some(DatagramRequest::Retransmission(h)) => assert_eq!(h, "abc"),
        other => panic!("unexpected {:?}", other),
    }
    assert!(matches!(try_classify_datagram("type:other\n"), Some(DatagramRequest::Other)));
    assert!(try_classify_datagram("").is_none());
    assert!(try_classify_datagram("type:search_query").is_none());
    assert!(try_classify_datagram("type:search_query\nq").is_none());
}

#[test]
fn piece_number_line_is_read() {
    assert_eq!(parse_piece_no("piece_no:5epiece_hash:ab"), Some((5, "ab".to_string())));
    assert_eq!(parse_piece_no("something else"), None);
    assert!(piece_sent_line_readable("piece_no:5epiece_hash:ab"));
    assert!(!piece_sent_line_readable("piece_no:99999999999999999999999epiece_hash:ab"));
}

#[test]
fn piece_is_sent_only_when_its_bytes_match_its_hash() {
    assert_eq!(piece_hash(b"abc"), "a9993e364706816aba3e25717850c26c9cd0d89d");
    let good = FilePiece::new(2, "a9993e364706816aba3e25717850c26c9cd0d89d".to_string());
    assert_eq!(
        piece_transfer(&good, b"abc"),
        Some("piece_no:2epiece_hash:a9993e364706816aba3e25717850c26c9cd0d89d\n".to_string())
    );
    assert_eq!(piece_transfer(&good, b"abd"), None);
}

#[test]
fn text_containment() {
    assert!(contains_text("movie.mp4.txt", "movie"));
    assert!(contains_text("movie.mp4.txt", ""));
    assert!(contains_text("abc", "abc"));
    assert!(!contains_text("abc", "abcd"));
    assert!(!contains_text("movie.mp4.txt", "song"));
    assert!(contains_text("aab", "ab"));
}

#[test]
fn search_answer_offers_matching_descriptions() {
    let entries = vec![
        ("movie.mp4.txt".to_string(), "file_name:movie.mp4\n".to_string()),
        ("song.mp3.txt".to_string(), "file_name:song.mp3\n".to_string()),
        ("movie2.mkv.txt".to_string(), "file_name:movie2.mkv\n".to_string()),
    ];
    assert_eq!(
        search_answer("movie", &entries).unwrap(),
        "type:hash\nno_of_files:2\nfile_name:movie.mp4\nfile_name:movie2.mkv\n"
    );
    assert_eq!(search_answer("song", &entries).unwrap(), "type:hash\nno_of_files:1\nfile_name:song.mp3\n");
    assert!(search_answer("nothing", &entries).is_none());
    assert!(search_answer("x", &Vec::new()).is_none());
}

#[test]
fn piece_number_from_captured_texts() {
    assert_eq!(piece_no_from_captures("7", "ab".to_string()), Some((7, "ab".to_string())));
    assert_eq!(piece_no_from_captures("x7", "ab".to_string()), None);
}
