use swarmnet::search::search_answer;
use swarmnet::address::PeerAddr;
use swarmnet::assembly::{assemble_file, layout_valid, piece_bytes_to_write};
use swarmnet::file_handler::{FileDivider, FileInfo, FilePiece, PiecesFromPeer};
use swarmnet::listing::{active_files, progress_step, search_results};
use swarmnet::paths::{
    name_from_parts,
    delete_file_paths, file_hash_path, files_path_path, parse_uploaded_file_name, piece_file_path, piece_info_path,
    pieces_dir, seeded_file_hash,
};
use swarmnet::selection::{build_piece_holders, plan_requests, PieceHolders};
use swarmnet::swarmnet::{piece_response_handler, try_piece_response_handler, PieceFromIpAndPiece, Status, SwarmNet};
use swarmnet::protocol::PiecesHeader;
use swarmnet::table::Table;

fn lines(text: &str) -> Vec<String> {
    text.lines().map(|l| l.to_string()).collect()
}

fn file(hash: &str, pieces: &[(u64, &str)]) -> FileDivider {
    FileDivider {
        file_name: format!("{hash}.bin"),
        file_hash: hash.to_string(),
        file_size: 10,
        no_of_pieces: pieces.len() as u64,
        piece_length: 4,
        pieces: pieces.iter().map(|(n, h)| FilePiece::new(*n, h.to_string())).collect(),
    }
}

const A: PeerAddr = PeerAddr::V4(0x0a000001);
const B: PeerAddr = PeerAddr::V4(0x0a000002);

#[test]
fn table_keeps_one_value_per_key() {
    let mut t: Table<u32> = Table::new();
    assert_eq!(t.len(), 0);
    t.insert("a".to_string(), 1);
    t.insert("b".to_string(), 2);
    t.insert("a".to_string(), 3);
    assert_eq!(t.len(), 2);
    assert_eq!(t.get("a"), Some(&3));
    assert!(t.contains_key("b"));
    assert_eq!(t.take("b"), Some(2));
    assert_eq!(t.take("b"), None);
    assert!(!t.contains_key("b"));
    assert_eq!(t.key_at(0), "a");
    assert_eq!(*t.value_at(0), 3);
    t.clear();
    assert_eq!(t.len(), 0);
}

#[test]
fn start_is_idle_and_empty() {
    let s = SwarmNet::start();
    assert_eq!(s.status, Status::Idle);
    assert_eq!(s.files_map.len(), 0);
    assert_eq!(s.seeded_files.len(), 0);
    assert!(s.completion_tracker.is_empty());
}

#[test]
fn status_changes() {
    let mut s = SwarmNet::start();
    s.set_searching();
    assert_eq!(s.status, Status::Searching);
    s.create_hash_map(file("h1", &[(0, "aa")]), A);
    s.reset_searching();
    assert_eq!(s.status, Status::Idle);
    assert_eq!(s.files_map.len(), 0);
    s.set_piece_handling();
    assert_eq!(s.status, Status::PieceHandling);
    s.peer_and_pieces.insert("h".to_string(), Vec::new());
    s.reset_piece_handling();
    assert_eq!(s.status, Status::Idle);
    assert_eq!(s.peer_and_pieces.len(), 0);
}

#[test]
fn offers_of_the_same_file_add_peers() {
    let mut s = SwarmNet::start();
    s.create_hash_map(file("h1", &[(0, "aa")]), A);
    s.create_hash_map(file("h1", &[(0, "zz")]), B);
    s.create_hash_map(file("h2", &[]), B);
    let info = s.files_map.get("h1").unwrap();
    assert_eq!(info.peers, vec![A, B]);
    assert_eq!(info.file.pieces[0].hash, "aa");
    assert_eq!(s.files_map.get("h2").unwrap().peers, vec![B]);
}

#[test]
fn answer_to_a_search_is_recorded() {
    let mut s = SwarmNet::start();
    let mut text = String::from("no_of_files:2\n");
    text.push_str(&file("h1", &[(0, "aa"), (1, "bb")]).get_string());
    text.push_str(&file("h2", &[(0, "cc")]).get_string());
    let ls = lines(&text);
    s.handle_hash(&ls, A);
    assert_eq!(s.files_map.len(), 2);
    assert_eq!(s.files_map.get("h1").unwrap().file.pieces.len(), 2);
    assert!(s.try_handle_hash(&ls, B));
    assert_eq!(s.files_map.get("h2").unwrap().peers, vec![A, B]);
    assert!(!s.try_handle_hash(&lines("no_of_files:x"), B));
    assert!(!s.try_handle_hash(&lines("no_of_files:3\n"), B));
}

fn downloading_node() -> SwarmNet {
    let mut s = SwarmNet::start();
    s.create_hash_map(file("h1", &[(0, "aa"), (1, "bb"), (2, "cc")]), A);
    s.create_hash_map(file("h1", &[]), B);
    s.create_hash_map(file("other", &[]), B);
    let asks = s.request_info_about_file_pieces("h1");
    assert_eq!(asks.len(), 2);
    assert_eq!(asks[0].0, A);
    assert_eq!(asks[1].0, B);
    assert_eq!(asks[0].1, "type:asking_available_pieces\nfile_hash:h1");
    s
}

#[test]
fn asking_for_the_pieces_of_a_file_starts_its_download() {
    let s = downloading_node();
    assert_eq!(s.status, Status::PieceHandling);
    assert_eq!(s.files_map.len(), 0);
    assert!(s.downloading_files_map.contains_key("h1"));
    assert_eq!(s.peer_and_pieces.get("h1").unwrap().len(), 0);
    assert_eq!(s.pieces_got.get("h1").unwrap().len(), 0);
}

#[test]
fn peer_reports_are_recorded() {
    let mut s = downloading_node();
    let a = lines("file_hash:h1\nno_of_pieces:3\nno_of_pieces:2\npiece_no:0ehash:aa\npiece_no:1ehash:bb\npiece_no:2ehash:cc");
    piece_response_handler(&a, A, &mut s.peer_and_pieces);
    let b = lines("file_hash:h1\nno_of_pieces:1\npiece_no:2ehash:cc");
    assert!(try_piece_response_handler(&b, B, &mut s.peer_and_pieces));
    let reports = s.peer_and_pieces.get("h1").unwrap();
    assert_eq!(reports.len(), 2);
    assert_eq!(reports[0].ip_addr, A);
    assert_eq!(reports[0].no_of_pieces, 3);
    assert_eq!(reports[0].pieces.len(), 2);
    assert_eq!(reports[1].pieces[0].piece_no, 2);
    assert!(!try_piece_response_handler(&lines("file_hash:zz\nno_of_pieces:0"), B, &mut s.peer_and_pieces));
}

#[test]
fn holders_follow_the_reports() {
    let pieces = vec![FilePiece::new(0, "aa".into()), FilePiece::new(1, "bb".into()), FilePiece::new(0, "aa".into())];
    let reports = vec![
        PiecesFromPeer::new(A, vec![FilePiece::new(1, "bb".into())], 1),
        PiecesFromPeer::new(B, vec![FilePiece::new(0, "aa".into()), FilePiece::new(1, "bb".into())], 2),
    ];
    let hs = build_piece_holders(&pieces, &reports);
    assert_eq!(hs.len(), 2);
    assert_eq!(hs[0].piece.piece_no, 0);
    assert_eq!(hs[0].peers, vec![B]);
    assert_eq!(hs[1].peers, vec![A, B]);
}

#[test]
fn plan_groups_pieces_by_chosen_peer() {
    let hs = vec![
        PieceHolders { piece: FilePiece::new(0, "aa".into()), peers: vec![A, B] },
        PieceHolders { piece: FilePiece::new(1, "bb".into()), peers: vec![B] },
        PieceHolders { piece: FilePiece::new(2, "cc".into()), peers: vec![A] },
    ];
    let plan = plan_requests(&hs, &vec![B, B, A]);
    assert_eq!(plan.len(), 2);
    assert_eq!(plan[0].peer, B);
    assert_eq!(plan[0].pieces.iter().map(|p| p.piece_no).collect::<Vec<_>>(), vec![0, 1]);
    assert_eq!(plan[1].peer, A);
    assert_eq!(plan[1].pieces[0].piece_no, 2);
}

#[test]
fn selected_pieces_are_asked_of_their_holders() {
    let mut s = downloading_node();
    piece_response_handler(&lines("file_hash:h1\nno_of_pieces:2\npiece_no:0ehash:aa\npiece_no:1ehash:bb"), A, &mut s.peer_and_pieces);
    piece_response_handler(&lines("file_hash:h1\nno_of_pieces:2\npiece_no:1ehash:bb\npiece_no:2ehash:cc"), B, &mut s.peer_and_pieces);
    let asks = s.select_pieces_from_peers("h1");
    let mut asked: Vec<u64> = Vec::new();
    let mut peers = Vec::new();
    for (peer, msg) in &asks {
        assert!(!peers.contains(peer));
        peers.push(*peer);
        assert!(msg.starts_with("type:asking_pieces\nfile_name:h1.bin\nfile_hash:h1\n"));
        for l in msg.lines().skip(7) {
            let n: u64 = l.trim_start_matches("piece_no:").split('e').next().unwrap().parse().unwrap();
            if n == 0 {
                assert_eq!(*peer, A);
            }
            if n == 2 {
                assert_eq!(*peer, B);
            }
            asked.push(n);
        }
    }
    asked.sort();
    assert_eq!(asked, vec![0, 1, 2]);
    assert_eq!(s.piece_and_peers.get("h1").unwrap().len(), 3);
    assert_eq!(s.seeded_files.get("h1").unwrap(), "downloading");
}

#[test]
fn arrived_pieces_complete_the_download() {
    let mut s = downloading_node();
    piece_response_handler(&lines("file_hash:h1\nno_of_pieces:3\npiece_no:0ehash:aa\npiece_no:1ehash:bb\npiece_no:2ehash:cc"), A, &mut s.peer_and_pieces);
    s.select_pieces_from_peers("h1");
    for n in 0..3u64 {
        s.update_if_transfer_is_completed("h1");
        assert!(s.completion_tracker.is_empty());
        s.record_received_piece("h1", A, n as usize);
        s.remove_awaited_piece("h1", n);
    }
    assert_eq!(s.pieces_got.get("h1").unwrap().len(), 3);
    assert_eq!(s.pieces_got.get("h1").unwrap()[2].piece_no, 2);
    s.update_if_transfer_is_completed("h1");
    assert_eq!(s.completion_tracker, vec!["h1".to_string()]);
    assert!(!s.piece_and_peers.contains_key("h1"));
    s.complete_download(0, "/downloads/h1.bin".to_string());
    assert!(s.completion_tracker.is_empty());
    assert!(!s.downloading_files_map.contains_key("h1"));
    assert!(!s.peer_and_pieces.contains_key("h1"));
    assert_eq!(s.seeded_files.get("h1").unwrap(), "/downloads/h1.bin");
}

#[test]
fn left_out_pieces_are_those_not_received() {
    let mut s = SwarmNet::start();
    s.create_hash_map(file("h1", &[(0, "aa"), (1, "bb"), (2, "cc")]), A);
    s.pieces_got.insert("h1".to_string(), vec![PieceFromIpAndPiece::new(A, 1)]);
    assert_eq!(s.left_out_pieces("h1"), vec![0, 2]);
    s.pieces_got.insert("h1".to_string(), vec![PieceFromIpAndPiece::new(A, 2), PieceFromIpAndPiece::new(B, 0), PieceFromIpAndPiece::new(B, 1)]);
    assert!(s.left_out_pieces("h1").is_empty());
}

#[test]
fn last_piece_is_cut_to_the_file_size() {
    assert_eq!(piece_bytes_to_write(0, 3, 4, 10), 4);
    assert_eq!(piece_bytes_to_write(2, 3, 4, 10), 2);
    assert_eq!(piece_bytes_to_write(2, 3, 4, 12), 4);
}

#[test]
fn file_is_put_together_from_its_pieces() {
    let reads = vec![b"abcd".to_vec(), b"ef".to_vec()];
    assert_eq!(assemble_file(&reads, 4, 6), b"abcdef".to_vec());
    let short = vec![b"abcd".to_vec(), b"x".to_vec()];
    assert_eq!(assemble_file(&short, 4, 6), b"abcdxb".to_vec());
    let first_short = vec![b"ab".to_vec(), b"cdef".to_vec()];
    assert_eq!(assemble_file(&first_short, 4, 7), b"ab\0\0cde".to_vec());
    assert!(assemble_file(&Vec::new(), 4, 0).is_empty());
}

#[test]
fn listings_show_the_files() {
    let mut s = SwarmNet::start();
    s.create_hash_map(file("h1", &[(0, "aa"), (1, "bb")]), A);
    s.create_hash_map(file("h1", &[]), B);
    let r = search_results(&s.files_map);
    assert_eq!(r.len(), 1);
    assert_eq!(r[0].name, "h1.bin");
    assert_eq!((r[0].chunks, r[0].file_size, r[0].seeds, r[0].status), (2, 10, 2, 0));
    let files = vec![file("x", &[(0, "aa")])];
    let a = active_files(&files);
    assert_eq!((a[0].chunks, a[0].seeds, a[0].status), (1, 2, 100));
    assert_eq!(a[0].file_hash, "x");
    let _unused: Option<FileInfo> = None;
}

#[test]
fn paths_and_names() {
    assert_eq!(file_hash_path("a.mp4"), "file_hash/a.mp4.txt");
    assert_eq!(files_path_path("hh"), "files_path/hh.txt");
    assert_eq!(piece_info_path("hh"), "piece_info/hh.txt");
    assert_eq!(pieces_dir("hh"), "pieces/hh");
    assert_eq!(piece_file_path("hh", 12), "pieces/hh/12.txt");
    assert_eq!(delete_file_paths("a.mp4", "hh"), vec!["file_hash/a.mp4.txt", "files_path/hh.txt", "piece_info/hh.txt"]);
    assert_eq!(seeded_file_hash("abc.txt"), "abc");
    assert_eq!(seeded_file_hash("ab"), "");
    assert_eq!(parse_uploaded_file_name("C:\\Users\\me\\movie.mp4"), "movie.mp4");
    assert_eq!(parse_uploaded_file_name("plain.txt"), "plain.txt");
    assert_eq!(parse_uploaded_file_name("dir\\"), "");
}

#[test]
fn selection_is_refused_until_every_piece_has_a_holder() {
    let mut s = downloading_node();
    assert!(!s.selectable("zz"));
    assert!(s.try_select_pieces_from_peers("zz").is_none());
    piece_response_handler(&lines("file_hash:h1\nno_of_pieces:2\npiece_no:0ehash:aa\npiece_no:1ehash:bb"), A, &mut s.peer_and_pieces);
    assert!(!s.selectable("h1"));
    assert!(s.try_select_pieces_from_peers("h1").is_none());
    assert!(!s.piece_and_peers.contains_key("h1"));
    piece_response_handler(&lines("file_hash:h1\nno_of_pieces:1\npiece_no:2ehash:cc"), B, &mut s.peer_and_pieces);
    assert!(s.selectable("h1"));
    let asks = s.try_select_pieces_from_peers("h1").unwrap();
    assert_eq!(asks.len(), 2);
    assert_eq!(s.piece_and_peers.get("h1").unwrap().len(), 3);
}

#[test]
fn selection_is_refused_for_a_piece_that_is_not_in_the_file() {
    let mut s = downloading_node();
    piece_response_handler(&lines("file_hash:h1\nno_of_pieces:4\npiece_no:0ehash:aa\npiece_no:1ehash:bb\npiece_no:2ehash:cc\npiece_no:7ehash:zz"), A, &mut s.peer_and_pieces);
    assert!(!s.selectable("h1"));
    assert!(s.try_select_pieces_from_peers("h1").is_none());
}

fn header(total_pieces: usize, piece_length: usize, file_size: usize) -> PiecesHeader {
    PiecesHeader {
        file_name: "h1.bin".to_string(),
        file_hash: "h1".to_string(),
        file_size,
        total_pieces,
        piece_length,
        no_of_pieces: 1,
    }
}

#[test]
fn arrived_piece_is_recorded_and_cut() {
    let mut s = downloading_node();
    piece_response_handler(&lines("file_hash:h1\nno_of_pieces:3\npiece_no:0ehash:aa\npiece_no:1ehash:bb\npiece_no:2ehash:cc"), A, &mut s.peer_and_pieces);
    s.select_pieces_from_peers("h1");
    let h = header(3, 4, 10);
    let first = s.handle_piece(&h, "piece_no:0epiece_hash:aa", B);
    assert_eq!((first.piece_no, first.keep), (0, 4));
    assert_eq!(first.record_line, "piece_no:0epiece_hash:aa\n");
    let last = s.try_handle_piece(&h, "piece_no:2epiece_hash:cc", B).unwrap();
    assert_eq!((last.piece_no, last.keep), (2, 2));
    assert_eq!(s.pieces_got.get("h1").unwrap().len(), 2);
    assert_eq!(s.pieces_got.get("h1").unwrap()[1].ip, B);
    let awaited = s.piece_and_peers.get("h1").unwrap();
    assert_eq!(awaited.len(), 1);
    assert_eq!(awaited[0].piece.piece_no, 1);
}

#[test]
fn unusable_arrivals_are_refused() {
    let mut s = downloading_node();
    let h = header(3, 4, 10);
    assert!(s.try_handle_piece(&h, "no piece here", A).is_none());
    assert!(s.try_handle_piece(&header(3, 4, 20), "piece_no:2epiece_hash:cc", A).is_none());
    assert!(s.try_handle_piece(&header(0, 4, 0), "piece_no:0epiece_hash:cc", A).is_none());
    let mut other = header(3, 4, 10);
    other.file_hash = "zz".to_string();
    assert!(s.try_handle_piece(&other, "piece_no:0epiece_hash:aa", A).is_none());
    assert_eq!(s.pieces_got.get("h1").unwrap().len(), 0);
    assert!(s.try_handle_piece(&header(3, 4, 20), "piece_no:1epiece_hash:bb", A).is_some());
}

#[test]
fn layouts_are_checked() {
    assert!(layout_valid(3, 4, 10));
    assert!(layout_valid(3, 4, 12));
    assert!(layout_valid(3, 4, 8));
    assert!(!layout_valid(3, 4, 7));
    assert!(!layout_valid(3, 4, 13));
    assert!(!layout_valid(0, 4, 0));
    assert!(!layout_valid(usize::MAX, 2, 0));
}

#[test]
fn search_answer_is_read_back_by_the_searcher() {
    let f1 = file("h1", &[(0, "aa"), (1, "bb")]);
    let f2 = file("h2", &[(0, "cc")]);
    let entries = vec![
        ("h1.bin.txt".to_string(), f1.get_string()),
        ("h2.bin.txt".to_string(), f2.get_string()),
    ];
    let answer = search_answer(".bin", &entries).unwrap();
    let all = lines(&answer);
    assert_eq!(all[0], "type:hash");
    let mut s = SwarmNet::start();
    assert!(s.try_handle_hash(&all[1..].to_vec(), A));
    assert_eq!(s.files_map.len(), 2);
    assert_eq!(s.files_map.get("h1").unwrap().file.pieces.len(), 2);
    assert_eq!(s.files_map.get("h2").unwrap().file.get_string(), f2.get_string());
    assert_eq!(s.files_map.get("h2").unwrap().peers, vec![A]);
}

#[test]
fn left_out_pieces_are_joined_once_all_have_arrived() {
    let mut s = SwarmNet::start();
    s.create_hash_map(file("h1", &[(0, "aa"), (1, "bb"), (2, "cc")]), A);
    let reads = vec![b"abcd".to_vec(), b"efgh".to_vec(), b"ij".to_vec()];
    s.pieces_got.insert("h1".to_string(), vec![PieceFromIpAndPiece::new(A, 0), PieceFromIpAndPiece::new(A, 2)]);
    assert!(s.try_handle_left_out_pieces("h1", &reads).is_none());
    s.pieces_got.insert("h1".to_string(), vec![PieceFromIpAndPiece::new(A, 2), PieceFromIpAndPiece::new(A, 0), PieceFromIpAndPiece::new(B, 1)]);
    assert_eq!(s.handle_left_out_pieces("h1", &reads), b"abcdefghij".to_vec());
    assert_eq!(s.try_handle_left_out_pieces("h1", &reads).unwrap(), b"abcdefghij".to_vec());
    assert!(s.try_handle_left_out_pieces("h1", &reads[..2].to_vec()).is_none());
    assert!(s.try_handle_left_out_pieces("h1", &vec![b"abcde".to_vec(), b"x".to_vec(), b"y".to_vec()]).is_none());
    assert!(s.try_handle_left_out_pieces("zz", &reads).is_none());
    assert_eq!(s.files_map.len(), 1);
    assert_eq!(s.pieces_got.get("h1").unwrap().len(), 3);
}

#[test]
fn progress_steps() {
    assert_eq!(progress_step(0, Some(3), 5), (3, true));
    assert_eq!(progress_step(3, Some(6), 5), (6, false));
    assert_eq!(progress_step(3, Some(5), 5), (5, true));
    assert_eq!(progress_step(3, None, 5), (103, false));
}

#[test]
fn name_is_the_last_part() {
    assert_eq!(name_from_parts(&vec!["C:".to_string(), "dir".to_string(), "a.txt".to_string()]), "a.txt");
    assert_eq!(name_from_parts(&vec!["only".to_string()]), "only");
}
