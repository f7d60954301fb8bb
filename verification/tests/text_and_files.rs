use swarmnet::file_handler::{FileDivider, FilePiece};
use swarmnet::text::{decimal, parse_u64, parse_usize, same_text, skip_bytes, split_lines, try_skip_bytes};

fn lines(text: &str) -> Vec<String> {
    text.lines().map(|l| l.to_string()).collect()
}

#[test]
fn decimal_writes_numbers() {
    assert_eq!(decimal(0), "0");
    assert_eq!(decimal(7), "7");
    assert_eq!(decimal(12345), "12345");
    assert_eq!(decimal(u64::MAX), "18446744073709551615");
}

#[test]
fn parse_reads_numbers_as_from_str() {
    assert_eq!(parse_u64("42"), Some(42));
    assert_eq!(parse_u64("+42"), Some(42));
    assert_eq!(parse_u64("007"), Some(7));
    assert_eq!(parse_u64("18446744073709551615"), Some(u64::MAX));
    assert_eq!(parse_u64("18446744073709551616"), None);
    assert_eq!(parse_u64(""), None);
    assert_eq!(parse_u64("+"), None);
    assert_eq!(parse_u64("-1"), None);
    assert_eq!(parse_u64("12a"), None);
    assert_eq!(parse_u64(" 1"), None);
    assert_eq!(parse_usize("1024"), Some(1024));
    for s in ["0", "+9", "99999999999999999999", "x", "", "-0"] {
        assert_eq!(parse_u64(s), s.parse::<u64>().ok());
        assert_eq!(parse_usize(s), s.parse::<usize>().ok());
    }
}

#[test]
fn decimal_parses_back_on_values() {
    for n in [0u64, 1, 9, 10, 99, 1000, 65535, u64::MAX] {
        assert_eq!(parse_u64(&decimal(n)), Some(n));
    }
}

#[test]
fn skipping_bytes_cuts_like_slicing() {
    assert_eq!(skip_bytes("file_hash:abc", 10), "abc");
    assert_eq!(skip_bytes("abc", 3), "");
    assert_eq!(try_skip_bytes("abc", 4), None);
    assert_eq!(try_skip_bytes("é", 1), None);
    assert_eq!(try_skip_bytes("éa", 2), Some("a"));
    assert!(same_text("abc", "abc"));
    assert!(!same_text("abc", "abd"));
    assert!(!same_text("é", "e"));
}

#[test]
fn split_lines_matches_str_lines() {
    for t in ["", "\n", "a", "a\n", "a\r\nb\n", "a\nb", "a\r", "\r\n\r\n", "x\n\ny", "é\nü\r\n"] {
        let expected: Vec<String> = t.lines().map(|l| l.to_string()).collect();
        assert_eq!(split_lines(t), expected, "text {:?}", t);
    }
}

#[test]
fn piece_line_is_written_as_expected() {
    let p = FilePiece::new(3, "abc123".to_string());
    assert_eq!(p.convert_to_str(), "piece_no:3ehash:abc123\n");
    assert_eq!(p.piece_no, 3);
    assert_eq!(p.hash, "abc123");
}

#[test]
fn parser_reads_matching_lines_only() {
    let input = vec![
        "no_of_pieces:2".to_string(),
        "piece_no:0ehash:aa11".to_string(),
        "junk".to_string(),
        "piece_no:12ehash:ff".to_string(),
    ];
    let pieces = FilePiece::parser(input.clone(), 2);
    assert_eq!(pieces.len(), 2);
    assert_eq!((pieces[0].piece_no, pieces[0].hash.as_str()), (0, "aa11"));
    assert_eq!((pieces[1].piece_no, pieces[1].hash.as_str()), (12, "ff"));
    let checked = FilePiece::try_parser(input, 2).unwrap();
    assert_eq!(checked.len(), 2);
}

#[test]
fn parser_refuses_a_piece_number_that_is_not_a_number() {
    let input = vec!["piece_no:xyzehash:ab".to_string()];
    assert!(FilePiece::try_parser(input, 1).is_none());
    assert!(!FilePiece::line_readable("piece_no:xyzehash:ab"));
    assert!(FilePiece::line_readable("nothing to see"));
}

fn sample_file() -> FileDivider {
    FileDivider {
        file_name: "movie.mp4".to_string(),
        file_hash: "ffee".to_string(),
        file_size: 6,
        no_of_pieces: 2,
        piece_length: 4,
        pieces: vec![FilePiece::new(0, "aa".to_string()), FilePiece::new(1, "bb".to_string())],
    }
}

#[test]
fn description_is_written_as_expected() {
    let f = sample_file();
    assert_eq!(f.get_pieces_string(), "piece_no:0ehash:aa\npiece_no:1ehash:bb\n");
    assert_eq!(
        f.get_string(),
        "file_name:movie.mp4\nfile_hash:ffee\nfile_size:6\nno_of_pieces:2\npiece_length:4\npiece_no:0ehash:aa\npiece_no:1ehash:bb\n"
    );
    assert_eq!(f.piece_info_string(), "no_of_pieces:2\npiece_no:0ehash:aa\npiece_no:1ehash:bb\n");
}

#[test]
fn description_reads_back_as_written() {
    let f = sample_file();
    let text = f.get_string();
    let ls = lines(&text);
    let back = FileDivider::parse(&ls, 1);
    assert_eq!(back.len(), 1);
    let g = &back[0];
    assert_eq!(g.file_name, f.file_name);
    assert_eq!(g.file_hash, f.file_hash);
    assert_eq!(g.file_size, f.file_size);
    assert_eq!(g.no_of_pieces, f.no_of_pieces);
    assert_eq!(g.piece_length, f.piece_length);
    assert_eq!(g.pieces.len(), 2);
    assert_eq!((g.pieces[1].piece_no, g.pieces[1].hash.as_str()), (1, "bb"));
}

#[test]
fn two_descriptions_read_one_after_the_other() {
    let mut text = sample_file().get_string();
    let mut second = sample_file();
    second.file_name = "song.mp3".to_string();
    second.no_of_pieces = 1;
    second.pieces.truncate(1);
    text.push_str(&second.get_string());
    let ls = lines(&text);
    let back = FileDivider::try_parse(&ls, 2).unwrap();
    assert_eq!(back[1].file_name, "song.mp3");
    assert_eq!(back[1].pieces.len(), 1);
}

#[test]
fn description_with_fewer_piece_lines_takes_what_is_there() {
    let ls = lines("file_name:a\nfile_hash:h\nfile_size:1\nno_of_pieces:5\npiece_length:1\npiece_no:0ehash:aa\n");
    let back = FileDivider::parse(&ls, 1);
    assert_eq!(back[0].pieces.len(), 1);
    assert_eq!(back[0].no_of_pieces, 5);
}

#[test]
fn unreadable_descriptions_are_refused() {
    assert!(FileDivider::try_parse(&lines("file_name:a\nfile_hash:h\n"), 1).is_none());
    assert!(FileDivider::try_parse(&lines("file_name:a\nfile_hash:h\nfile_size:x\nno_of_pieces:0\npiece_length:1\n"), 1).is_none());
    assert!(FileDivider::try_parse(&lines("file_name:a\nfile_hash:h\nfile_size:1\nno_of_pieces:-1\npiece_length:1\n"), 1).is_none());
    assert!(FileDivider::try_parse(&lines("short\nfile_hash:h\nfile_size:1\nno_of_pieces:0\npiece_length:1\n"), 1).is_none());
    assert_eq!(FileDivider::try_parse(&Vec::new(), 0).unwrap().len(), 0);
}

#[test]
fn divide_and_hash_cuts_and_hashes() {
    let f = FileDivider::divide_and_hash(b"abcdef", "letters.txt", 4);
    assert_eq!(f.file_name, "letters.txt");
    assert_eq!(f.file_size, 6);
    assert_eq!(f.no_of_pieces, 2);
    assert_eq!(f.piece_length, 4);
    assert_eq!(f.file_hash, "1f8ac10f23c5b5bc1167bda84b833e5c057a77d2");
    assert_eq!(f.pieces[0].piece_no, 0);
    assert_eq!(f.pieces[0].hash, "81fe8bfe87576c3ecb22426f8e57847382917acf");
    assert_eq!(f.pieces[1].piece_no, 1);
    assert_eq!(f.pieces[1].hash, "f822051471957b7bbebb8ab088fe9bd6d14f4261");
}

#[test]
fn divide_and_hash_adds_an_empty_last_piece_for_a_whole_number_of_pieces() {
    let f = FileDivider::divide_and_hash(b"abcd", "x", 4);
    assert_eq!(f.no_of_pieces, 2);
    assert_eq!(f.pieces[1].hash, "da39a3ee5e6b4b0d3255bfef95601890afd80709");
    let empty = FileDivider::divide_and_hash(b"", "e", 8);
    assert_eq!(empty.no_of_pieces, 1);
    assert_eq!(empty.file_hash, "da39a3ee5e6b4b0d3255bfef95601890afd80709");
}

#[test]
fn parser_undoes_convert_to_str() {
    let ps = vec![
        FilePiece::new(0, "aa11".to_string()),
        FilePiece::new(7, "b_2".to_string()),
        FilePiece::new(12, "ff".to_string()),
    ];
    let strs: Vec<String> = ps.iter().map(|p| p.convert_to_str()).collect();
    let back = FilePiece::parser(strs, 0);
    assert_eq!(back.len(), 3);
    for (a, b) in back.iter().zip(ps.iter()) {
        assert_eq!((a.piece_no, a.hash.as_str()), (b.piece_no, b.hash.as_str()));
    }
}

#[test]
fn three_descriptions_read_back_in_order() {
    let mut files = Vec::new();
    for (name, n) in [("a.bin", 2usize), ("b.bin", 0), ("c.bin", 1)] {
        let mut f = sample_file();
        f.file_name = name.to_string();
        f.pieces.truncate(n);
        f.no_of_pieces = n as u64;
        files.push(f);
    }
    let text: String = files.iter().map(|f| f.get_string()).collect();
    let back = FileDivider::parse(&lines(&text), 3);
    assert_eq!(back.len(), 3);
    for (a, b) in back.iter().zip(files.iter()) {
        assert_eq!(a.get_string(), b.get_string());
    }
}

#[test]
fn checked_reading_undoes_writing() {
    let ps = vec![FilePiece::new(0, "aa11".to_string()), FilePiece::new(99, "Zz_9".to_string())];
    let strs: Vec<String> = ps.iter().map(|p| p.convert_to_str()).collect();
    let back = FilePiece::try_parser(strs, 2).unwrap();
    assert_eq!(back.len(), 2);
    assert_eq!((back[1].piece_no, back[1].hash.as_str()), (99, "Zz_9"));
    let mut second = sample_file();
    second.file_name = "b.bin".to_string();
    let text = sample_file().get_string() + &second.get_string();
    let files = FileDivider::try_parse(&lines(&text), 2).unwrap();
    assert_eq!(files.len(), 2);
    assert_eq!(files[0].get_string(), sample_file().get_string());
    assert_eq!(files[1].get_string(), second.get_string());
}

#[test]
fn pieces_from_captured_texts() {
    let p = FilePiece::from_captures("12", "ab".to_string()).unwrap();
    assert_eq!((p.piece_no, p.hash.as_str()), (12, "ab"));
    assert!(FilePiece::from_captures("1x", "ab".to_string()).is_none());
    assert!(FilePiece::from_captures("", "ab".to_string()).is_none());
}

#[test]
fn different_pieces_have_different_lines() {
    let a = FilePiece::new(1, "e2:x".to_string()).convert_to_str();
    let b = FilePiece::new(12, ":x".to_string()).convert_to_str();
    assert_ne!(a, b);
    assert_eq!(FilePiece::new(1, "q".to_string()).convert_to_str(), FilePiece::new(1, "q".to_string()).convert_to_str());
}
