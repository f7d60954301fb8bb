//! What the reader of a message or description gives back of what the writer wrote.
use vstd::prelude::*;
use vstd::utf8::is_ascii_chars;
use crate::file_handler::{
    file_at, file_readable, header_readable, piece_line_readable, piece_lines_readable, pieces_end,
    announced_pieces, piece_of_line, file_text, files_at, files_readable, header_text, piece_body, piece_line, pieces_of_lines,
    pieces_text, captures_known, FileModel, PIECE_LINE_PATTERN,
};
use crate::matching::{ascii_word, ascii_word_char, pair_captures, piece_pattern_text};
use crate::address::PeerAddr;
use crate::swarmnet::{hash_answer_files, hash_answer_readable, report_end, report_file_hash, report_of, report_readable};
use crate::search::{concat_texts, hash_answer_text};
use crate::protocol::{
    available_pieces_text, asking_pieces_text, piece_request_readable, pieces_header_readable, pieces_header_text,
    usize_field, u64_field, datagram_of, datagram_readable, kind_of, retransmission_text, search_query_text, DatagramModel,
    RequestKind,
};
use crate::text::{
    dec_chars, decimal_parses_back, lemma_after_ascii, lemma_lines_append, lemma_single_line,
    lines_of, plain_line, after_bytes, splits_at, u64_of, usize_of,
};

verus! {

/// The lines of a file description, without their newlines.
pub open spec fn description_lines(f: FileModel) -> Seq<Seq<char>> {
    seq![
        "file_name:"@ + f.file_name,
        "file_hash:"@ + f.file_hash,
        "file_size:"@ + dec_chars(f.file_size as nat),
        "no_of_pieces:"@ + dec_chars(f.no_of_pieces as nat),
        "piece_length:"@ + dec_chars(f.piece_length as nat),
    ] + f.pieces.map_values(|p: (u64, Seq<char>)| piece_body(p))
}

/// True when the texts of a description read back as single lines: no newline in the file's
/// name, hash and piece hashes, and none of them ends with a carriage return.
pub open spec fn plain_description(f: FileModel) -> bool {
    &&& plain_line(f.file_name)
    &&& plain_line(f.file_hash)
    &&& forall|i: int| 0 <= i < f.pieces.len() ==> plain_line(#[trigger] f.pieces[i].1)
}

proof fn lemma_digits_plain(n: nat)
    ensures
        plain_line(dec_chars(n)),
        forall|j: int| 0 <= j < dec_chars(n).len() ==> '0' <= #[trigger] dec_chars(n)[j] <= '9',
    decreases n,
{
    if n >= 10 {
        lemma_digits_plain(n / 10);
        assert forall|j: int| 0 <= j < dec_chars(n).len() implies '0' <= #[trigger] dec_chars(n)[j] <= '9' by {
            if j < dec_chars(n / 10).len() {
                assert(dec_chars(n)[j] == dec_chars(n / 10)[j]);
            }
        }
    }
}

/// A literal prefix followed by a plain text is a plain line.
proof fn lemma_prefixed_plain(p: Seq<char>, s: Seq<char>)
    requires
        plain_line(s),
        forall|j: int| 0 <= j < p.len() ==> p[j] != '\n',
        p.len() > 0 ==> p.last() != '\r',
    ensures
        plain_line(p + s),
{
    assert forall|j: int| 0 <= j < (p + s).len() implies (p + s)[j] != '\n' by {
        if j < p.len() {
            assert((p + s)[j] == p[j]);
        } else {
            assert((p + s)[j] == s[j - p.len()]);
        }
    }
    if s.len() > 0 {
        assert((p + s).last() == s.last());
    } else {
        assert(p + s =~= p);
    }
}

proof fn lemma_piece_body_plain(p: (u64, Seq<char>))
    requires
        plain_line(p.1),
    ensures
        plain_line(piece_body(p)),
{
    reveal_strlit("piece_no:");
    reveal_strlit("ehash:");
    lemma_digits_plain(p.0 as nat);
    lemma_prefixed_plain("ehash:"@, p.1);
    lemma_prefixed_plain(dec_chars(p.0 as nat), "ehash:"@ + p.1);
    lemma_prefixed_plain("piece_no:"@, dec_chars(p.0 as nat) + ("ehash:"@ + p.1));
    assert(piece_body(p) =~= "piece_no:"@ + (dec_chars(p.0 as nat) + ("ehash:"@ + p.1)));
}

/// The lines of the piece lines are the piece texts.
pub proof fn lemma_pieces_text_lines(ps: Seq<(u64, Seq<char>)>)
    requires
        forall|i: int| 0 <= i < ps.len() ==> plain_line(#[trigger] ps[i].1),
    ensures
        lines_of(pieces_text(ps)) == ps.map_values(|p: (u64, Seq<char>)| piece_body(p)),
        pieces_text(ps).len() == 0 || pieces_text(ps).last() == '\n',
    decreases ps.len(),
{
    reveal_strlit("\n");
    if ps.len() == 0 {
        assert(lines_of(Seq::<char>::empty()) =~= Seq::<Seq<char>>::empty());
        assert(ps.map_values(|p: (u64, Seq<char>)| piece_body(p)) =~= Seq::<Seq<char>>::empty());
    } else {
        let q = ps.drop_last();
        assert forall|i: int| 0 <= i < q.len() implies plain_line(#[trigger] q[i].1) by {
            assert(q[i] == ps[i]);
        }
        lemma_pieces_text_lines(q);
        lemma_piece_body_plain(ps.last());
        lemma_single_line(piece_body(ps.last()));
        assert("\n"@ =~= seq!['\n']);
        lemma_lines_append(pieces_text(q), piece_line(ps.last()));
        assert(ps.map_values(|p: (u64, Seq<char>)| piece_body(p))
            =~= q.map_values(|p: (u64, Seq<char>)| piece_body(p)).push(piece_body(ps.last())));
    }
}


/// One plain line with its newline, then more text: the line, then the lines of the rest.
proof fn lemma_line_then(l: Seq<char>, rest: Seq<char>)
    requires
        plain_line(l),
    ensures
        lines_of(l + "\n"@ + rest) == seq![l] + lines_of(rest),
{
    reveal_strlit("\n");
    assert("\n"@ =~= seq!['\n']);
    lemma_single_line(l);
    lemma_lines_append(l + "\n"@, rest);
}

/// The lines of a plain file description are its header lines and its piece texts.
#[verifier::spinoff_prover]
#[verifier::rlimit(40)]
pub proof fn description_text_lines(f: FileModel)
    requires
        plain_description(f),
    ensures
        lines_of(file_text(f)) == description_lines(f),
{
    reveal_strlit("file_name:");
    reveal_strlit("file_hash:");
    reveal_strlit("file_size:");
    reveal_strlit("no_of_pieces:");
    reveal_strlit("piece_length:");
    let l0 = "file_name:"@ + f.file_name;
    let l1 = "file_hash:"@ + f.file_hash;
    let l2 = "file_size:"@ + dec_chars(f.file_size as nat);
    let l3 = "no_of_pieces:"@ + dec_chars(f.no_of_pieces as nat);
    let l4 = "piece_length:"@ + dec_chars(f.piece_length as nat);
    lemma_prefixed_plain("file_name:"@, f.file_name);
    lemma_prefixed_plain("file_hash:"@, f.file_hash);
    lemma_digits_plain(f.file_size as nat);
    lemma_digits_plain(f.no_of_pieces as nat);
    lemma_digits_plain(f.piece_length as nat);
    lemma_prefixed_plain("file_size:"@, dec_chars(f.file_size as nat));
    lemma_prefixed_plain("no_of_pieces:"@, dec_chars(f.no_of_pieces as nat));
    lemma_prefixed_plain("piece_length:"@, dec_chars(f.piece_length as nat));
    let nl = "\n"@;
    let pt = pieces_text(f.pieces);
    lemma_pieces_text_lines(f.pieces);
    let t4 = l4 + nl + pt;
    let t3 = l3 + nl + t4;
    let t2 = l2 + nl + t3;
    let t1 = l1 + nl + t2;
    let t0 = l0 + nl + t1;
    assert(file_text(f) =~= t0);
    lemma_line_then(l4, pt);
    lemma_line_then(l3, t4);
    lemma_line_then(l2, t3);
    lemma_line_then(l1, t2);
    lemma_line_then(l0, t1);
    assert(lines_of(file_text(f)) =~= description_lines(f));
}


/// Two pieces whose lines are the same are the same piece: `FilePiece::convert_to_str` writes
/// different lines for different pieces, whatever their hashes hold. The number's digits end
/// at the first `e` after `piece_no:`, and the hash is the rest, less the final newline.
pub proof fn piece_lines_identify_pieces(p: (u64, Seq<char>), q: (u64, Seq<char>))
    requires
        piece_line(p) == piece_line(q),
    ensures
        p == q,
{
    reveal_strlit("piece_no:");
    reveal_strlit("ehash:");
    reveal_strlit("\n");
    let dp = dec_chars(p.0 as nat);
    let dq = dec_chars(q.0 as nat);
    lemma_digits_plain(p.0 as nat);
    lemma_digits_plain(q.0 as nat);
    let a = piece_line(p);
    let b = piece_line(q);
    assert(a =~= "piece_no:"@ + dp + "ehash:"@ + p.1 + "\n"@);
    assert(b =~= "piece_no:"@ + dq + "ehash:"@ + q.1 + "\n"@);
    if dp.len() < dq.len() {
        assert(a[9 + dp.len() as int] == 'e');
        assert(b[9 + dp.len() as int] == dq[dp.len() as int]);
        assert(false);
    }
    if dq.len() < dp.len() {
        assert(b[9 + dq.len() as int] == 'e');
        assert(a[9 + dq.len() as int] == dp[dq.len() as int]);
        assert(false);
    }
    assert(dp =~= a.subrange(9, 9 + dp.len() as int));
    assert(dq =~= b.subrange(9, 9 + dq.len() as int));
    decimal_parses_back(p.0);
    decimal_parses_back(q.0);
    assert(p.0 == q.0);
    assert(p.1 =~= a.subrange(15 + dp.len() as int, a.len() as int - 1));
    assert(q.1 =~= b.subrange(15 + dq.len() as int, b.len() as int - 1));
}

/// True when the piece pattern, run on the text of a piece's line, captures the piece's
/// number as written and its hash. Once the pattern has been run on that line, this holds for
/// every hash made of ASCII word characters (`lemma_known_piece_body`).
pub open spec fn pattern_reads_piece(p: (u64, Seq<char>)) -> bool {
    pair_captures(PIECE_LINE_PATTERN@, piece_body(p)) == Some((dec_chars(p.0 as nat), p.1))
}

/// Reading the texts of the piece lines gives back the pieces, when the pattern captures
/// each piece's number and hash.
pub proof fn piece_lines_read_back(ps: Seq<(u64, Seq<char>)>)
    requires
        forall|i: int| 0 <= i < ps.len() ==> pattern_reads_piece(#[trigger] ps[i]),
    ensures
        piece_lines_readable(ps.map_values(|p: (u64, Seq<char>)| piece_body(p))),
        pieces_of_lines(ps.map_values(|p: (u64, Seq<char>)| piece_body(p))) == ps,
    decreases ps.len(),
{
    let ls = ps.map_values(|p: (u64, Seq<char>)| piece_body(p));
    assert forall|i: int| 0 <= i < ls.len() implies piece_line_readable(#[trigger] ls[i]) by {
        assert(pattern_reads_piece(ps[i]));
        decimal_parses_back(ps[i].0);
    }
    if ps.len() > 0 {
        let q = ps.drop_last();
        assert forall|i: int| 0 <= i < q.len() implies pattern_reads_piece(#[trigger] q[i]) by {
            assert(q[i] == ps[i]);
        }
        piece_lines_read_back(q);
        assert(ls.drop_last() =~= q.map_values(|p: (u64, Seq<char>)| piece_body(p)));
        assert(pattern_reads_piece(ps.last()));
        decimal_parses_back(ps.last().0);
        assert(piece_of_line(ls.last()) == Some(ps.last()));
        assert(pieces_of_lines(ls) =~= ps);
    } else {
        assert(ls =~= Seq::<Seq<char>>::empty());
    }
}

/// True when the piece pattern, run on a piece's whole line (newline included, as
/// `FilePiece::convert_to_str` writes it), captures the piece's number as written and its
/// hash. Once the pattern has been run on that line, this holds for every hash made of ASCII
/// word characters (`lemma_known_piece_line`).
pub open spec fn pattern_reads_piece_line(p: (u64, Seq<char>)) -> bool {
    pair_captures(PIECE_LINE_PATTERN@, piece_line(p)) == Some((dec_chars(p.0 as nat), p.1))
}

/// `FilePiece::parser` undoes `FilePiece::convert_to_str`: reading the lines written for the
/// pieces `ps`, each with its newline, gives back `ps`, element by element and in order, when
/// the pattern captures each such line as written.
pub proof fn piece_strings_read_back(ps: Seq<(u64, Seq<char>)>)
    requires
        forall|i: int| 0 <= i < ps.len() ==> pattern_reads_piece_line(#[trigger] ps[i]),
    ensures
        piece_lines_readable(ps.map_values(|p: (u64, Seq<char>)| piece_line(p))),
        pieces_of_lines(ps.map_values(|p: (u64, Seq<char>)| piece_line(p))) == ps,
    decreases ps.len(),
{
    let ls = ps.map_values(|p: (u64, Seq<char>)| piece_line(p));
    assert forall|i: int| 0 <= i < ls.len() implies piece_line_readable(#[trigger] ls[i]) by {
        assert(pattern_reads_piece_line(ps[i]));
        decimal_parses_back(ps[i].0);
    }
    if ps.len() > 0 {
        let q = ps.drop_last();
        assert forall|i: int| 0 <= i < q.len() implies pattern_reads_piece_line(#[trigger] q[i]) by {
            assert(q[i] == ps[i]);
        }
        piece_strings_read_back(q);
        assert(ls.drop_last() =~= q.map_values(|p: (u64, Seq<char>)| piece_line(p)));
        assert(pattern_reads_piece_line(ps.last()));
        decimal_parses_back(ps.last().0);
        assert(piece_of_line(ls.last()) == Some(ps.last()));
        assert(pieces_of_lines(ls) =~= ps);
    } else {
        assert(ls =~= Seq::<Seq<char>>::empty());
    }
}

/// True when the description of `f` reads back as `f`: its texts are plain lines, it
/// announces as many pieces as it lists (a number that fits a `usize`), and the pattern
/// captures each piece line as written.
pub open spec fn description_reads_back_when(f: FileModel) -> bool {
    &&& plain_description(f)
    &&& f.no_of_pieces == f.pieces.len()
    &&& f.no_of_pieces <= usize::MAX
    &&& forall|i: int| 0 <= i < f.pieces.len() ==> pattern_reads_piece(#[trigger] f.pieces[i])
}

/// Reading the description that `FileDivider::get_string` writes gives back the file: the
/// lines of `file_text(f)` can be read as one description, and that description is `f`.
pub proof fn description_reads_back(f: FileModel)
    requires
        description_reads_back_when(f),
    ensures
        files_readable(lines_of(file_text(f)), 0, 1),
        files_at(lines_of(file_text(f)), 0, 1) == seq![f],
        5 + announced_pieces(lines_of(file_text(f)), 0) == lines_of(file_text(f)).len(),
{
    description_text_lines(f);
    let ls = description_lines(f);
    reveal_strlit("file_name:");
    reveal_strlit("file_hash:");
    reveal_strlit("file_size:");
    reveal_strlit("no_of_pieces:");
    reveal_strlit("piece_length:");
    assert(is_ascii_chars("file_name:"@));
    assert(is_ascii_chars("file_hash:"@));
    assert(is_ascii_chars("file_size:"@));
    assert(is_ascii_chars("no_of_pieces:"@));
    assert(is_ascii_chars("piece_length:"@));
    lemma_after_ascii("file_name:"@, f.file_name);
    lemma_after_ascii("file_hash:"@, f.file_hash);
    lemma_after_ascii("file_size:"@, dec_chars(f.file_size as nat));
    lemma_after_ascii("no_of_pieces:"@, dec_chars(f.no_of_pieces as nat));
    lemma_after_ascii("piece_length:"@, dec_chars(f.piece_length as nat));
    decimal_parses_back(f.file_size);
    decimal_parses_back(f.no_of_pieces);
    decimal_parses_back(f.piece_length);
    assert(ls[0] == "file_name:"@ + f.file_name);
    assert(ls[1] == "file_hash:"@ + f.file_hash);
    assert(ls[2] == "file_size:"@ + dec_chars(f.file_size as nat));
    assert(ls[3] == "no_of_pieces:"@ + dec_chars(f.no_of_pieces as nat));
    assert(ls[4] == "piece_length:"@ + dec_chars(f.piece_length as nat));
    assert(header_readable(ls, 0));
    assert(announced_pieces(ls, 0) == f.pieces.len());
    assert(pieces_end(ls, 0) == ls.len());
    let body = f.pieces.map_values(|p: (u64, Seq<char>)| piece_body(p));
    assert(ls.subrange(5, ls.len() as int) =~= body);
    piece_lines_read_back(f.pieces);
    assert(file_readable(ls, 0));
    assert(files_readable(ls, pieces_end(ls, 0), 0));
    assert(file_at(ls, 0) == f);
    assert(files_at(ls, pieces_end(ls, 0), 0) =~= Seq::<FileModel>::empty());
    assert(files_at(ls, 0, 1) == seq![file_at(ls, 0)] + files_at(ls, pieces_end(ls, 0), 0));
    assert(files_at(ls, 0, 1) =~= seq![f]);
}


/// The descriptions of the files `fs`, one after the other, as `FileDivider::get_string`
/// writes each of them.
pub open spec fn files_text(fs: Seq<FileModel>) -> Seq<char>
    decreases fs.len(),
{
    if fs.len() == 0 {
        Seq::empty()
    } else {
        file_text(fs[0]) + files_text(fs.drop_first())
    }
}

/// A plain description ends with a newline.
proof fn lemma_file_text_ends(f: FileModel)
    requires
        plain_description(f),
    ensures
        file_text(f).len() > 0,
        file_text(f).last() == '\n',
{
    reveal_strlit("\n");
    lemma_pieces_text_lines(f.pieces);
    let h = header_text(f);
    let pt = pieces_text(f.pieces);
    assert(h.len() > 0 && h.last() == '\n');
    if pt.len() == 0 {
        assert(file_text(f) =~= h);
    } else {
        assert(file_text(f).last() == pt.last());
    }
}

/// A readable description that takes up all of `d` stays readable, and the same, with any
/// lines after it.
proof fn lemma_description_then(d: Seq<Seq<char>>, t: Seq<Seq<char>>)
    requires
        file_readable(d, 0),
        5 + announced_pieces(d, 0) == d.len(),
    ensures
        file_readable(d + t, 0),
        file_at(d + t, 0) == file_at(d, 0),
        pieces_end(d + t, 0) == d.len(),
{
    let l = d + t;
    assert forall|i: int| 0 <= i < d.len() implies l[i] == d[i] by {}
    assert(l[0] == d[0] && l[1] == d[1] && l[2] == d[2] && l[3] == d[3] && l[4] == d[4]);
    assert(announced_pieces(l, 0) == announced_pieces(d, 0));
    assert(pieces_end(l, 0) == d.len());
    assert(pieces_end(d, 0) == d.len());
    assert(l.subrange(5, d.len() as int) =~= d.subrange(5, d.len() as int));
}

/// Descriptions read from `t` at `pos` are read the same from `d + t` at `d.len() + pos`.
proof fn lemma_files_shift(d: Seq<Seq<char>>, t: Seq<Seq<char>>, pos: int, k: nat)
    requires
        0 <= pos,
        files_readable(t, pos, k),
    ensures
        files_readable(d + t, d.len() + pos, k),
        files_at(d + t, d.len() + pos, k) == files_at(t, pos, k),
    decreases k,
{
    if k > 0 {
        let l = d + t;
        let q = d.len() + pos;
        assert(header_readable(t, pos));
        assert forall|i: int| 0 <= i < t.len() implies l[d.len() + i] == t[i] by {}
        assert(l[q] == t[pos]);
        assert(l[q + 1] == t[pos + 1]);
        assert(l[q + 2] == t[pos + 2]);
        assert(l[q + 3] == t[pos + 3]);
        assert(l[q + 4] == t[pos + 4]);
        assert(header_readable(l, q));
        assert(announced_pieces(l, q) == announced_pieces(t, pos));
        let pe = pieces_end(t, pos);
        assert(pieces_end(l, q) == d.len() + pe);
        assert(l.subrange(q + 5, d.len() + pe) =~= t.subrange(pos + 5, pe));
        assert(file_readable(l, q));
        assert(file_at(l, q) == file_at(t, pos));
        lemma_files_shift(d, t, pe, (k - 1) as nat);
    }
}

/// One readable description on its own, as the first description of a longer text needs it.
proof fn lemma_one_description(f: FileModel)
    requires
        description_reads_back_when(f),
    ensures
        file_readable(lines_of(file_text(f)), 0),
        file_at(lines_of(file_text(f)), 0) == f,
        5 + announced_pieces(lines_of(file_text(f)), 0) == lines_of(file_text(f)).len(),
        file_text(f).len() > 0,
        file_text(f).last() == '\n',
{
    let d = lines_of(file_text(f));
    description_reads_back(f);
    lemma_file_text_ends(f);
    assert(files_at(d, 0, 1) == seq![file_at(d, 0)] + files_at(d, pieces_end(d, 0), 0));
    assert(files_at(d, 0, 1)[0] == file_at(d, 0));
}

/// Reading the descriptions that `FileDivider::get_string` writes for several files, one
/// after the other, gives back the files in order: the lines of `files_text(fs)` can be read
/// as `fs.len()` descriptions, and they are `fs`. This holds when each file's description
/// reads back on its own.
#[verifier::spinoff_prover]
pub proof fn descriptions_read_back(fs: Seq<FileModel>)
    requires
        forall|i: int| 0 <= i < fs.len() ==> description_reads_back_when(#[trigger] fs[i]),
    ensures
        files_readable(lines_of(files_text(fs)), 0, fs.len()),
        files_at(lines_of(files_text(fs)), 0, fs.len()) == fs,
    decreases fs.len(),
{
    if fs.len() == 0 {
        assert(files_at(lines_of(files_text(fs)), 0, 0) =~= fs);
    } else {
        let f = fs[0];
        let rest = fs.drop_first();
        assert forall|i: int| 0 <= i < rest.len() implies description_reads_back_when(#[trigger] rest[i]) by {
            assert(rest[i] == fs[i + 1]);
        }
        descriptions_read_back(rest);
        assert(description_reads_back_when(fs[0]));
        lemma_one_description(f);
        let d = lines_of(file_text(f));
        let t = lines_of(files_text(rest));
        let l = lines_of(files_text(fs));
        assert(l == d + t) by {
            lemma_lines_append(file_text(f), files_text(rest));
        }
        lemma_description_then(d, t);
        lemma_files_shift(d, t, 0, rest.len());
        assert(files_readable(l, 0, fs.len()));
        assert(files_at(l, 0, fs.len()) =~= fs) by {
            assert(files_at(l, 0, fs.len()) == seq![file_at(l, 0)] + files_at(l, d.len() as int, rest.len()));
        }
    }
}

/// Two plain lines, each with its newline, then anything: the two lines, then the lines of the rest.
proof fn lemma_two_lines(a: Seq<char>, b: Seq<char>, rest: Seq<char>)
    requires
        plain_line(a),
        plain_line(b),
    ensures
        lines_of(a + "\n"@ + (b + "\n"@ + rest)) == seq![a, b] + lines_of(rest),
{
    lemma_line_then(b, rest);
    lemma_line_then(a, b + "\n"@ + rest);
    assert(seq![a] + (seq![b] + lines_of(rest)) =~= seq![a, b] + lines_of(rest));
}

/// A search query broadcast with a plain query reads back as that query, whatever follows
/// the message in the datagram (such as the unused rest of the receive buffer).
pub proof fn search_query_reads_back(q: Seq<char>, rest: Seq<char>)
    requires
        plain_line(q),
    ensures
        datagram_readable(search_query_text(q) + rest),
        datagram_of(search_query_text(q) + rest) == DatagramModel::Search(q),
{
    reveal_strlit("type:search_query\nquery:");
    reveal_strlit("\n");
    let l0 = "type:"@ + "search_query"@;
    let l1 = "query:"@ + q;
    reveal_strlit("type:");
    reveal_strlit("search_query");
    reveal_strlit("query:");
    reveal_strlit("retransmission");
    assert(plain_line(l0));
    lemma_prefixed_plain("query:"@, q);
    assert(search_query_text(q) + rest =~= l0 + "\n"@ + (l1 + "\n"@ + rest));
    lemma_two_lines(l0, l1, rest);
    let ls = lines_of(search_query_text(q) + rest);
    assert(ls[0] == l0 && ls[1] == l1);
    assert(is_ascii_chars("type:"@));
    assert(is_ascii_chars("query:"@));
    lemma_after_ascii("type:"@, "search_query"@);
    lemma_after_ascii("query:"@, q);
    assert("search_query"@ != "retransmission"@);
}

/// A retransmission broadcast for a plain file hash reads back as a request about that hash,
/// whatever follows the message in the datagram.
pub proof fn retransmission_reads_back(h: Seq<char>, rest: Seq<char>)
    requires
        plain_line(h),
    ensures
        datagram_readable(retransmission_text(h) + rest),
        datagram_of(retransmission_text(h) + rest) == DatagramModel::Retransmission(h),
{
    reveal_strlit("type:retransmission\nfile_hash:");
    reveal_strlit("\n");
    let l0 = "type:"@ + "retransmission"@;
    let l1 = "file_hash:"@ + h;
    reveal_strlit("type:");
    reveal_strlit("search_query");
    reveal_strlit("file_hash:");
    reveal_strlit("retransmission");
    assert(plain_line(l0));
    lemma_prefixed_plain("file_hash:"@, h);
    assert(retransmission_text(h) + rest =~= l0 + "\n"@ + (l1 + "\n"@ + rest));
    lemma_two_lines(l0, l1, rest);
    let ls = lines_of(retransmission_text(h) + rest);
    assert(ls[0] == l0 && ls[1] == l1);
    assert(is_ascii_chars("type:"@));
    assert(is_ascii_chars("file_hash:"@));
    lemma_after_ascii("type:"@, "retransmission"@);
    lemma_after_ascii("file_hash:"@, h);
    assert("search_query"@ != "retransmission"@);
}

/// The first line of each request a node sends names the kind its receiver dispatches on.
pub proof fn request_lines_name_their_kind()
    ensures
        kind_of(after_bytes("type:hash"@, 5)) == RequestKind::Hash,
        kind_of(after_bytes("type:asking_available_pieces"@, 5)) == RequestKind::AskingAvailablePieces,
        kind_of(after_bytes("type:available_pieces"@, 5)) == RequestKind::AvailablePieces,
        kind_of(after_bytes("type:asking_pieces"@, 5)) == RequestKind::AskingPieces,
        kind_of(after_bytes("type:pieces"@, 5)) == RequestKind::Pieces,
        kind_of(after_bytes("type:re_peer_info"@, 5)) == RequestKind::RePeerInfo,
{
    reveal_strlit("type:");
    reveal_strlit("type:hash");
    reveal_strlit("type:asking_available_pieces");
    reveal_strlit("type:available_pieces");
    reveal_strlit("type:asking_pieces");
    reveal_strlit("type:pieces");
    reveal_strlit("type:re_peer_info");
    reveal_strlit("hash");
    reveal_strlit("asking_available_pieces");
    reveal_strlit("available_pieces");
    reveal_strlit("asking_pieces");
    reveal_strlit("pieces");
    reveal_strlit("re_peer_info");
    assert(is_ascii_chars("type:"@));
    lemma_after_ascii("type:"@, "hash"@);
    assert("type:hash"@ =~= "type:"@ + "hash"@);
    lemma_after_ascii("type:"@, "asking_available_pieces"@);
    assert("type:asking_available_pieces"@ =~= "type:"@ + "asking_available_pieces"@);
    lemma_after_ascii("type:"@, "available_pieces"@);
    assert("type:available_pieces"@ =~= "type:"@ + "available_pieces"@);
    lemma_after_ascii("type:"@, "asking_pieces"@);
    assert("type:asking_pieces"@ =~= "type:"@ + "asking_pieces"@);
    lemma_after_ascii("type:"@, "pieces"@);
    assert("type:pieces"@ =~= "type:"@ + "pieces"@);
    lemma_after_ascii("type:"@, "re_peer_info"@);
    assert("type:re_peer_info"@ =~= "type:"@ + "re_peer_info"@);
}


/// The header lines of a request for pieces or of a transfer of pieces, after its first line.
pub open spec fn transfer_lines(
    file_name: Seq<char>,
    file_hash: Seq<char>,
    file_size: nat,
    total_pieces: nat,
    piece_length: nat,
    count: nat,
) -> Seq<Seq<char>> {
    seq![
        "file_name:"@ + file_name,
        "file_hash:"@ + file_hash,
        "file_size:"@ + dec_chars(file_size),
        "total_pieces:"@ + dec_chars(total_pieces),
        "piece_length:"@ + dec_chars(piece_length),
        "no_of_pieces:"@ + dec_chars(count),
    ]
}

proof fn lemma_newline_prefixes()
    ensures
        "\nfile_name:"@ == "\n"@ + "file_name:"@,
        "\nfile_hash:"@ == "\n"@ + "file_hash:"@,
        "\nfile_size:"@ == "\n"@ + "file_size:"@,
        "\ntotal_pieces:"@ == "\n"@ + "total_pieces:"@,
        "\npiece_length:"@ == "\n"@ + "piece_length:"@,
        "\nno_of_pieces:"@ == "\n"@ + "no_of_pieces:"@,
{
    reveal_strlit("file_name:");
    reveal_strlit("file_hash:");
    reveal_strlit("file_size:");
    reveal_strlit("total_pieces:");
    reveal_strlit("piece_length:");
    reveal_strlit("no_of_pieces:");
    reveal_strlit("\nfile_name:");
    reveal_strlit("\nfile_hash:");
    reveal_strlit("\nfile_size:");
    reveal_strlit("\ntotal_pieces:");
    reveal_strlit("\npiece_length:");
    reveal_strlit("\nno_of_pieces:");
    reveal_strlit("\n");
    assert("\nfile_name:"@ =~= "\n"@ + "file_name:"@);
    assert("\nfile_hash:"@ =~= "\n"@ + "file_hash:"@);
    assert("\nfile_size:"@ =~= "\n"@ + "file_size:"@);
    assert("\ntotal_pieces:"@ =~= "\n"@ + "total_pieces:"@);
    assert("\npiece_length:"@ =~= "\n"@ + "piece_length:"@);
    assert("\nno_of_pieces:"@ =~= "\n"@ + "no_of_pieces:"@);
}

proof fn lemma_transfer_plain(
    file_name: Seq<char>,
    file_hash: Seq<char>,
    file_size: nat,
    total_pieces: nat,
    piece_length: nat,
    count: nat,
)
    requires
        plain_line(file_name),
        plain_line(file_hash),
    ensures
        forall|i: int| 0 <= i < 6 ==> plain_line(
            #[trigger] transfer_lines(file_name, file_hash, file_size, total_pieces, piece_length, count)[i],
        ),
{
    reveal_strlit("file_name:");
    reveal_strlit("file_hash:");
    reveal_strlit("file_size:");
    reveal_strlit("total_pieces:");
    reveal_strlit("piece_length:");
    reveal_strlit("no_of_pieces:");
    lemma_prefixed_plain("file_name:"@, file_name);
    lemma_prefixed_plain("file_hash:"@, file_hash);
    lemma_digits_plain(file_size);
    lemma_digits_plain(total_pieces);
    lemma_digits_plain(piece_length);
    lemma_digits_plain(count);
    lemma_prefixed_plain("file_size:"@, dec_chars(file_size));
    lemma_prefixed_plain("total_pieces:"@, dec_chars(total_pieces));
    lemma_prefixed_plain("piece_length:"@, dec_chars(piece_length));
    lemma_prefixed_plain("no_of_pieces:"@, dec_chars(count));
}

proof fn lemma_extend_lines(prev: Seq<char>, l: Seq<char>, ls: Seq<Seq<char>>)
    requires
        lines_of(prev + "\n"@) == ls,
        plain_line(l),
    ensures
        lines_of(prev + "\n"@ + l + "\n"@) == ls.push(l),
{
    reveal_strlit("\n");
    assert("\n"@ =~= seq!['\n']);
    lemma_single_line(l);
    lemma_lines_append(prev + "\n"@, l + "\n"@);
    assert(prev + "\n"@ + l + "\n"@ =~= (prev + "\n"@) + (l + "\n"@));
    assert(seq![l] + Seq::<Seq<char>>::empty() =~= seq![l]);
    assert(ls + seq![l] =~= ls.push(l));
}

proof fn lemma_field_step(acc: Seq<char>, lit_nl: Seq<char>, lit: Seq<char>, v: Seq<char>)
    requires
        lit_nl == "\n"@ + lit,
    ensures
        acc + lit_nl + v == acc + "\n"@ + (lit + v),
{
    assert(acc + lit_nl + v =~= acc + "\n"@ + (lit + v));
}

/// The lines of the header of a request for pieces or a transfer of pieces, then more text.
proof fn lemma_transfer_lines(
    kind: Seq<char>,
    file_name: Seq<char>,
    file_hash: Seq<char>,
    file_size: nat,
    total_pieces: nat,
    piece_length: nat,
    count: nat,
    rest: Seq<char>,
)
    requires
        plain_line(kind),
        plain_line(file_name),
        plain_line(file_hash),
    ensures
        lines_of(kind + "\nfile_name:"@ + file_name + "\nfile_hash:"@ + file_hash + "\nfile_size:"@
            + dec_chars(file_size) + "\ntotal_pieces:"@ + dec_chars(total_pieces)
            + "\npiece_length:"@ + dec_chars(piece_length) + "\nno_of_pieces:"@
            + dec_chars(count) + "\n"@ + rest)
            == seq![kind] + transfer_lines(file_name, file_hash, file_size, total_pieces, piece_length, count)
                + lines_of(rest),
{
    let ls = transfer_lines(file_name, file_hash, file_size, total_pieces, piece_length, count);
    lemma_newline_prefixes();
    lemma_transfer_plain(file_name, file_hash, file_size, total_pieces, piece_length, count);
    assert(plain_line(ls[0]) && plain_line(ls[1]) && plain_line(ls[2]));
    assert(plain_line(ls[3]) && plain_line(ls[4]) && plain_line(ls[5]));
    let nl = "\n"@;
    let a0 = kind + "\nfile_name:"@ + file_name;
    lemma_field_step(kind, "\nfile_name:"@, "file_name:"@, file_name);
    let a1 = a0 + "\nfile_hash:"@ + file_hash;
    lemma_field_step(a0, "\nfile_hash:"@, "file_hash:"@, file_hash);
    let a2 = a1 + "\nfile_size:"@ + dec_chars(file_size);
    lemma_field_step(a1, "\nfile_size:"@, "file_size:"@, dec_chars(file_size));
    let a3 = a2 + "\ntotal_pieces:"@ + dec_chars(total_pieces);
    lemma_field_step(a2, "\ntotal_pieces:"@, "total_pieces:"@, dec_chars(total_pieces));
    let a4 = a3 + "\npiece_length:"@ + dec_chars(piece_length);
    lemma_field_step(a3, "\npiece_length:"@, "piece_length:"@, dec_chars(piece_length));
    let a5 = a4 + "\nno_of_pieces:"@ + dec_chars(count);
    lemma_field_step(a4, "\nno_of_pieces:"@, "no_of_pieces:"@, dec_chars(count));
    reveal_strlit("\n");
    assert(nl =~= seq!['\n']);
    lemma_single_line(kind);
    lemma_extend_lines(kind, ls[0], seq![kind]);
    assert(seq![kind].push(ls[0]) =~= seq![kind, ls[0]]);
    lemma_extend_lines(kind + nl + ls[0], ls[1], seq![kind, ls[0]]);
    assert(seq![kind, ls[0]].push(ls[1]) =~= seq![kind, ls[0], ls[1]]);
    lemma_extend_lines(kind + nl + ls[0] + nl + ls[1], ls[2], seq![kind, ls[0], ls[1]]);
    assert(seq![kind, ls[0], ls[1]].push(ls[2]) =~= seq![kind, ls[0], ls[1], ls[2]]);
    lemma_extend_lines(kind + nl + ls[0] + nl + ls[1] + nl + ls[2], ls[3], seq![kind, ls[0], ls[1], ls[2]]);
    assert(seq![kind, ls[0], ls[1], ls[2]].push(ls[3]) =~= seq![kind, ls[0], ls[1], ls[2], ls[3]]);
    lemma_extend_lines(kind + nl + ls[0] + nl + ls[1] + nl + ls[2] + nl + ls[3], ls[4],
        seq![kind, ls[0], ls[1], ls[2], ls[3]]);
    assert(seq![kind, ls[0], ls[1], ls[2], ls[3]].push(ls[4]) =~= seq![kind, ls[0], ls[1], ls[2], ls[3], ls[4]]);
    lemma_extend_lines(kind + nl + ls[0] + nl + ls[1] + nl + ls[2] + nl + ls[3] + nl + ls[4], ls[5],
        seq![kind, ls[0], ls[1], ls[2], ls[3], ls[4]]);
    let closed = kind + nl + ls[0] + nl + ls[1] + nl + ls[2] + nl + ls[3] + nl + ls[4] + nl + ls[5] + nl;
    assert(seq![kind, ls[0], ls[1], ls[2], ls[3], ls[4]].push(ls[5]) =~= seq![kind] + ls);
    lemma_lines_append(closed, rest);
    assert(a5 == kind + nl + ls[0] + nl + ls[1] + nl + ls[2] + nl + ls[3] + nl + ls[4] + nl + ls[5]);
}

/// Cutting the header lines of a transfer at their field names gives back the fields.
proof fn lemma_transfer_fields(
    file_name: Seq<char>,
    file_hash: Seq<char>,
    file_size: nat,
    total_pieces: nat,
    piece_length: nat,
    count: nat,
)
    ensures ({
        let ls = transfer_lines(file_name, file_hash, file_size, total_pieces, piece_length, count);
        &&& splits_at(ls[0], 10) && after_bytes(ls[0], 10) == file_name
        &&& splits_at(ls[1], 10) && after_bytes(ls[1], 10) == file_hash
        &&& splits_at(ls[2], 10) && after_bytes(ls[2], 10) == dec_chars(file_size)
        &&& splits_at(ls[3], 13) && after_bytes(ls[3], 13) == dec_chars(total_pieces)
        &&& splits_at(ls[4], 13) && after_bytes(ls[4], 13) == dec_chars(piece_length)
        &&& splits_at(ls[5], 13) && after_bytes(ls[5], 13) == dec_chars(count)
    }),
{
    reveal_strlit("file_name:");
    reveal_strlit("file_hash:");
    reveal_strlit("file_size:");
    reveal_strlit("total_pieces:");
    reveal_strlit("piece_length:");
    reveal_strlit("no_of_pieces:");
    assert(is_ascii_chars("file_name:"@));
    assert(is_ascii_chars("file_hash:"@));
    assert(is_ascii_chars("file_size:"@));
    assert(is_ascii_chars("total_pieces:"@));
    assert(is_ascii_chars("piece_length:"@));
    assert(is_ascii_chars("no_of_pieces:"@));
    lemma_after_ascii("file_name:"@, file_name);
    lemma_after_ascii("file_hash:"@, file_hash);
    lemma_after_ascii("file_size:"@, dec_chars(file_size));
    lemma_after_ascii("total_pieces:"@, dec_chars(total_pieces));
    lemma_after_ascii("piece_length:"@, dec_chars(piece_length));
    lemma_after_ascii("no_of_pieces:"@, dec_chars(count));
}

/// A request for pieces, read after its first line, gives back what was asked: the file's
/// name, hash, size, number of pieces and piece length, how many pieces are asked for, and
/// the pieces. This holds when the texts are plain lines, the sizes fit a `usize` where the
/// receiver reads them as one, and the pattern captures each piece line as written.
pub proof fn piece_request_reads_back(
    file_name: Seq<char>,
    file_hash: Seq<char>,
    file_size: u64,
    total_pieces: u64,
    piece_length: u64,
    pieces: Seq<(u64, Seq<char>)>,
)
    requires
        plain_line(file_name),
        plain_line(file_hash),
        forall|i: int| 0 <= i < pieces.len() ==> plain_line(#[trigger] pieces[i].1),
        forall|i: int| 0 <= i < pieces.len() ==> pattern_reads_piece(#[trigger] pieces[i]),
        file_size <= usize::MAX,
        pieces.len() <= usize::MAX,
    ensures ({
        let ls = lines_of(asking_pieces_text(file_name, file_hash, file_size, total_pieces, piece_length, pieces)).skip(1);
        &&& piece_request_readable(ls)
        &&& after_bytes(ls[0], 10) == file_name
        &&& after_bytes(ls[1], 10) == file_hash
        &&& usize_of(after_bytes(ls[2], 10)) == Some(file_size as usize)
        &&& u64_of(after_bytes(ls[3], 13)) == Some(total_pieces)
        &&& u64_of(after_bytes(ls[4], 13)) == Some(piece_length)
        &&& usize_of(after_bytes(ls[5], 13)) == Some(pieces.len() as usize)
        &&& pieces_of_lines(ls.skip(6)) == pieces
    }),
{
    reveal_strlit("type:asking_pieces");
    reveal_strlit("type:asking_pieces\nfile_name:");
    reveal_strlit("\nfile_name:");
    reveal_strlit("type:asking_pieces");
    assert("type:asking_pieces\nfile_name:"@ =~= "type:asking_pieces"@ + "\nfile_name:"@);
    assert(plain_line("type:asking_pieces"@));
    let text = asking_pieces_text(file_name, file_hash, file_size, total_pieces, piece_length, pieces);
    let pt = pieces_text(pieces);
    lemma_transfer_lines("type:asking_pieces"@, file_name, file_hash, file_size as nat, total_pieces as nat,
        piece_length as nat, pieces.len(), pt);
    assert(text =~= "type:asking_pieces"@ + "\nfile_name:"@ + file_name + "\nfile_hash:"@ + file_hash
        + "\nfile_size:"@ + dec_chars(file_size as nat) + "\ntotal_pieces:"@ + dec_chars(total_pieces as nat)
        + "\npiece_length:"@ + dec_chars(piece_length as nat) + "\nno_of_pieces:"@
        + dec_chars(pieces.len()) + "\n"@ + pt);
    let tl = transfer_lines(file_name, file_hash, file_size as nat, total_pieces as nat, piece_length as nat, pieces.len());
    lemma_pieces_text_lines(pieces);
    let body = pieces.map_values(|p: (u64, Seq<char>)| piece_body(p));
    let ls = lines_of(text).skip(1);
    assert(ls =~= tl + body);
    lemma_transfer_fields(file_name, file_hash, file_size as nat, total_pieces as nat, piece_length as nat, pieces.len());
    decimal_parses_back(file_size);
    decimal_parses_back(total_pieces);
    decimal_parses_back(piece_length);
    decimal_parses_back(pieces.len() as u64);
    assert(ls[0] == tl[0] && ls[1] == tl[1] && ls[2] == tl[2]);
    assert(ls[3] == tl[3] && ls[4] == tl[4] && ls[5] == tl[5]);
    assert(ls.skip(6) =~= body);
    piece_lines_read_back(pieces);
    assert(usize_field(ls, 2, 10));
    assert(u64_field(ls, 3, 13));
    assert(u64_field(ls, 4, 13));
    assert(usize_field(ls, 5, 13));
}

/// The header of a transfer of pieces, read after its first line, gives back the file's
/// name, hash, size, number of pieces and piece length, and how many pieces follow, when the
/// texts are plain lines.
pub proof fn pieces_header_reads_back(
    file_name: Seq<char>,
    file_hash: Seq<char>,
    file_size: usize,
    total_pieces: usize,
    piece_length: usize,
    no_of_pieces: usize,
    rest: Seq<char>,
)
    requires
        plain_line(file_name),
        plain_line(file_hash),
    ensures ({
        let ls = lines_of(pieces_header_text(file_name, file_hash, file_size as nat, total_pieces as nat,
            piece_length as nat, no_of_pieces as nat) + rest).skip(1);
        &&& pieces_header_readable(ls)
        &&& after_bytes(ls[0], 10) == file_name
        &&& after_bytes(ls[1], 10) == file_hash
        &&& usize_of(after_bytes(ls[2], 10)) == Some(file_size)
        &&& usize_of(after_bytes(ls[3], 13)) == Some(total_pieces)
        &&& usize_of(after_bytes(ls[4], 13)) == Some(piece_length)
        &&& usize_of(after_bytes(ls[5], 13)) == Some(no_of_pieces)
    }),
{
    reveal_strlit("type:pieces");
    reveal_strlit("type:pieces\nfile_name:");
    reveal_strlit("\nfile_name:");
    assert("type:pieces\nfile_name:"@ =~= "type:pieces"@ + "\nfile_name:"@);
    assert(plain_line("type:pieces"@));
    let text = pieces_header_text(file_name, file_hash, file_size as nat, total_pieces as nat,
        piece_length as nat, no_of_pieces as nat) + rest;
    lemma_transfer_lines("type:pieces"@, file_name, file_hash, file_size as nat, total_pieces as nat,
        piece_length as nat, no_of_pieces as nat, rest);
    assert(text =~= "type:pieces"@ + "\nfile_name:"@ + file_name + "\nfile_hash:"@ + file_hash
        + "\nfile_size:"@ + dec_chars(file_size as nat) + "\ntotal_pieces:"@ + dec_chars(total_pieces as nat)
        + "\npiece_length:"@ + dec_chars(piece_length as nat) + "\nno_of_pieces:"@
        + dec_chars(no_of_pieces as nat) + "\n"@ + rest);
    let tl = transfer_lines(file_name, file_hash, file_size as nat, total_pieces as nat, piece_length as nat,
        no_of_pieces as nat);
    let ls = lines_of(text).skip(1);
    assert(ls =~= tl + lines_of(rest));
    lemma_transfer_fields(file_name, file_hash, file_size as nat, total_pieces as nat, piece_length as nat,
        no_of_pieces as nat);
    decimal_parses_back(file_size as u64);
    decimal_parses_back(total_pieces as u64);
    decimal_parses_back(piece_length as u64);
    decimal_parses_back(no_of_pieces as u64);
    assert(ls[0] == tl[0] && ls[1] == tl[1] && ls[2] == tl[2]);
    assert(ls[3] == tl[3] && ls[4] == tl[4] && ls[5] == tl[5]);
    assert(usize_field(ls, 2, 10));
    assert(usize_field(ls, 3, 13));
    assert(usize_field(ls, 4, 13));
    assert(usize_field(ls, 5, 13));
}


/// The list of pieces a node sends in answer to a request (its stored piece information
/// `contents`, after a count of its lines) reads back, at the asking node, as a report of
/// exactly the pieces listed in `contents`, about the file `h`. This holds when `h` is a
/// plain line, the lines of `contents` can be read, and their number fits a `usize`.
pub proof fn available_pieces_read_back(h: Seq<char>, contents: Seq<char>, addr: PeerAddr)
    requires
        plain_line(h),
        piece_lines_readable(lines_of(contents)),
        lines_of(contents).len() <= usize::MAX,
    ensures ({
        let ls = lines_of(available_pieces_text(h, contents)).skip(1);
        &&& report_readable(ls)
        &&& report_file_hash(ls) == h
        &&& report_of(ls, addr).pieces == pieces_of_lines(lines_of(contents))
        &&& report_of(ls, addr).no_of_pieces == lines_of(contents).len()
    }),
{
    reveal_strlit("type:available_pieces\nfile_hash:");
    reveal_strlit("type:available_pieces");
    reveal_strlit("file_hash:");
    reveal_strlit("\nno_of_pieces:");
    reveal_strlit("no_of_pieces:");
    reveal_strlit("\n");
    let n = lines_of(contents).len();
    let k = "type:available_pieces"@;
    let l1 = "file_hash:"@ + h;
    let l2 = "no_of_pieces:"@ + dec_chars(n);
    assert(plain_line(k));
    lemma_prefixed_plain("file_hash:"@, h);
    lemma_digits_plain(n);
    lemma_prefixed_plain("no_of_pieces:"@, dec_chars(n));
    let text = available_pieces_text(h, contents);
    assert(text =~= k + "\n"@ + (l1 + "\n"@ + (l2 + "\n"@ + contents)));
    lemma_line_then(l2, contents);
    lemma_line_then(l1, l2 + "\n"@ + contents);
    lemma_line_then(k, l1 + "\n"@ + (l2 + "\n"@ + contents));
    let ls = lines_of(text).skip(1);
    assert(ls =~= seq![l1, l2] + lines_of(contents));
    assert(is_ascii_chars("file_hash:"@));
    assert(is_ascii_chars("no_of_pieces:"@));
    lemma_after_ascii("file_hash:"@, h);
    lemma_after_ascii("no_of_pieces:"@, dec_chars(n));
    decimal_parses_back(n as u64);
    assert(ls[0] == l1 && ls[1] == l2);
    assert(usize_field(ls, 1, 13));
    assert(report_end(ls) == ls.len());
    assert(ls.subrange(2, ls.len() as int) =~= lines_of(contents));
}

/// A text followed by texts: the text, then the others, one after the other.
proof fn lemma_concat_front(a: Seq<char>, rest: Seq<Seq<char>>)
    ensures
        concat_texts(seq![a] + rest) == a + concat_texts(rest),
    decreases rest.len(),
{
    if rest.len() == 0 {
        assert(seq![a] + rest =~= seq![a]);
        assert(seq![a].drop_last() =~= Seq::<Seq<char>>::empty());
        assert(concat_texts(Seq::<Seq<char>>::empty()) =~= Seq::<char>::empty());
        assert(concat_texts(seq![a]) == concat_texts(seq![a].drop_last()) + a);
        assert(concat_texts(seq![a]) =~= a);
        assert(a + concat_texts(rest) =~= a);
    } else {
        lemma_concat_front(a, rest.drop_last());
        assert((seq![a] + rest).drop_last() =~= seq![a] + rest.drop_last());
        assert((seq![a] + rest).last() == rest.last());
        assert(a + concat_texts(rest) =~= (a + concat_texts(rest.drop_last())) + rest.last());
    }
}

/// The descriptions of the files, one after the other, are what `files_text` writes.
proof fn lemma_concat_descriptions(fs: Seq<FileModel>)
    ensures
        concat_texts(fs.map_values(|f: FileModel| file_text(f))) == files_text(fs),
    decreases fs.len(),
{
    if fs.len() > 0 {
        let rest = fs.drop_first();
        lemma_concat_descriptions(rest);
        assert(fs.map_values(|f: FileModel| file_text(f))
            =~= seq![file_text(fs[0])] + rest.map_values(|f: FileModel| file_text(f)));
        lemma_concat_front(file_text(fs[0]), rest.map_values(|f: FileModel| file_text(f)));
    } else {
        assert(fs.map_values(|f: FileModel| file_text(f)) =~= Seq::<Seq<char>>::empty());
    }
}

/// The first two lines of an answer to a search, then the lines of the descriptions.
proof fn lemma_hash_answer_lines(n: nat, x: Seq<char>)
    requires
        n <= usize::MAX,
    ensures
        lines_of("type:hash\nno_of_files:"@ + dec_chars(n) + "\n"@ + x)
            == seq!["type:hash"@, "no_of_files:"@ + dec_chars(n)] + lines_of(x),
        splits_at("no_of_files:"@ + dec_chars(n), 12),
        usize_of(after_bytes("no_of_files:"@ + dec_chars(n), 12)) == Some(n as usize),
{
    reveal_strlit("type:hash\nno_of_files:");
    reveal_strlit("type:hash");
    reveal_strlit("no_of_files:");
    reveal_strlit("\n");
    let l0 = "type:hash"@;
    let l1 = "no_of_files:"@ + dec_chars(n);
    assert(plain_line(l0));
    lemma_digits_plain(n);
    lemma_prefixed_plain("no_of_files:"@, dec_chars(n));
    assert("type:hash\nno_of_files:"@ + dec_chars(n) + "\n"@ + x =~= l0 + "\n"@ + (l1 + "\n"@ + x));
    lemma_two_lines(l0, l1, x);
    assert(is_ascii_chars("no_of_files:"@));
    lemma_after_ascii("no_of_files:"@, dec_chars(n));
    decimal_parses_back(n as u64);
}

/// The answer to a search that offers the descriptions of the files `fs` reads back, at the
/// searching node, as exactly those files: its first line names an answer to a search, and
/// the lines after it, which the searcher hands to `SwarmNet::handle_hash`, can be read and
/// describe `fs` in order. This holds when each file's description reads back on its own.
#[verifier::spinoff_prover]
pub proof fn search_answer_reads_back(fs: Seq<FileModel>)
    requires
        fs.len() <= usize::MAX,
        forall|i: int| 0 <= i < fs.len() ==> description_reads_back_when(#[trigger] fs[i]),
    ensures
        lines_of(hash_answer_text(fs.map_values(|f: FileModel| file_text(f))))[0] == "type:hash"@,
        hash_answer_readable(lines_of(hash_answer_text(fs.map_values(|f: FileModel| file_text(f)))).skip(1)),
        hash_answer_files(lines_of(hash_answer_text(fs.map_values(|f: FileModel| file_text(f)))).skip(1)) == fs,
{
    let ds = fs.map_values(|f: FileModel| file_text(f));
    let n = ds.len();
    let x = concat_texts(ds);
    lemma_concat_descriptions(fs);
    descriptions_read_back(fs);
    lemma_hash_answer_lines(n, x);
    let l1 = "no_of_files:"@ + dec_chars(n);
    let ls = lines_of(hash_answer_text(ds));
    assert(ls == seq!["type:hash"@, l1] + lines_of(x));
    let l = ls.skip(1);
    assert(l =~= seq![l1] + lines_of(x));
    assert(l[0] == l1);
    assert(l.skip(1) =~= lines_of(files_text(fs)));
}

/// The decimal notation of a number is one or more ASCII digits.
proof fn lemma_dec_ascii(n: nat)
    ensures
        crate::matching::ascii_digits(dec_chars(n)),
{
    lemma_digits_plain(n);
    assert(dec_chars(n).len() > 0);
}

/// A word of ASCII word characters is a plain line.
proof fn lemma_word_plain(h: Seq<char>)
    requires
        ascii_word(h),
    ensures
        plain_line(h),
{
    assert(ascii_word_char(h[h.len() - 1]));
    assert forall|j: int| 0 <= j < h.len() implies h[j] != '\n' by {
        assert(ascii_word_char(h[j]));
    }
}

/// Once what the pattern captures on a piece's whole line is known, it is the piece's number
/// as written and its hash, when the hash is a word of ASCII word characters.
pub proof fn lemma_known_piece_line(p: (u64, Seq<char>))
    requires
        ascii_word(p.1),
        captures_known(piece_line(p)),
    ensures
        pattern_reads_piece_line(p),
{
    reveal_strlit("piece_no:");
    reveal_strlit("ehash:");
    reveal_strlit("\n");
    lemma_dec_ascii(p.0 as nat);
    let d = dec_chars(p.0 as nat);
    assert(piece_line(p) =~= "piece_no:"@ + d + "ehash:"@ + p.1 + "\n"@);
    assert(piece_pattern_text(piece_line(p), d, p.1));
}

/// Once what the pattern captures on a piece's line without its newline is known, it is the
/// piece's number as written and its hash, when the hash is a word of ASCII word characters.
pub proof fn lemma_known_piece_body(p: (u64, Seq<char>))
    requires
        ascii_word(p.1),
        captures_known(piece_body(p)),
    ensures
        pattern_reads_piece(p),
{
    lemma_dec_ascii(p.0 as nat);
    assert(piece_pattern_text(piece_body(p), dec_chars(p.0 as nat), p.1));
}

/// True when `lines` are the lines that `FilePiece::convert_to_str` writes for the pieces
/// `ps`, each hash a word of ASCII word characters.
pub open spec fn pieces_written(lines: Seq<Seq<char>>, ps: Seq<(u64, Seq<char>)>) -> bool {
    &&& lines == ps.map_values(|p: (u64, Seq<char>)| piece_line(p))
    &&& forall|i: int| 0 <= i < ps.len() ==> ascii_word(#[trigger] ps[i].1)
}

/// Lines written for pieces read back as those pieces, once the captures on each are known.
pub proof fn lemma_pieces_written_read_back(lines: Seq<Seq<char>>, ps: Seq<(u64, Seq<char>)>)
    requires
        pieces_written(lines, ps),
        forall|j: int| 0 <= j < lines.len() ==> captures_known(#[trigger] lines[j]),
    ensures
        piece_lines_readable(lines),
        pieces_of_lines(lines) == ps,
{
    assert forall|i: int| 0 <= i < ps.len() implies pattern_reads_piece_line(#[trigger] ps[i]) by {
        assert(lines[i] == piece_line(ps[i]));
        assert(captures_known(lines[i]));
        lemma_known_piece_line(ps[i]);
    }
    piece_strings_read_back(ps);
}

/// True when a file's description can be written and read back: its name and hash are plain
/// lines, it announces as many pieces as it lists (a number that fits a `usize`), and each
/// piece hash is a word of ASCII word characters.
pub open spec fn description_writable(f: FileModel) -> bool {
    &&& plain_line(f.file_name)
    &&& plain_line(f.file_hash)
    &&& f.no_of_pieces == f.pieces.len()
    &&& f.no_of_pieces <= usize::MAX
    &&& forall|i: int| 0 <= i < f.pieces.len() ==> ascii_word(#[trigger] f.pieces[i].1)
}

/// True when `lines` are the lines of the descriptions of the files `fs`, one after the
/// other, `count` of them, each file's description writable.
pub open spec fn files_written(lines: Seq<Seq<char>>, fs: Seq<FileModel>, count: nat) -> bool {
    &&& count == fs.len()
    &&& lines == lines_of(files_text(fs))
    &&& forall|i: int| 0 <= i < fs.len() ==> description_writable(#[trigger] fs[i])
}

/// Each writable description whose lines' captures are known reads back on its own.
proof fn lemma_known_descriptions(fs: Seq<FileModel>)
    requires
        forall|i: int| 0 <= i < fs.len() ==> description_writable(#[trigger] fs[i]),
        forall|j: int| 0 <= j < lines_of(files_text(fs)).len()
            ==> captures_known(#[trigger] lines_of(files_text(fs))[j]),
    ensures
        forall|i: int| 0 <= i < fs.len() ==> description_reads_back_when(#[trigger] fs[i]),
    decreases fs.len(),
{
    if fs.len() > 0 {
        let f = fs[0];
        let rest = fs.drop_first();
        assert(description_writable(fs[0]));
        assert forall|k: int| 0 <= k < f.pieces.len() implies plain_line(#[trigger] f.pieces[k].1) by {
            assert(ascii_word(f.pieces[k].1));
            lemma_word_plain(f.pieces[k].1);
        }
        assert(plain_description(f));
        lemma_file_text_ends(f);
        description_text_lines(f);
        let d = lines_of(file_text(f));
        let t = lines_of(files_text(rest));
        let l = lines_of(files_text(fs));
        assert(l == d + t) by {
            lemma_lines_append(file_text(f), files_text(rest));
        }
        assert forall|k: int| 0 <= k < f.pieces.len() implies pattern_reads_piece(#[trigger] f.pieces[k]) by {
            assert(d[5 + k] == piece_body(f.pieces[k]));
            assert(l[5 + k] == d[5 + k]);
            assert(captures_known(l[5 + k]));
            assert(ascii_word(f.pieces[k].1));
            lemma_known_piece_body(f.pieces[k]);
        }
        assert(description_reads_back_when(f));
        assert forall|i: int| 0 <= i < rest.len() implies description_writable(#[trigger] rest[i]) by {
            assert(rest[i] == fs[i + 1]);
        }
        assert forall|j: int| 0 <= j < t.len() implies captures_known(#[trigger] t[j]) by {
            assert(l[d.len() + j] == t[j]);
            assert(captures_known(l[d.len() + j]));
        }
        lemma_known_descriptions(rest);
        assert forall|i: int| 0 <= i < fs.len() implies description_reads_back_when(#[trigger] fs[i]) by {
            if i > 0 {
                assert(fs[i] == rest[i - 1]);
            }
        }
    }
}

/// Written descriptions read back as the files written, once the captures on each of their
/// lines are known.
pub proof fn lemma_files_written_read_back(lines: Seq<Seq<char>>, fs: Seq<FileModel>, count: nat)
    requires
        files_written(lines, fs, count),
        forall|j: int| 0 <= j < lines.len() ==> captures_known(#[trigger] lines[j]),
    ensures
        files_readable(lines, 0, count),
        files_at(lines, 0, count) == fs,
{
    lemma_known_descriptions(fs);
    descriptions_read_back(fs);
}

} // verus!
