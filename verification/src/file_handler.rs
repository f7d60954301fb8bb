//! Files, their pieces, and the text lines that describe them.
use vstd::prelude::*;
use crate::matching::{capture_pair, pair_captures, piece_pattern_text};
use crate::text::{
    after_bytes, try_skip_bytes, dec_chars, parse_u64, parse_usize, push_decimal, skip_bytes, splits_at, u64_of,
    usize_of,
};
use crate::digest::{piece_digest, piece_hash};
use crate::address::PeerAddr;
use crate::readback::{files_written, lemma_files_written_read_back, lemma_pieces_written_read_back, pieces_written};

verus! {

/// The pattern that a piece line of a file description must match: the piece number and
/// the piece hash.
pub const PIECE_LINE_PATTERN: &'static str = "piece_no:(\\w+)ehash:(\\w+)";

/// One piece of a shared file: its number and the hex SHA-1 of its bytes.
#[derive(Clone, Debug)]
pub struct FilePiece {
    pub piece_no: u64,
    pub hash: String,
}

impl View for FilePiece {
    type V = (u64, Seq<char>);

    open spec fn view(&self) -> (u64, Seq<char>) {
        (self.piece_no, self.hash@)
    }
}

/// The views of a list of pieces.
pub open spec fn pieces_view(v: Seq<FilePiece>) -> Seq<(u64, Seq<char>)> {
    v.map_values(|p: FilePiece| p@)
}

/// The text of the line that describes a piece: `piece_no:<n>ehash:<hash>`.
pub open spec fn piece_body(p: (u64, Seq<char>)) -> Seq<char> {
    "piece_no:"@ + dec_chars(p.0 as nat) + "ehash:"@ + p.1
}

/// The line that describes a piece, with its newline.
pub open spec fn piece_line(p: (u64, Seq<char>)) -> Seq<char> {
    piece_body(p) + "\n"@
}

/// The lines of a list of pieces, one after the other.
pub open spec fn pieces_text(ps: Seq<(u64, Seq<char>)>) -> Seq<char>
    decreases ps.len(),
{
    if ps.len() == 0 {
        Seq::empty()
    } else {
        pieces_text(ps.drop_last()) + piece_line(ps.last())
    }
}

/// True when reading a piece from `line` does not fail: either the line does not match the
/// piece pattern, or its number group is a valid `u64`.
pub open spec fn piece_line_readable(line: Seq<char>) -> bool {
    match pair_captures(PIECE_LINE_PATTERN@, line) {
        Some((n, _)) => u64_of(n) is Some,
        None => true,
    }
}

/// The piece that a readable line describes, if the line matches the piece pattern.
pub open spec fn piece_of_line(line: Seq<char>) -> Option<(u64, Seq<char>)> {
    match pair_captures(PIECE_LINE_PATTERN@, line) {
        Some((n, h)) => Some((u64_of(n).unwrap(), h)),
        None => None,
    }
}

/// The pieces described by the lines that match the piece pattern, in line order.
pub open spec fn pieces_of_lines(lines: Seq<Seq<char>>) -> Seq<(u64, Seq<char>)>
    decreases lines.len(),
{
    if lines.len() == 0 {
        Seq::empty()
    } else {
        let rest = pieces_of_lines(lines.drop_last());
        match piece_of_line(lines.last()) {
            Some(p) => rest.push(p),
            None => rest,
        }
    }
}

/// True when, should `line` have the shape of a piece line (`piece_no:`, ASCII digits,
/// `ehash:`, ASCII word characters, perhaps a newline), the piece pattern is known to capture
/// its digits and its word.
pub open spec fn captures_known(line: Seq<char>) -> bool {
    forall|d: Seq<char>, h: Seq<char>| #[trigger] piece_pattern_text(line, d, h)
        ==> pair_captures(PIECE_LINE_PATTERN@, line) == Some((d, h))
}

/// True when every line can be read without failure.
pub open spec fn piece_lines_readable(lines: Seq<Seq<char>>) -> bool {
    forall|i: int| 0 <= i < lines.len() ==> piece_line_readable(#[trigger] lines[i])
}

impl FilePiece {
    pub fn new(piece_no: u64, hash: String) -> (r: FilePiece)
        ensures
            r.piece_no == piece_no,
            r.hash == hash,
    {
        FilePiece { piece_no, hash }
    }

    /// The line that describes this piece.
    pub fn convert_to_str(&self) -> (r: String)
        ensures
            r@ == piece_line(self@),
    {
        let mut out = String::new();
        out.append("piece_no:");
        push_decimal(&mut out, self.piece_no);
        out.append("ehash:");
        out.append(self.hash.as_str());
        out.append("\n");
        out
    }

    /// The piece that the captured number text `n` and hash `hash` describe; `None` when `n`
    /// is not a `u64`.
    pub fn from_captures(n: &str, hash: String) -> (r: Option<FilePiece>)
        ensures
            r is Some <==> u64_of(n@) is Some,
            r matches Some(p) ==> p@ == (u64_of(n@).unwrap(), hash@),
    {
        match parse_u64(n) {
            Some(v) => Some(FilePiece { piece_no: v, hash }),
            None => None,
        }
    }

    /// Reads the piece on one line, if the line matches the piece pattern.
    pub fn from_line(line: &str) -> (r: Option<FilePiece>)
        requires
            piece_line_readable(line@),
        ensures
            r matches Some(p) ==> piece_of_line(line@) == Some(p@),
            r is None ==> piece_of_line(line@) is None,
            captures_known(line@),
    {
        match capture_pair(PIECE_LINE_PATTERN, line) {
            Some((n, hash)) => FilePiece::from_captures(n.as_str(), hash),
            None => None,
        }
    }

    /// Whether the piece on `line` can be read without failure.
    pub fn line_readable(line: &str) -> (r: bool)
        ensures
            r == piece_line_readable(line@),
            captures_known(line@),
    {
        match capture_pair(PIECE_LINE_PATTERN, line) {
            Some((n, _)) => parse_u64(n.as_str()).is_some(),
            None => true,
        }
    }

    /// Reads the pieces described by the lines that match the piece pattern; other lines
    /// are skipped. `no_of_pieces` is only a hint for the capacity of the result. On the lines
    /// that `convert_to_str` writes for pieces whose hashes are words of ASCII word
    /// characters, it gives back those pieces, in order.
    pub fn parser(pieces: Vec<String>, no_of_pieces: usize) -> (r: Vec<FilePiece>)
        requires
            piece_lines_readable(pieces.deep_view()),
        ensures
            pieces_view(r@) == pieces_of_lines(pieces.deep_view()),
            forall|ps: Seq<(u64, Seq<char>)>| #[trigger] pieces_written(pieces.deep_view(), ps)
                ==> pieces_view(r@) == ps,
    {
        let mut holder: Vec<FilePiece> = Vec::new();
        let ghost lines = pieces.deep_view();
        let mut i: usize = 0;
        while i < pieces.len()
            invariant
                i <= pieces.len(),
                lines == pieces.deep_view(),
                piece_lines_readable(lines),
                forall|j: int| 0 <= j < i ==> captures_known(#[trigger] lines[j]),
                pieces_view(holder@) == pieces_of_lines(lines.take(i as int)),
            decreases pieces.len() - i,
        {
            assert(lines.take(i + 1).drop_last() =~= lines.take(i as int));
            assert(lines[i as int] == pieces[i as int]@);
            assert(piece_line_readable(lines[i as int]));
            let found = FilePiece::from_line(pieces[i].as_str());
            match found {
                Some(p) => {
                    let ghost before = holder@;
                    holder.push(p);
                    assert(pieces_view(holder@) =~= pieces_view(before).push(holder@.last()@));
                },
                None => {},
            }
            i = i + 1;
        }
        assert(lines.take(pieces.len() as int) =~= lines);
        proof {
            assert(lines.len() == pieces@.len());
            assert forall|ps: Seq<(u64, Seq<char>)>| #[trigger] pieces_written(lines, ps) implies pieces_of_lines(lines) == ps by {
                lemma_pieces_written_read_back(lines, ps);
            }
        }
        holder
    }
}


/// What a file description holds, as plain values.
pub struct FileModel {
    pub file_name: Seq<char>,
    pub file_hash: Seq<char>,
    pub file_size: u64,
    pub no_of_pieces: u64,
    pub piece_length: u64,
    pub pieces: Seq<(u64, Seq<char>)>,
}

/// A shared file: its name, the hash of its bytes, its size, how it is cut into pieces,
/// and the pieces themselves.
#[derive(Debug)]
pub struct FileDivider {
    pub file_name: String,
    pub file_hash: String,
    pub file_size: u64,
    pub no_of_pieces: u64,
    pub piece_length: u64,
    pub pieces: Vec<FilePiece>,
}

impl View for FileDivider {
    type V = FileModel;

    open spec fn view(&self) -> FileModel {
        FileModel {
            file_name: self.file_name@,
            file_hash: self.file_hash@,
            file_size: self.file_size,
            no_of_pieces: self.no_of_pieces,
            piece_length: self.piece_length,
            pieces: pieces_view(self.pieces@),
        }
    }
}

/// The header lines of a file description, each ended by a newline.
pub open spec fn header_text(f: FileModel) -> Seq<char> {
    "file_name:"@ + f.file_name + "\n"@ + "file_hash:"@ + f.file_hash + "\n"@ + "file_size:"@
        + dec_chars(f.file_size as nat) + "\n"@ + "no_of_pieces:"@ + dec_chars(f.no_of_pieces as nat)
        + "\n"@ + "piece_length:"@ + dec_chars(f.piece_length as nat) + "\n"@
}

/// The whole description of a file: its header lines, then one line per piece.
pub open spec fn file_text(f: FileModel) -> Seq<char> {
    header_text(f) + pieces_text(f.pieces)
}

/// The number of piece lines announced at line `pos + 3` of a description that starts at `pos`.
pub open spec fn announced_pieces(lines: Seq<Seq<char>>, pos: int) -> int {
    usize_of(after_bytes(lines[pos + 3], 13)).unwrap() as int
}

/// Where the piece lines of the description at `pos` end: after the announced number of
/// lines, or at the end of the input if it has fewer.
pub open spec fn pieces_end(lines: Seq<Seq<char>>, pos: int) -> int {
    if pos + 5 + announced_pieces(lines, pos) <= lines.len() {
        pos + 5 + announced_pieces(lines, pos)
    } else {
        lines.len() as int
    }
}

/// True when the five header lines of a description start at `pos` and each can be read:
/// every field is cut at its byte offset, and the numbers are valid.
pub open spec fn header_readable(lines: Seq<Seq<char>>, pos: int) -> bool {
    &&& 0 <= pos
    &&& pos + 5 <= lines.len()
    &&& splits_at(lines[pos], 10)
    &&& splits_at(lines[pos + 1], 10)
    &&& splits_at(lines[pos + 2], 10)
    &&& u64_of(after_bytes(lines[pos + 2], 10)) is Some
    &&& splits_at(lines[pos + 3], 13)
    &&& usize_of(after_bytes(lines[pos + 3], 13)) is Some
    &&& splits_at(lines[pos + 4], 13)
    &&& u64_of(after_bytes(lines[pos + 4], 13)) is Some
}

/// True when the description that starts at `pos` can be read without failure.
pub open spec fn file_readable(lines: Seq<Seq<char>>, pos: int) -> bool {
    &&& header_readable(lines, pos)
    &&& piece_lines_readable(lines.subrange(pos + 5, pieces_end(lines, pos)))
}

/// The file described at `pos`.
pub open spec fn file_at(lines: Seq<Seq<char>>, pos: int) -> FileModel {
    FileModel {
        file_name: after_bytes(lines[pos], 10),
        file_hash: after_bytes(lines[pos + 1], 10),
        file_size: u64_of(after_bytes(lines[pos + 2], 10)).unwrap(),
        no_of_pieces: announced_pieces(lines, pos) as u64,
        piece_length: u64_of(after_bytes(lines[pos + 4], 13)).unwrap(),
        pieces: pieces_of_lines(lines.subrange(pos + 5, pieces_end(lines, pos))),
    }
}

/// True when `count` descriptions, one after the other from `pos`, can be read.
pub open spec fn files_readable(lines: Seq<Seq<char>>, pos: int, count: nat) -> bool
    decreases count,
{
    count == 0 || (file_readable(lines, pos) && files_readable(lines, pieces_end(lines, pos), (count - 1) as nat))
}

/// The `count` files described one after the other from `pos`.
pub open spec fn files_at(lines: Seq<Seq<char>>, pos: int, count: nat) -> Seq<FileModel>
    decreases count,
{
    if count == 0 {
        Seq::empty()
    } else {
        seq![file_at(lines, pos)] + files_at(lines, pieces_end(lines, pos), (count - 1) as nat)
    }
}

/// The views of a list of files.
pub open spec fn files_view(v: Seq<FileDivider>) -> Seq<FileModel> {
    v.map_values(|f: FileDivider| f@)
}

impl FileDivider {
    /// The lines of all pieces, one after the other.
    pub fn get_pieces_string(&self) -> (r: String)
        ensures
            r@ == pieces_text(pieces_view(self.pieces@)),
    {
        let mut data = String::new();
        let mut i: usize = 0;
        while i < self.pieces.len()
            invariant
                i <= self.pieces@.len(),
                data@ == pieces_text(pieces_view(self.pieces@).take(i as int)),
            decreases self.pieces@.len() - i,
        {
            let line = self.pieces[i].convert_to_str();
            data.append(line.as_str());
            assert(pieces_view(self.pieces@).take(i + 1).drop_last() =~= pieces_view(self.pieces@).take(i as int));
            i = i + 1;
        }
        assert(pieces_view(self.pieces@).take(self.pieces@.len() as int) =~= pieces_view(self.pieces@));
        data
    }

    /// The whole description of this file.
    pub fn get_string(&self) -> (r: String)
        ensures
            r@ == file_text(self@),
    {
        let mut out = String::new();
        out.append("file_name:");
        out.append(self.file_name.as_str());
        out.append("\n");
        out.append("file_hash:");
        out.append(self.file_hash.as_str());
        out.append("\n");
        out.append("file_size:");
        push_decimal(&mut out, self.file_size);
        out.append("\n");
        out.append("no_of_pieces:");
        push_decimal(&mut out, self.no_of_pieces);
        out.append("\n");
        out.append("piece_length:");
        push_decimal(&mut out, self.piece_length);
        out.append("\n");
        let pieces = self.get_pieces_string();
        out.append(pieces.as_str());
        out
    }

    /// Reads the description that starts at line `pos`; gives the file and where its lines end.
    fn parse_one(lines: &Vec<String>, pos: usize) -> (r: (FileDivider, usize))
        requires
            file_readable(lines.deep_view(), pos as int),
        ensures
            r.0@ == file_at(lines.deep_view(), pos as int),
            r.1 as int == pieces_end(lines.deep_view(), pos as int),
    {
        let ghost ls = lines.deep_view();
        assert(ls.len() == lines@.len());
        assert(pos + 5 <= lines.len());
        assert(ls[pos as int] == lines[pos as int]@);
        assert(ls[pos + 1] == lines[pos + 1]@);
        assert(ls[pos + 2] == lines[pos + 2]@);
        assert(ls[pos + 3] == lines[pos + 3]@);
        assert(ls[pos + 4] == lines[pos + 4]@);
        let file_name = skip_bytes(lines[pos].as_str(), 10).to_owned();
        let file_hash = skip_bytes(lines[pos + 1].as_str(), 10).to_owned();
        let file_size = parse_u64(skip_bytes(lines[pos + 2].as_str(), 10)).unwrap();
        let no_of_pieces = parse_usize(skip_bytes(lines[pos + 3].as_str(), 13)).unwrap();
        let piece_length = parse_u64(skip_bytes(lines[pos + 4].as_str(), 13)).unwrap();
        let start = pos + 5;
        let end = if no_of_pieces <= lines.len() - start {
            start + no_of_pieces
        } else {
            lines.len()
        };
        let mut piece_lines: Vec<String> = Vec::new();
        let mut i = start;
        while i < end
            invariant
                start <= i <= end,
                end <= lines@.len(),
                ls == lines.deep_view(),
                piece_lines.deep_view() =~= ls.subrange(start as int, i as int),
            decreases end - i,
        {
            assert(ls[i as int] == lines[i as int]@);
            let ghost before = piece_lines.deep_view();
            piece_lines.push(lines[i].clone());
            assert(piece_lines.deep_view() =~= before.push(lines[i as int]@));
            i = i + 1;
        }
        let pieces = FilePiece::parser(piece_lines, no_of_pieces);
        let f = FileDivider {
            file_name,
            file_hash,
            file_size,
            pieces,
            no_of_pieces: no_of_pieces as u64,
            piece_length,
        };
        (f, end)
    }

    /// Reads `no_of_files` file descriptions, one after the other, from the start of `lines`.
    pub fn parse(lines: &Vec<String>, no_of_files: usize) -> (r: Vec<FileDivider>)
        requires
            files_readable(lines.deep_view(), 0, no_of_files as nat),
        ensures
            files_view(r@) == files_at(lines.deep_view(), 0, no_of_files as nat),
    {
        let ghost ls = lines.deep_view();
        let mut files: Vec<FileDivider> = Vec::new();
        let mut pos: usize = 0;
        let mut k: usize = 0;
        while k < no_of_files
            invariant
                k <= no_of_files,
                ls == lines.deep_view(),
                files_readable(ls, pos as int, (no_of_files - k) as nat),
                files_view(files@) + files_at(ls, pos as int, (no_of_files - k) as nat)
                    == files_at(ls, 0, no_of_files as nat),
            decreases no_of_files - k,
        {
            let (f, end) = FileDivider::parse_one(lines, pos);
            let ghost before = files@;
            files.push(f);
            assert(files_view(files@) =~= files_view(before).push(files@.last()@));
            assert(files_view(files@) + files_at(ls, end as int, (no_of_files - k - 1) as nat)
                =~= files_view(before) + files_at(ls, pos as int, (no_of_files - k) as nat));
            pos = end;
            k = k + 1;
        }
        assert(files_view(files@) =~= files_view(files@) + files_at(ls, pos as int, 0));
        files
    }
}


/// The bytes of piece `i` when `data` is cut into pieces of `size` bytes; empty past the end.
pub open spec fn chunk(data: Seq<u8>, size: nat, i: nat) -> Seq<u8> {
    let a: int = if i * size <= data.len() { (i * size) as int } else { data.len() as int };
    let b: int = if (i + 1) * size <= data.len() { ((i + 1) * size) as int } else { data.len() as int };
    data.subrange(a, b)
}

/// The description of a file named `name` with contents `data`, cut into pieces of `size`
/// bytes: `len / size + 1` pieces (the last one possibly empty), each hashed, and the hash
/// of the whole contents.
pub open spec fn divided_file(name: Seq<char>, data: Seq<u8>, size: nat) -> FileModel {
    let n = data.len() / size + 1;
    FileModel {
        file_name: name,
        file_hash: piece_digest(data),
        file_size: data.len() as u64,
        no_of_pieces: n as u64,
        piece_length: size as u64,
        pieces: Seq::new(n, |i: int| (i as u64, piece_digest(chunk(data, size, i as nat)))),
    }
}

/// A file cut into pieces of `size` bytes has `len / size + 1` pieces; piece `i` is numbered
/// `i` and carries the hex SHA-1 of exactly the bytes from `i * size` up to `(i + 1) * size`,
/// or up to the end of the data for the last piece; the file keeps its name, its size and the
/// piece length; and the file's hash is the hex SHA-1 of all its bytes.
pub proof fn divided_pieces_hash_their_bytes(name: Seq<char>, data: Seq<u8>, size: nat, i: int)
    requires
        0 < size <= u64::MAX,
        data.len() < u64::MAX,
        0 <= i < data.len() / size + 1,
    ensures
        divided_file(name, data, size).pieces.len() == data.len() / size + 1,
        divided_file(name, data, size).file_hash == piece_digest(data),
        divided_file(name, data, size).file_size == data.len(),
        divided_file(name, data, size).file_name == name,
        divided_file(name, data, size).no_of_pieces == data.len() / size + 1,
        divided_file(name, data, size).piece_length == size,
        divided_file(name, data, size).pieces[i].0 == i,
        divided_file(name, data, size).pieces[i].1 == piece_digest(data.subrange(
            i * size,
            if (i + 1) * size <= data.len() { (i + 1) * size } else { data.len() as int },
        )),
{
    let len = data.len();
    assert(i <= len / size);
    assert(i * size <= (len / size) * size) by (nonlinear_arith)
        requires
            i <= len / size,
            size > 0,
            0 <= i;
    assert((len / size) * size <= len) by (nonlinear_arith)
        requires
            size > 0;
    assert(len / size <= len) by (nonlinear_arith)
        requires
            size > 0;
    assert(i * size <= len);
    assert(chunk(data, size, i as nat) =~= data.subrange(
        i * size,
        if (i + 1) * size <= len { (i + 1) * size } else { len as int },
    ));
}

/// The contents of the piece information of a file: the number of pieces, then the pieces.
pub open spec fn piece_info_text(f: FileModel) -> Seq<char> {
    "no_of_pieces:"@ + dec_chars(f.no_of_pieces as nat) + "\n"@ + pieces_text(f.pieces)
}

impl FilePiece {
    /// Reads the pieces as `parser` does, or gives `None` where `parser` would fail. It undoes
    /// `convert_to_str`: on the lines written for pieces whose hashes are words of ASCII word
    /// characters, it gives back those pieces, in order.
    pub fn try_parser(pieces: Vec<String>, no_of_pieces: usize) -> (r: Option<Vec<FilePiece>>)
        ensures
            r is Some <==> piece_lines_readable(pieces.deep_view()),
            r matches Some(v) ==> pieces_view(v@) == pieces_of_lines(pieces.deep_view()),
            forall|ps: Seq<(u64, Seq<char>)>| #[trigger] pieces_written(pieces.deep_view(), ps)
                ==> r is Some && pieces_view(r.unwrap()@) == ps,
    {
        let ghost lines = pieces.deep_view();
        assert(lines.len() == pieces@.len());
        let mut i: usize = 0;
        while i < pieces.len()
            invariant
                i <= pieces.len(),
                lines == pieces.deep_view(),
                lines.len() == pieces@.len(),
                forall|j: int| 0 <= j < i ==> piece_line_readable(#[trigger] lines[j]),
                forall|j: int| 0 <= j < i ==> captures_known(#[trigger] lines[j]),
            decreases pieces.len() - i,
        {
            assert(lines[i as int] == pieces[i as int]@);
            if !FilePiece::line_readable(pieces[i].as_str()) {
                proof {
                    assert forall|ps: Seq<(u64, Seq<char>)>| #[trigger] pieces_written(lines, ps) implies false by {
                        let part = lines.take(i + 1);
                        assert(part =~= ps.take(i + 1).map_values(|p: (u64, Seq<char>)| piece_line(p)));
                        assert forall|m: int| 0 <= m < ps.take(i + 1).len() implies
                            crate::matching::ascii_word(#[trigger] ps.take(i + 1)[m].1) by {
                            assert(ps.take(i + 1)[m] == ps[m]);
                        }
                        assert(pieces_written(part, ps.take(i + 1)));
                        assert forall|j: int| 0 <= j < part.len() implies captures_known(#[trigger] part[j]) by {
                            assert(part[j] == lines[j]);
                        }
                        lemma_pieces_written_read_back(part, ps.take(i + 1));
                        assert(part[i as int] == lines[i as int]);
                    }
                }
                return None;
            }
            i = i + 1;
        }
        proof {
            assert forall|ps: Seq<(u64, Seq<char>)>| #[trigger] pieces_written(lines, ps) implies pieces_of_lines(lines) == ps by {
                lemma_pieces_written_read_back(lines, ps);
            }
        }
        Some(FilePiece::parser(pieces, no_of_pieces))
    }
}

impl FileDivider {
    /// Cuts `data`, the contents of the file `filename`, into pieces of `piece_size` bytes and
    /// hashes each piece and the whole contents.
    pub fn divide_and_hash(data: &[u8], filename: &str, piece_size: u64) -> (r: FileDivider)
        requires
            piece_size > 0,
            data@.len() < u64::MAX,
        ensures
            r@ == divided_file(filename@, data@, piece_size as nat),
    {
        let dlen: usize = data.len();
        let len = dlen as u64;
        let no_of_pieces = len / piece_size + 1;
        let ghost model = divided_file(filename@, data@, piece_size as nat);
        let mut pieces: Vec<FilePiece> = Vec::new();
        let mut i: u64 = 0;
        while i < no_of_pieces
            invariant
                no_of_pieces == len / piece_size + 1,
                len == data@.len(),
                dlen == data@.len(),
                len == dlen,
                piece_size > 0,
                i <= no_of_pieces,
                model == divided_file(filename@, data@, piece_size as nat),
                pieces_view(pieces@) =~= model.pieces.take(i as int),
            decreases no_of_pieces - i,
        {
            assert(i * piece_size <= len) by (nonlinear_arith)
                requires i < len / piece_size + 1, piece_size > 0;
            let a = i * piece_size;
            let rest = len - a;
            let b = if rest >= piece_size { a + piece_size } else { len };
            assert((i + 1) * piece_size == a + piece_size) by (nonlinear_arith)
                requires a == i * piece_size;
            assert(chunk(data@, piece_size as nat, i as nat) == data@.subrange(a as int, b as int));
            assert(a <= b && b <= len);
            assert(len as int == data@.len());
            assert(a <= usize::MAX);
            assert(a as usize as int == a as int);
            assert(b as usize as int == b as int);
            let bytes = vstd::slice::slice_subrange(data, a as usize, b as usize);
            let hash = piece_hash(bytes);
            assert(bytes@ == data@.subrange(a as int, b as int));
            let ghost before = pieces@;
            pieces.push(FilePiece::new(i, hash));
            assert(pieces_view(pieces@) =~= pieces_view(before).push((i, hash@)));
            i = i + 1;
        }
        let file_hash = piece_hash(data);
        assert(model.pieces.take(no_of_pieces as int) =~= model.pieces);
        FileDivider {
            file_name: filename.to_owned(),
            file_hash,
            file_size: len,
            no_of_pieces,
            piece_length: piece_size,
            pieces,
        }
    }

    /// The piece information kept for an uploaded file: the number of pieces, then the pieces.
    pub fn piece_info_string(&self) -> (r: String)
        ensures
            r@ == piece_info_text(self@),
    {
        let mut out = String::new();
        out.append("no_of_pieces:");
        push_decimal(&mut out, self.no_of_pieces);
        out.append("\n");
        let pieces = self.get_pieces_string();
        out.append(pieces.as_str());
        out
    }

    /// Where the description at `pos` ends, or `None` when reading it would fail.
    fn readable_end(lines: &Vec<String>, pos: usize) -> (r: Option<usize>)
        ensures
            r is Some <==> file_readable(lines.deep_view(), pos as int),
            r matches Some(e) ==> e as int == pieces_end(lines.deep_view(), pos as int),
    {
        let ghost ls = lines.deep_view();
        assert(ls.len() == lines@.len());
        if pos > lines.len() || lines.len() - pos < 5 {
            return None;
        }
        assert(ls[pos as int] == lines[pos as int]@);
        assert(ls[pos + 1] == lines[pos + 1]@);
        assert(ls[pos + 2] == lines[pos + 2]@);
        assert(ls[pos + 3] == lines[pos + 3]@);
        assert(ls[pos + 4] == lines[pos + 4]@);
        if try_skip_bytes(lines[pos].as_str(), 10).is_none() || try_skip_bytes(lines[pos + 1].as_str(), 10).is_none() {
            return None;
        }
        let size_ok = match try_skip_bytes(lines[pos + 2].as_str(), 10) {
            Some(t) => parse_u64(t).is_some(),
            None => false,
        };
        let length_ok = match try_skip_bytes(lines[pos + 4].as_str(), 13) {
            Some(t) => parse_u64(t).is_some(),
            None => false,
        };
        let count = match try_skip_bytes(lines[pos + 3].as_str(), 13) {
            Some(t) => parse_usize(t),
            None => None,
        };
        if !size_ok || !length_ok || count.is_none() {
            return None;
        }
        let n = count.unwrap();
        let start = pos + 5;
        let end = if n <= lines.len() - start { start + n } else { lines.len() };
        assert(header_readable(ls, pos as int));
        assert(announced_pieces(ls, pos as int) == n as int);
        assert(pieces_end(ls, pos as int) == end as int);
        let ghost sub = ls.subrange(start as int, end as int);
        let mut i = start;
        while i < end
            invariant
                start <= i <= end,
                end <= lines@.len(),
                ls == lines.deep_view(),
                sub == ls.subrange(start as int, end as int),
                pieces_end(ls, pos as int) == end as int,
                start == pos + 5,
                header_readable(ls, pos as int),
                forall|j: int| 0 <= j < i - start ==> piece_line_readable(#[trigger] sub[j]),
            decreases end - i,
        {
            assert(sub[i - start] == lines[i as int]@);
            if !FilePiece::line_readable(lines[i].as_str()) {
                assert(!piece_line_readable(sub[i - start]));
                assert(!piece_lines_readable(sub));
                return None;
            }
            i = i + 1;
        }
        Some(end)
    }

    /// Reads the descriptions as `parse` does, or gives `None` where `parse` would fail. It
    /// undoes `get_string`: on the lines of the descriptions of several files, one after the
    /// other, each name and hash a plain line, each piece count the number of pieces listed
    /// (fitting a `usize`) and each piece hash a word of ASCII word characters, it gives back
    /// those files, in order.
    pub fn try_parse(lines: &Vec<String>, no_of_files: usize) -> (r: Option<Vec<FileDivider>>)
        ensures
            r is Some <==> files_readable(lines.deep_view(), 0, no_of_files as nat),
            r matches Some(v) ==> files_view(v@) == files_at(lines.deep_view(), 0, no_of_files as nat),
            forall|fs: Seq<FileModel>| #[trigger] files_written(lines.deep_view(), fs, no_of_files as nat)
                ==> r is Some && files_view(r.unwrap()@) == fs,
    {
        let ghost ls = lines.deep_view();
        // Every line is run through the piece pattern once, so that what it captures on each
        // line is known below.
        let mut j: usize = 0;
        while j < lines.len()
            invariant
                j <= lines@.len(),
                ls == lines.deep_view(),
                forall|m: int| 0 <= m < j ==> captures_known(#[trigger] ls[m]),
            decreases lines@.len() - j,
        {
            assert(ls[j as int] == lines[j as int]@);
            let _ = FilePiece::line_readable(lines[j].as_str());
            j = j + 1;
        }
        assert(ls.len() == lines@.len());
        let mut pos: usize = 0;
        let mut k: usize = 0;
        while k < no_of_files
            invariant
                k <= no_of_files,
                ls == lines.deep_view(),
                files_readable(ls, 0, no_of_files as nat) <==> files_readable(ls, pos as int, (no_of_files - k) as nat),
                forall|m: int| 0 <= m < ls.len() ==> captures_known(#[trigger] ls[m]),
            decreases no_of_files - k,
        {
            match FileDivider::readable_end(lines, pos) {
                Some(end) => {
                    pos = end;
                },
                None => {
                    proof {
                        assert forall|fs: Seq<FileModel>| #[trigger] files_written(ls, fs, no_of_files as nat) implies false by {
                            lemma_files_written_read_back(ls, fs, no_of_files as nat);
                        }
                    }
                    return None;
                },
            }
            k = k + 1;
        }
        proof {
            assert forall|fs: Seq<FileModel>| #[trigger] files_written(ls, fs, no_of_files as nat)
                implies files_at(ls, 0, no_of_files as nat) == fs by {
                lemma_files_written_read_back(ls, fs, no_of_files as nat);
            }
        }
        Some(FileDivider::parse(lines, no_of_files))
    }
}


/// What one peer reported to hold of a file: its address, the pieces, and how many pieces
/// it announced.
#[derive(Debug)]
pub struct PiecesFromPeer {
    pub ip_addr: PeerAddr,
    pub pieces: Vec<FilePiece>,
    pub no_of_pieces: usize,
}

impl PiecesFromPeer {
    pub fn new(ip_addr: PeerAddr, pieces: Vec<FilePiece>, no_of_pieces: usize) -> (r: PiecesFromPeer)
        ensures
            r.ip_addr == ip_addr,
            r.pieces == pieces,
            r.no_of_pieces == no_of_pieces,
    {
        PiecesFromPeer { ip_addr, pieces, no_of_pieces }
    }
}

/// A file found on the network and the peers that offer it.
#[derive(Debug)]
pub struct FileInfo {
    pub file: FileDivider,
    pub peers: Vec<PeerAddr>,
}

/// A found file and the peers that offer it, as plain values.
pub struct InfoModel {
    pub file: FileModel,
    pub peers: Seq<PeerAddr>,
}

impl View for FileInfo {
    type V = InfoModel;

    open spec fn view(&self) -> InfoModel {
        InfoModel { file: self.file@, peers: self.peers@ }
    }
}

/// What a peer reported to hold, as plain values.
pub struct ReportModel {
    pub ip_addr: PeerAddr,
    pub pieces: Seq<(u64, Seq<char>)>,
    pub no_of_pieces: usize,
}

impl View for PiecesFromPeer {
    type V = ReportModel;

    open spec fn view(&self) -> ReportModel {
        ReportModel { ip_addr: self.ip_addr, pieces: pieces_view(self.pieces@), no_of_pieces: self.no_of_pieces }
    }
}

impl FileInfo {
    pub fn new(file: FileDivider, peers: Vec<PeerAddr>) -> (r: FileInfo)
        ensures
            r.file == file,
            r.peers == peers,
    {
        FileInfo { file, peers }
    }

    /// Adds a peer that offers the file.
    pub fn push_peer(&mut self, value: PeerAddr)
        ensures
            final(self).file == old(self).file,
            final(self).peers@ == old(self).peers@.push(value),
    {
        self.peers.push(value);
    }
}

} // verus!
