//! The state of a node: files found by searches, downloads in progress, what peers hold,
//! which pieces have arrived, and the files this node seeds.
use vstd::prelude::*;
use crate::address::PeerAddr;
use crate::protocol::{
    asking_available_pieces_message, asking_available_pieces_text, asking_pieces_message,
    asking_pieces_text, parse_piece_no, piece_sent_line, piece_sent_line_readable, piece_sent_of,
    piece_sent_readable, piece_sent_text, usize_field, PiecesHeader,
};
use crate::assembly::{assemble_file, assembled, bytes_to_keep, layout_ok, layout_valid, piece_bytes_to_write, reads_fit};
use crate::file_handler::{
    files_at, files_readable, files_view, piece_lines_readable, pieces_of_lines, pieces_view, FileDivider,
    FileInfo, FileModel, FilePiece, InfoModel, PiecesFromPeer, ReportModel,
};
use crate::table::Table;
use crate::selection::{
    all_held, build_piece_holders, choose_holders, distinct_pieces, group_pieces, holders_of, holders_view,
    lemma_distinct_pieces, piece_holders,
    plan_requests, plan_matches_choices, asked_of, report_seq, reports_within, valid_choice,
    PieceHolders,
};
use crate::text::{
    after_bytes, lines_after, parse_usize, skip_bytes, splits_at, try_skip_bytes, usize_of,
};

verus! {

/// What the node is busy with.
#[derive(Clone, Copy, Debug, PartialEq, Eq, Structural)]
pub enum Status {
    Searching,
    PieceHandling,
    Idle,
}

/// A piece that has arrived, and the peer it came from.
#[derive(Clone, Copy, Debug)]
pub struct PieceFromIpAndPiece {
    pub ip: PeerAddr,
    pub piece_no: usize,
}

impl PieceFromIpAndPiece {
    pub fn new(ip: PeerAddr, piece_no: usize) -> (r: PieceFromIpAndPiece)
        ensures
            r.ip == ip,
            r.piece_no == piece_no,
    {
        PieceFromIpAndPiece { ip, piece_no }
    }
}

/// How far the download of a file has come.
#[derive(Debug)]
pub struct FileCompletionInfo {
    pub file_hash: String,
    pub no_of_pieces: usize,
    pub received_pieces: Vec<usize>,
}

/// The state of a node.
pub struct SwarmNet {
    /// Files found by the current search, by file hash, with the peers that offer them.
    pub files_map: Table<FileInfo>,
    /// Files being downloaded, by file hash.
    pub downloading_files_map: Table<FileInfo>,
    /// For each file being downloaded, what each peer reported to hold of it.
    pub peer_and_pieces: Table<Vec<PiecesFromPeer>>,
    /// For each file being downloaded, the pieces still awaited and who holds them.
    pub piece_and_peers: Table<Vec<PieceHolders>>,
    pub status: Status,
    /// For each file being downloaded, the pieces that have arrived.
    pub pieces_got: Table<Vec<PieceFromIpAndPiece>>,
    /// Files whose pieces have all arrived, waiting to be put together.
    pub completion_tracker: Vec<String>,
    /// The files this node seeds, by file hash, with where each one is kept.
    pub seeded_files: Table<String>,
}

/// The found files of a table, as plain values.
pub open spec fn infos_view(m: Map<Seq<char>, FileInfo>) -> Map<Seq<char>, InfoModel> {
    m.map_values(|i: FileInfo| i@)
}

/// The reports of a table, as plain values.
pub open spec fn reports_view(m: Map<Seq<char>, Vec<PiecesFromPeer>>) -> Map<Seq<char>, Seq<ReportModel>> {
    m.map_values(|v: Vec<PiecesFromPeer>| v@.map_values(|p: PiecesFromPeer| p@))
}

/// The files found after a peer at `a` offers the file `f`: a file already known gains the
/// peer; a new file is kept with that one peer.
pub open spec fn offer(m: Map<Seq<char>, InfoModel>, f: FileModel, a: PeerAddr) -> Map<Seq<char>, InfoModel> {
    if m.contains_key(f.file_hash) {
        m.insert(f.file_hash, InfoModel { file: m[f.file_hash].file, peers: m[f.file_hash].peers.push(a) })
    } else {
        m.insert(f.file_hash, InfoModel { file: f, peers: seq![a] })
    }
}

/// The files found after a peer at `a` offers the files `fs`, one after the other.
pub open spec fn offers(m: Map<Seq<char>, InfoModel>, fs: Seq<FileModel>, a: PeerAddr) -> Map<Seq<char>, InfoModel>
    decreases fs.len(),
{
    if fs.len() == 0 {
        m
    } else {
        offer(offers(m, fs.drop_last(), a), fs.last(), a)
    }
}

/// Offers never lose a found file: every file found before is still found with the same
/// description, and its peers are kept, in order, before any that offered it since; and every
/// offered file is found afterwards, with the offering peer among its peers.
pub proof fn offers_keep_what_was_found(m: Map<Seq<char>, InfoModel>, fs: Seq<FileModel>, a: PeerAddr)
    ensures
        forall|k: Seq<char>| #[trigger] m.contains_key(k) ==> {
            &&& offers(m, fs, a).contains_key(k)
            &&& offers(m, fs, a)[k].file == m[k].file
            &&& m[k].peers.is_prefix_of(offers(m, fs, a)[k].peers)
        },
        forall|i: int| 0 <= i < fs.len() ==> {
            &&& offers(m, fs, a).contains_key(#[trigger] fs[i].file_hash)
            &&& offers(m, fs, a)[fs[i].file_hash].peers.contains(a)
        },
    decreases fs.len(),
{
    if fs.len() > 0 {
        let q = fs.drop_last();
        offers_keep_what_was_found(m, q, a);
        let before = offers(m, q, a);
        let f = fs.last();
        assert forall|k: Seq<char>| #[trigger] m.contains_key(k) implies {
            &&& offers(m, fs, a).contains_key(k)
            &&& offers(m, fs, a)[k].file == m[k].file
            &&& m[k].peers.is_prefix_of(offers(m, fs, a)[k].peers)
        } by {
            if k == f.file_hash {
                assert(before.contains_key(k));
                let p = before[k].peers;
                assert(m[k].peers.is_prefix_of(p.push(a))) by {
                    assert forall|j: int| 0 <= j < m[k].peers.len() implies m[k].peers[j] == p.push(a)[j] by {
                        assert(m[k].peers[j] == p[j]);
                    }
                }
            }
        }
        assert forall|i: int| 0 <= i < fs.len() implies {
            &&& offers(m, fs, a).contains_key(#[trigger] fs[i].file_hash)
            &&& offers(m, fs, a)[fs[i].file_hash].peers.contains(a)
        } by {
            let k = fs[i].file_hash;
            if k == f.file_hash {
                if before.contains_key(k) {
                    let p = before[k].peers;
                    assert(p.push(a)[p.len() as int] == a);
                } else {
                    assert(seq![a][0] == a);
                }
            } else {
                assert(q[i] == fs[i]);
            }
        }
    }
}

/// True when the answer to a search, `lines`, can be read: its first line holds the number
/// of files after 12 bytes, and that many descriptions follow.
pub open spec fn hash_answer_readable(lines: Seq<Seq<char>>) -> bool {
    &&& lines.len() >= 1
    &&& splits_at(lines[0], 12)
    &&& usize_of(after_bytes(lines[0], 12)) is Some
    &&& files_readable(lines.skip(1), 0, usize_of(after_bytes(lines[0], 12)).unwrap() as nat)
}

/// The files described in a readable answer to a search.
pub open spec fn hash_answer_files(lines: Seq<Seq<char>>) -> Seq<FileModel> {
    files_at(lines.skip(1), 0, usize_of(after_bytes(lines[0], 12)).unwrap() as nat)
}

/// Where the piece lines of a peer's list of pieces end: after the announced number, or at
/// the end of the input if it has fewer lines.
pub open spec fn report_end(lines: Seq<Seq<char>>) -> int {
    let n = usize_of(after_bytes(lines[1], 13)).unwrap() as int;
    if 2 + n <= lines.len() {
        2 + n
    } else {
        lines.len() as int
    }
}

/// The requests sent for a download go to distinct peers; every piece of the file is in the
/// request to a peer that holds it; and every piece asked of a peer was chosen for it from the
/// peers that hold that piece.
pub proof fn requests_ask_holders(s: SwarmNet, h: Seq<char>, r: Seq<(PeerAddr, String)>, ch: Seq<PeerAddr>)
    requires
        s.requests_for(h, r, ch),
    ensures
        forall|i: int, j: int| 0 <= i < j < r.len() ==> #[trigger] r[i].0 != #[trigger] r[j].0,
        forall|i: int| 0 <= i < s.holders_for(h).len() ==> {
            &&& s.holders_for(h)[i].1.contains(#[trigger] ch[i])
            &&& asked_of(s.request_groups(h, ch), ch[i], s.holders_for(h)[i].0)
        },
        forall|j: int, m: int| 0 <= j < s.request_groups(h, ch).len() && 0 <= m < s.request_groups(h, ch)[j].1.len()
            ==> exists|i: int| 0 <= i < s.holders_for(h).len()
                && #[trigger] s.holders_for(h)[i].0 == #[trigger] s.request_groups(h, ch)[j].1[m]
                && ch[i] == s.request_groups(h, ch)[j].0
                && s.holders_for(h)[i].1.contains(s.request_groups(h, ch)[j].0),
{
    let hv = s.holders_for(h);
    let ps = hv.map_values(|x: ((u64, Seq<char>), Seq<PeerAddr>)| x.0);
    let g = group_pieces(ps, ch);
    plan_matches_choices(ps, ch);
    assert forall|i: int, j: int| 0 <= i < j < r.len() implies #[trigger] r[i].0 != #[trigger] r[j].0 by {
        assert(r[i].0 == g[i].0 && r[j].0 == g[j].0);
        assert(g[i].0 != g[j].0);
    }
    assert forall|i: int| 0 <= i < hv.len() implies {
        &&& hv[i].1.contains(#[trigger] ch[i])
        &&& asked_of(g, ch[i], hv[i].0)
    } by {
        assert(ps[i] == hv[i].0);
    }
    assert forall|j: int, m: int| 0 <= j < g.len() && 0 <= m < g[j].1.len() implies exists|i: int| 0 <= i < hv.len()
        && #[trigger] hv[i].0 == #[trigger] g[j].1[m] && ch[i] == g[j].0 && hv[i].1.contains(g[j].0) by {
        let i = choose|i: int| 0 <= i < ps.len() && #[trigger] ps[i] == #[trigger] g[j].1[m] && ch[i] == g[j].0;
        assert(hv[i].0 == ps[i]);
        assert(hv[i].1.contains(ch[i]));
    }
}

/// What to do with a piece that has arrived: its number, how many of its bytes to keep, and
/// the line to add to the file's piece information.
#[derive(Debug)]
pub struct ArrivedPiece {
    pub piece_no: usize,
    pub keep: usize,
    pub record_line: String,
}

/// True when `after` is the node `before` once the piece announced by `line` under `header`
/// has been taken in from `addrs`, and `r` says what to do with its bytes: the piece's number
/// and hash are read from the line; every piece but the last keeps all `piece_length` bytes and
/// the last keeps what is left of the file; the arrival is recorded; every awaited piece with
/// that number is dropped; nothing else changes.
pub open spec fn piece_taken_in(
    before: SwarmNet,
    after: SwarmNet,
    header: &PiecesHeader,
    line: Seq<char>,
    addrs: PeerAddr,
    r: ArrivedPiece,
) -> bool {
    let (n, h) = piece_sent_of(line).unwrap();
    let k = header.file_hash@;
    &&& r.piece_no == n
    &&& r.keep as int == bytes_to_keep(n as int, header.total_pieces as int,
        header.piece_length as int, header.file_size as int)
    &&& n != header.total_pieces - 1 ==> r.keep == header.piece_length
    &&& n == header.total_pieces - 1 ==> r.keep == header.file_size
        - (header.total_pieces - 1) * header.piece_length
    &&& r.record_line@ == piece_sent_text(n as nat, h)
    &&& after.pieces_got@.dom() == before.pieces_got@.dom()
    &&& after.pieces_got@[k]@ == before.pieces_got@[k]@.push(
        PieceFromIpAndPiece { ip: addrs, piece_no: n })
    &&& forall|j: Seq<char>| j != k && #[trigger] before.pieces_got@.contains_key(j)
        ==> after.pieces_got@[j] == before.pieces_got@[j]
    &&& after.piece_and_peers@.dom() == before.piece_and_peers@.dom()
    &&& before.piece_and_peers@.contains_key(k) ==> holders_view(after.piece_and_peers@[k]@)
        == holders_view(before.piece_and_peers@[k]@).filter(
            |x: ((u64, Seq<char>), Seq<PeerAddr>)| x.0.0 != n as u64)
    &&& forall|j: Seq<char>| j != k && #[trigger] before.piece_and_peers@.contains_key(j)
        ==> after.piece_and_peers@[j] == before.piece_and_peers@[j]
    &&& after.files_map == before.files_map
    &&& after.downloading_files_map == before.downloading_files_map
    &&& after.peer_and_pieces == before.peer_and_pieces
    &&& after.completion_tracker == before.completion_tracker
    &&& after.seeded_files == before.seeded_files
    &&& after.status == before.status
}

/// True when a piece announced by `line` under `header` can be taken in without failure: the
/// line can be read and names a piece, and the size to keep of that piece can be worked out.
pub open spec fn piece_arrival_ok(header: &PiecesHeader, line: Seq<char>) -> bool {
    &&& piece_sent_readable(line)
    &&& piece_sent_of(line) is Some
    &&& header.total_pieces >= 1
    &&& (piece_sent_of(line).unwrap().0 == header.total_pieces - 1 ==> layout_ok(
        header.total_pieces as int,
        header.piece_length as int,
        header.file_size as int,
    ))
}

/// True when some arrived piece has number `n`.
pub open spec fn received(got: Seq<PieceFromIpAndPiece>, n: usize) -> bool {
    exists|m: int| 0 <= m < got.len() && got[m].piece_no == n
}

/// The numbers of the pieces `ps` whose number (as a `usize`) has not arrived, in order.
pub open spec fn missing_pieces(ps: Seq<(u64, Seq<char>)>, got: Seq<PieceFromIpAndPiece>) -> Seq<u64>
    decreases ps.len(),
{
    if ps.len() == 0 {
        Seq::empty()
    } else {
        let m = missing_pieces(ps.drop_last(), got);
        if received(got, ps.last().0 as usize) {
            m
        } else {
            m.push(ps.last().0)
        }
    }
}

/// No piece is left out exactly when every piece's number has arrived.
pub proof fn nothing_left_out_when_all_received(ps: Seq<(u64, Seq<char>)>, got: Seq<PieceFromIpAndPiece>)
    ensures
        missing_pieces(ps, got).len() == 0
            <==> forall|i: int| 0 <= i < ps.len() ==> received(got, #[trigger] ps[i].0 as usize),
    decreases ps.len(),
{
    if ps.len() > 0 {
        let q = ps.drop_last();
        nothing_left_out_when_all_received(q, got);
        if forall|i: int| 0 <= i < ps.len() ==> received(got, #[trigger] ps[i].0 as usize) {
            assert forall|i: int| 0 <= i < q.len() implies received(got, #[trigger] q[i].0 as usize) by {
                assert(q[i] == ps[i]);
            }
            assert(received(got, ps[ps.len() - 1].0 as usize));
        }
        if missing_pieces(ps, got).len() == 0 {
            assert forall|i: int| 0 <= i < ps.len() implies received(got, #[trigger] ps[i].0 as usize) by {
                if i < q.len() {
                    assert(q[i] == ps[i]);
                }
            }
        }
    }
}

/// The pieces of a download can be shared out exactly when every piece that a report lists is
/// a piece of the file and every piece of the file is listed by some report, whatever numbers
/// of pieces the reports announce.
pub proof fn selection_possible_exactly_when_every_piece_is_reported(s: SwarmNet, h: Seq<char>)
    requires
        s.downloading_files_map@.contains_key(h),
        s.peer_and_pieces@.contains_key(h),
    ensures
        s.can_select(h) <==> ({
            let fp = s.downloading_files_map@[h].file@.pieces;
            let rs = report_seq(s.peer_and_pieces@[h]@);
            &&& reports_within(fp, rs)
            &&& forall|k: int| 0 <= k < fp.len() ==> exists|r: int, j: int|
                #![trigger rs[r].pieces[j]]
                0 <= r < rs.len() && 0 <= j < rs[r].pieces.len() && rs[r].pieces[j] == #[trigger] fp[k]
        }),
{
    let fp = s.downloading_files_map@[h].file@.pieces;
    let rs = report_seq(s.peer_and_pieces@[h]@);
    let d = distinct_pieces(fp);
    let hv = s.holders_for(h);
    lemma_distinct_pieces(fp);
    assert(hv == d.map_values(|p: (u64, Seq<char>)| (p, holders_of(p, rs))));
    assert(hv.len() == d.len());
    if all_held(hv) {
        assert forall|k: int| 0 <= k < fp.len() implies exists|r: int, j: int|
            #![trigger rs[r].pieces[j]]
            0 <= r < rs.len() && 0 <= j < rs[r].pieces.len() && rs[r].pieces[j] == #[trigger] fp[k] by {
            assert(fp.contains(fp[k]));
            assert(d.contains(fp[k]));
            let i = d.index_of(fp[k]);
            assert(hv[i] == (d[i], holders_of(d[i], rs)));
            assert(hv[i].1.len() > 0);
            let a = holders_of(d[i], rs)[0];
            assert(holders_of(d[i], rs).contains(a));
            crate::selection::holders_are_the_reporting_peers(d[i], rs, a);
        }
    }
    if forall|k: int| 0 <= k < fp.len() ==> exists|r: int, j: int|
        #![trigger rs[r].pieces[j]]
        0 <= r < rs.len() && 0 <= j < rs[r].pieces.len() && rs[r].pieces[j] == #[trigger] fp[k] {
        assert forall|i: int| 0 <= i < hv.len() implies (#[trigger] hv[i]).1.len() > 0 by {
            assert(d.contains(d[i]));
            assert(fp.contains(d[i]));
            let k = fp.index_of(d[i]);
            assert(fp[k] == d[i]);
            let (r, j) = choose|r: int, j: int| #![trigger rs[r].pieces[j]]
                0 <= r < rs.len() && 0 <= j < rs[r].pieces.len() && rs[r].pieces[j] == fp[k];
            crate::selection::holders_are_the_reporting_peers(d[i], rs, rs[r].ip_addr);
            assert(holders_of(d[i], rs).contains(rs[r].ip_addr));
            assert(hv[i] == (d[i], holders_of(d[i], rs)));
        }
    }
}

/// True when no arrival in `got`, at any position, carries the number of piece `p`.
pub open spec fn never_arrived(got: Seq<PieceFromIpAndPiece>, p: (u64, Seq<char>)) -> bool {
    forall|m: int| 0 <= m < got.len() ==> (#[trigger] got[m]).piece_no != p.0 as usize
}

/// The pieces left out are the numbers of the file's pieces that no arrival carries, in the
/// order of the file's pieces, each piece once: the file's pieces kept where they never
/// arrived, then their numbers.
pub proof fn left_out_pieces_in_order(ps: Seq<(u64, Seq<char>)>, got: Seq<PieceFromIpAndPiece>)
    ensures
        missing_pieces(ps, got) == ps.filter(|p: (u64, Seq<char>)| never_arrived(got, p)).map_values(
            |p: (u64, Seq<char>)| p.0,
        ),
    decreases ps.len(),
{
    reveal(Seq::filter);
    let pred = |p: (u64, Seq<char>)| never_arrived(got, p);
    if ps.len() == 0 {
        assert(ps.filter(pred) =~= Seq::<(u64, Seq<char>)>::empty());
        assert(ps.filter(pred).map_values(|p: (u64, Seq<char>)| p.0) =~= Seq::<u64>::empty());
    } else {
        let q = ps.drop_last();
        let l = ps.last();
        left_out_pieces_in_order(q, got);
        let fq = q.filter(pred);
        assert(ps.filter(pred) == if pred(l) { fq.push(l) } else { fq });
        assert(received(got, l.0 as usize) <==> !never_arrived(got, l)) by {
            if received(got, l.0 as usize) {
                let m = choose|m: int| 0 <= m < got.len() && got[m].piece_no == l.0 as usize;
                assert(got[m].piece_no == l.0 as usize);
            }
            if !never_arrived(got, l) {
                let m = choose|m: int| 0 <= m < got.len() && (#[trigger] got[m]).piece_no == l.0 as usize;
                assert(got[m].piece_no == l.0 as usize);
            }
        }
        if pred(l) {
            assert(fq.push(l).map_values(|p: (u64, Seq<char>)| p.0)
                =~= fq.map_values(|p: (u64, Seq<char>)| p.0).push(l.0));
        }
    }
}

/// A piece number is left out exactly when some piece of the file has that number and no
/// arrival, anywhere in the whole list of arrived pieces, carries it.
pub proof fn left_out_exactly_when_never_arrived(ps: Seq<(u64, Seq<char>)>, got: Seq<PieceFromIpAndPiece>, x: u64)
    ensures
        missing_pieces(ps, got).contains(x) <==> (
            (exists|i: int| 0 <= i < ps.len() && #[trigger] ps[i].0 == x)
            && (forall|m: int| 0 <= m < got.len() ==> (#[trigger] got[m]).piece_no != x as usize)
        ),
    decreases ps.len(),
{
    if ps.len() > 0 {
        let q = ps.drop_last();
        let l = ps.last();
        left_out_exactly_when_never_arrived(q, got, x);
        let mq = missing_pieces(q, got);
        let never = forall|m: int| 0 <= m < got.len() ==> (#[trigger] got[m]).piece_no != x as usize;
        if received(got, l.0 as usize) {
            assert(missing_pieces(ps, got) == mq);
        } else {
            assert(missing_pieces(ps, got) == mq.push(l.0));
            assert(mq.push(l.0).contains(x) <==> (mq.contains(x) || l.0 == x)) by {
                if mq.push(l.0).contains(x) {
                    let k = choose|k: int| 0 <= k < mq.push(l.0).len() && mq.push(l.0)[k] == x;
                    if k < mq.len() {
                        assert(mq[k] == x);
                    }
                }
                if mq.contains(x) {
                    let k = choose|k: int| 0 <= k < mq.len() && mq[k] == x;
                    assert(mq.push(l.0)[k] == x);
                }
                if l.0 == x {
                    assert(mq.push(l.0)[mq.len() as int] == x);
                }
            }
        }
        assert((exists|i: int| 0 <= i < ps.len() && #[trigger] ps[i].0 == x)
            <==> ((exists|i: int| 0 <= i < q.len() && #[trigger] q[i].0 == x) || l.0 == x)) by {
            if exists|i: int| 0 <= i < ps.len() && #[trigger] ps[i].0 == x {
                let i = choose|i: int| 0 <= i < ps.len() && #[trigger] ps[i].0 == x;
                if i < q.len() {
                    assert(q[i] == ps[i]);
                }
            }
            if exists|i: int| 0 <= i < q.len() && #[trigger] q[i].0 == x {
                let i = choose|i: int| 0 <= i < q.len() && #[trigger] q[i].0 == x;
                assert(ps[i] == q[i]);
            }
            if l.0 == x {
                assert(ps[ps.len() - 1].0 == x);
            }
        }
        if l.0 == x {
            assert(received(got, l.0 as usize) <==> !never);
        }
    }
}

/// The pieces still awaited, with their holders, once the pieces numbered `ns` have arrived
/// one after the other: each arrival drops every awaited piece with that number.
pub open spec fn awaited_after(
    hv: Seq<((u64, Seq<char>), Seq<PeerAddr>)>,
    ns: Seq<u64>,
) -> Seq<((u64, Seq<char>), Seq<PeerAddr>)>
    decreases ns.len(),
{
    if ns.len() == 0 {
        hv
    } else {
        let n = ns.last();
        awaited_after(hv, ns.drop_last()).filter(|x: ((u64, Seq<char>), Seq<PeerAddr>)| x.0.0 != n)
    }
}

proof fn lemma_awaited_after_contains(
    hv: Seq<((u64, Seq<char>), Seq<PeerAddr>)>,
    ns: Seq<u64>,
    x: ((u64, Seq<char>), Seq<PeerAddr>),
)
    ensures
        awaited_after(hv, ns).contains(x) <==> (hv.contains(x) && !ns.contains(x.0.0)),
    decreases ns.len(),
{
    if ns.len() > 0 {
        let q = ns.drop_last();
        let n = ns.last();
        let pred = |y: ((u64, Seq<char>), Seq<PeerAddr>)| y.0.0 != n;
        let before = awaited_after(hv, q);
        lemma_awaited_after_contains(hv, q, x);
        assert(awaited_after(hv, ns) == before.filter(pred));
        assert(ns == q.push(n));
        assert(ns.contains(x.0.0) <==> (q.contains(x.0.0) || x.0.0 == n)) by {
            if ns.contains(x.0.0) {
                let k = choose|k: int| 0 <= k < ns.len() && ns[k] == x.0.0;
                if k < q.len() {
                    assert(q[k] == x.0.0);
                }
            }
            if q.contains(x.0.0) {
                let k = choose|k: int| 0 <= k < q.len() && q[k] == x.0.0;
                assert(ns[k] == x.0.0);
            }
            if x.0.0 == n {
                assert(ns[ns.len() - 1] == x.0.0);
            }
        }
        if before.filter(pred).contains(x) {
            before.lemma_filter_contains_rev(pred, x);
            let i = choose|i: int| 0 <= i < before.filter(pred).len() && before.filter(pred)[i] == x;
            before.lemma_filter_pred(pred, i);
        }
        if hv.contains(x) && !ns.contains(x.0.0) {
            let i = choose|i: int| 0 <= i < before.len() && before[i] == x;
            before.lemma_filter_contains(pred, i);
        }
    }
}

/// A download runs out of awaited pieces exactly when every awaited piece's number is among
/// the numbers of the pieces that have arrived: then, and only then, the transfer counts as
/// complete.
pub proof fn awaited_pieces_run_out_when_all_arrived(
    hv: Seq<((u64, Seq<char>), Seq<PeerAddr>)>,
    ns: Seq<u64>,
)
    ensures
        awaited_after(hv, ns).len() == 0 <==> forall|i: int| 0 <= i < hv.len() ==> ns.contains(#[trigger] hv[i].0.0),
{
    let a = awaited_after(hv, ns);
    if a.len() == 0 {
        assert forall|i: int| 0 <= i < hv.len() implies ns.contains(#[trigger] hv[i].0.0) by {
            lemma_awaited_after_contains(hv, ns, hv[i]);
            assert(hv.contains(hv[i]));
            if !ns.contains(hv[i].0.0) {
                assert(a.contains(hv[i]));
            }
        }
    }
    if forall|i: int| 0 <= i < hv.len() ==> ns.contains(#[trigger] hv[i].0.0) {
        if a.len() > 0 {
            lemma_awaited_after_contains(hv, ns, a[0]);
            assert(a.contains(a[0]));
            let j = choose|j: int| 0 <= j < hv.len() && hv[j] == a[0];
            assert(ns.contains(hv[j].0.0));
        }
    }
}

/// True when a peer's list of the pieces it holds, `lines`, can be read: the file hash after
/// 10 bytes, the number of pieces after 13 bytes, then readable piece lines.
pub open spec fn report_readable(lines: Seq<Seq<char>>) -> bool {
    &&& lines.len() >= 2
    &&& splits_at(lines[0], 10)
    &&& usize_field(lines, 1, 13)
    &&& piece_lines_readable(lines.subrange(2, report_end(lines)))
}

/// The file that a peer's list of pieces is about.
pub open spec fn report_file_hash(lines: Seq<Seq<char>>) -> Seq<char> {
    after_bytes(lines[0], 10)
}

/// What the peer at `addrs` reports to hold, read from its list of pieces.
pub open spec fn report_of(lines: Seq<Seq<char>>, addrs: PeerAddr) -> ReportModel {
    ReportModel {
        ip_addr: addrs,
        pieces: pieces_of_lines(lines.subrange(2, report_end(lines))),
        no_of_pieces: usize_of(after_bytes(lines[1], 13)).unwrap(),
    }
}

/// Records what the peer at `addrs` reports to hold of a file being downloaded: `lines` holds
/// the file hash, the number of pieces, then up to that many piece lines.
pub fn piece_response_handler(
    lines: &Vec<String>,
    addrs: PeerAddr,
    peer_and_pieces: &mut Table<Vec<PiecesFromPeer>>,
)
    requires
        old(peer_and_pieces).wf(),
        report_readable(lines.deep_view()),
        old(peer_and_pieces)@.contains_key(report_file_hash(lines.deep_view())),
    ensures
        final(peer_and_pieces).wf(),
        reports_view(final(peer_and_pieces)@) == reports_view(old(peer_and_pieces)@).insert(
            report_file_hash(lines.deep_view()),
            reports_view(old(peer_and_pieces)@)[report_file_hash(lines.deep_view())].push(
                report_of(lines.deep_view(), addrs),
            ),
        ),
{
    let ghost ls = lines.deep_view();
    assert(ls[0] == lines[0]@ && ls[1] == lines[1]@);
    let file_hash = skip_bytes(lines[0].as_str(), 10);
    let no_of_pieces = parse_usize(skip_bytes(lines[1].as_str(), 13)).unwrap();
    let end = if no_of_pieces <= lines.len() - 2 { 2 + no_of_pieces } else { lines.len() };
    let mut piece_lines: Vec<String> = Vec::new();
    let mut i: usize = 2;
    while i < end
        invariant
            2 <= i <= end,
            end <= lines@.len(),
            ls == lines.deep_view(),
            piece_lines.deep_view() =~= ls.subrange(2, i as int),
        decreases end - i,
    {
        assert(ls[i as int] == lines[i as int]@);
        let ghost before = piece_lines.deep_view();
        piece_lines.push(lines[i].clone());
        assert(piece_lines.deep_view() =~= before.push(lines[i as int]@));
        i = i + 1;
    }
    let pieces = FilePiece::parser(piece_lines, no_of_pieces);
    let report = PiecesFromPeer::new(addrs, pieces, no_of_pieces);
    let mut arr = peer_and_pieces.take(file_hash).unwrap();
    let ghost before = arr@;
    arr.push(report);
    assert(arr@.map_values(|p: PiecesFromPeer| p@) =~= before.map_values(|p: PiecesFromPeer| p@).push(report@));
    peer_and_pieces.insert(file_hash.to_owned(), arr);
    assert(reports_view(peer_and_pieces@) =~= reports_view(old(peer_and_pieces)@).insert(
        report_file_hash(ls),
        reports_view(old(peer_and_pieces)@)[report_file_hash(ls)].push(report_of(ls, addrs)),
    ));
}

/// Records a peer's list of pieces as `piece_response_handler` does and gives `true`, or
/// leaves the reports unchanged and gives `false` where it would fail.
pub fn try_piece_response_handler(
    lines: &Vec<String>,
    addrs: PeerAddr,
    peer_and_pieces: &mut Table<Vec<PiecesFromPeer>>,
) -> (r: bool)
    requires
        old(peer_and_pieces).wf(),
    ensures
        final(peer_and_pieces).wf(),
        r == (report_readable(lines.deep_view())
            && old(peer_and_pieces)@.contains_key(report_file_hash(lines.deep_view()))),
        r ==> reports_view(final(peer_and_pieces)@) == reports_view(old(peer_and_pieces)@).insert(
            report_file_hash(lines.deep_view()),
            reports_view(old(peer_and_pieces)@)[report_file_hash(lines.deep_view())].push(
                report_of(lines.deep_view(), addrs),
            ),
        ),
        !r ==> *final(peer_and_pieces) == *old(peer_and_pieces),
{
    let ghost ls = lines.deep_view();
    if lines.len() < 2 {
        return false;
    }
    assert(ls[0] == lines[0]@ && ls[1] == lines[1]@);
    let file_hash = match try_skip_bytes(lines[0].as_str(), 10) {
        Some(h) => h,
        None => return false,
    };
    let count = match try_skip_bytes(lines[1].as_str(), 13) {
        Some(t) => parse_usize(t),
        None => None,
    };
    let no_of_pieces = match count {
        Some(n) => n,
        None => return false,
    };
    if !peer_and_pieces.contains_key(file_hash) {
        return false;
    }
    let end = if no_of_pieces <= lines.len() - 2 { 2 + no_of_pieces } else { lines.len() };
    assert(report_end(ls) == end as int);
    let ghost sub = ls.subrange(2, end as int);
    let mut i: usize = 2;
    while i < end
        invariant
            2 <= i <= end,
            end <= lines@.len(),
            ls == lines.deep_view(),
            sub == ls.subrange(2, end as int),
            report_end(ls) == end as int,
            *peer_and_pieces == *old(peer_and_pieces),
            peer_and_pieces.wf(),
            forall|j: int| 0 <= j < i - 2 ==> crate::file_handler::piece_line_readable(#[trigger] sub[j]),
        decreases end - i,
    {
        assert(sub[i - 2] == lines[i as int]@);
        if !FilePiece::line_readable(lines[i].as_str()) {
            assert(!piece_lines_readable(sub));
            return false;
        }
        i = i + 1;
    }
    piece_response_handler(lines, addrs, peer_and_pieces);
    true
}

impl SwarmNet {
    /// Every table is well formed.
    pub open spec fn wf(&self) -> bool {
        &&& self.files_map.wf()
        &&& self.downloading_files_map.wf()
        &&& self.peer_and_pieces.wf()
        &&& self.piece_and_peers.wf()
        &&& self.pieces_got.wf()
        &&& self.seeded_files.wf()
    }

    /// A node that knows nothing yet and is idle.
    pub fn start() -> (r: SwarmNet)
        ensures
            r.wf(),
            r.status == Status::Idle,
            r.files_map@ == Map::<Seq<char>, FileInfo>::empty(),
            r.downloading_files_map@ == Map::<Seq<char>, FileInfo>::empty(),
            r.peer_and_pieces@ == Map::<Seq<char>, Vec<PiecesFromPeer>>::empty(),
            r.piece_and_peers@ == Map::<Seq<char>, Vec<PieceHolders>>::empty(),
            r.pieces_got@ == Map::<Seq<char>, Vec<PieceFromIpAndPiece>>::empty(),
            r.completion_tracker@ == Seq::<String>::empty(),
            r.seeded_files@ == Map::<Seq<char>, String>::empty(),
    {
        SwarmNet {
            files_map: Table::new(),
            downloading_files_map: Table::new(),
            peer_and_pieces: Table::new(),
            piece_and_peers: Table::new(),
            status: Status::Idle,
            pieces_got: Table::new(),
            completion_tracker: Vec::new(),
            seeded_files: Table::new(),
        }
    }

    pub fn set_searching(&mut self)
        ensures
            *final(self) == (SwarmNet { status: Status::Searching, ..*old(self) }),
    {
        self.status = Status::Searching;
    }

    pub fn set_piece_handling(&mut self)
        ensures
            *final(self) == (SwarmNet { status: Status::PieceHandling, ..*old(self) }),
    {
        self.status = Status::PieceHandling;
    }

    /// Ends a search: the node is idle and forgets the files found.
    pub fn reset_searching(&mut self)
        requires
            old(self).wf(),
        ensures
            final(self).wf(),
            final(self).status == Status::Idle,
            final(self).files_map@ == Map::<Seq<char>, FileInfo>::empty(),
            final(self).downloading_files_map == old(self).downloading_files_map,
            final(self).peer_and_pieces == old(self).peer_and_pieces,
            final(self).piece_and_peers == old(self).piece_and_peers,
            final(self).pieces_got == old(self).pieces_got,
            final(self).completion_tracker == old(self).completion_tracker,
            final(self).seeded_files == old(self).seeded_files,
    {
        self.status = Status::Idle;
        self.files_map.clear();
    }

    /// Ends the handling of pieces: the node is idle and forgets what peers reported.
    pub fn reset_piece_handling(&mut self)
        requires
            old(self).wf(),
        ensures
            final(self).wf(),
            final(self).status == Status::Idle,
            final(self).peer_and_pieces@ == Map::<Seq<char>, Vec<PiecesFromPeer>>::empty(),
            final(self).files_map == old(self).files_map,
            final(self).downloading_files_map == old(self).downloading_files_map,
            final(self).piece_and_peers == old(self).piece_and_peers,
            final(self).pieces_got == old(self).pieces_got,
            final(self).completion_tracker == old(self).completion_tracker,
            final(self).seeded_files == old(self).seeded_files,
    {
        self.status = Status::Idle;
        self.peer_and_pieces.clear();
    }

    /// Records that the peer at `addrs` offers the file `file`.
    pub fn create_hash_map(&mut self, file: FileDivider, addrs: PeerAddr)
        requires
            old(self).wf(),
        ensures
            final(self).wf(),
            infos_view(final(self).files_map@) == offer(infos_view(old(self).files_map@), file@, addrs),
            final(self).downloading_files_map == old(self).downloading_files_map,
            final(self).peer_and_pieces == old(self).peer_and_pieces,
            final(self).piece_and_peers == old(self).piece_and_peers,
            final(self).pieces_got == old(self).pieces_got,
            final(self).completion_tracker == old(self).completion_tracker,
            final(self).seeded_files == old(self).seeded_files,
            final(self).status == old(self).status,
    {
        let key = file.file_hash.clone();
        let ghost k = file.file_hash@;
        match self.files_map.take(key.as_str()) {
            Some(mut info) => {
                info.push_peer(addrs);
                self.files_map.insert(key, info);
                assert(infos_view(self.files_map@) =~= offer(infos_view(old(self).files_map@), file@, addrs));
            },
            None => {
                let mut peers: Vec<PeerAddr> = Vec::new();
                peers.push(addrs);
                let info = FileInfo::new(file, peers);
                self.files_map.insert(key, info);
                assert(infos_view(self.files_map@) =~= offer(infos_view(old(self).files_map@), file@, addrs));
            },
        }
    }

    /// Records a peer's answer to a search: `lines` holds the number of files, then their
    /// descriptions; the peer at `addrs` is recorded as offering each of them.
    pub fn handle_hash(&mut self, lines: &Vec<String>, addrs: PeerAddr)
        requires
            old(self).wf(),
            hash_answer_readable(lines.deep_view()),
        ensures
            final(self).wf(),
            infos_view(final(self).files_map@)
                == offers(infos_view(old(self).files_map@), hash_answer_files(lines.deep_view()), addrs),
            final(self).downloading_files_map == old(self).downloading_files_map,
            final(self).peer_and_pieces == old(self).peer_and_pieces,
            final(self).piece_and_peers == old(self).piece_and_peers,
            final(self).pieces_got == old(self).pieces_got,
            final(self).completion_tracker == old(self).completion_tracker,
            final(self).seeded_files == old(self).seeded_files,
            final(self).status == old(self).status,
    {
        assert(lines.deep_view()[0] == lines[0]@);
        let no_of_files = parse_usize(skip_bytes(lines[0].as_str(), 12)).unwrap();
        let rest = lines_after(lines, 1);
        let files = FileDivider::parse(&rest, no_of_files);
        let ghost fs = files_view(files@);
        let ghost start = infos_view(self.files_map@);
        let mut files = files;
        let mut k: usize = 0;
        let n = files.len();
        while files.len() > 0
            invariant
                self.wf(),
                k + files@.len() == n,
                n == fs.len(),
                files_view(files@) == fs.skip(k as int),
                infos_view(self.files_map@) == offers(start, fs.take(k as int), addrs),
                self.downloading_files_map == old(self).downloading_files_map,
                self.peer_and_pieces == old(self).peer_and_pieces,
                self.piece_and_peers == old(self).piece_and_peers,
                self.pieces_got == old(self).pieces_got,
                self.completion_tracker == old(self).completion_tracker,
                self.seeded_files == old(self).seeded_files,
                self.status == old(self).status,
            decreases files@.len(),
        {
            let ghost before = files@;
            let f = files.remove(0);
            assert(f@ == fs[k as int]) by {
                assert(files_view(before)[0] == f@);
            }
            self.create_hash_map(f, addrs);
            assert(fs.take(k + 1).drop_last() =~= fs.take(k as int));
            assert(files_view(files@) =~= files_view(before).drop_first());
            assert(fs.skip(k as int).drop_first() =~= fs.skip(k + 1));
            k = k + 1;
        }
        assert(fs.take(n as int) =~= fs);
    }

    /// Records a peer's answer to a search as `handle_hash` does and gives `true`, or leaves
    /// the node unchanged and gives `false` where `handle_hash` would fail.
    pub fn try_handle_hash(&mut self, lines: &Vec<String>, addrs: PeerAddr) -> (r: bool)
        requires
            old(self).wf(),
        ensures
            final(self).wf(),
            r == hash_answer_readable(lines.deep_view()),
            r ==> infos_view(final(self).files_map@)
                == offers(infos_view(old(self).files_map@), hash_answer_files(lines.deep_view()), addrs),
            !r ==> *final(self) == *old(self),
            final(self).downloading_files_map == old(self).downloading_files_map,
            final(self).peer_and_pieces == old(self).peer_and_pieces,
            final(self).piece_and_peers == old(self).piece_and_peers,
            final(self).pieces_got == old(self).pieces_got,
            final(self).completion_tracker == old(self).completion_tracker,
            final(self).seeded_files == old(self).seeded_files,
            final(self).status == old(self).status,
    {
        if lines.len() < 1 {
            return false;
        }
        assert(lines.deep_view()[0] == lines[0]@);
        let count = match try_skip_bytes(lines[0].as_str(), 12) {
            Some(t) => parse_usize(t),
            None => None,
        };
        match count {
            None => false,
            Some(n) => {
                let rest = lines_after(lines, 1);
                if FileDivider::try_parse(&rest, n).is_none() {
                    return false;
                }
                self.handle_hash(lines, addrs);
                true
            },
        }
    }

    /// Starts downloading the found file `file_hash`: the node turns to handling pieces, the
    /// file moves from the found files to the downloads (the other found files are
    /// forgotten), its reports and arrived pieces start empty, and each peer that offers it is
    /// asked which pieces it holds. Gives each peer to ask with the request to send.
    pub fn request_info_about_file_pieces(&mut self, file_hash: &str) -> (r: Vec<(PeerAddr, String)>)
        requires
            old(self).wf(),
            old(self).files_map@.contains_key(file_hash@),
        ensures
            final(self).wf(),
            final(self).status == Status::PieceHandling,
            final(self).files_map@ == Map::<Seq<char>, FileInfo>::empty(),
            final(self).downloading_files_map@
                == old(self).downloading_files_map@.insert(file_hash@, old(self).files_map@[file_hash@]),
            final(self).peer_and_pieces@.dom() == old(self).peer_and_pieces@.dom().insert(file_hash@),
            final(self).peer_and_pieces@[file_hash@]@ == Seq::<PiecesFromPeer>::empty(),
            forall|k: Seq<char>| k != file_hash@ && #[trigger] old(self).peer_and_pieces@.contains_key(k)
                ==> final(self).peer_and_pieces@[k] == old(self).peer_and_pieces@[k],
            final(self).pieces_got@.dom() == old(self).pieces_got@.dom().insert(file_hash@),
            final(self).pieces_got@[file_hash@]@ == Seq::<PieceFromIpAndPiece>::empty(),
            forall|k: Seq<char>| k != file_hash@ && #[trigger] old(self).pieces_got@.contains_key(k)
                ==> final(self).pieces_got@[k] == old(self).pieces_got@[k],
            final(self).piece_and_peers == old(self).piece_and_peers,
            final(self).completion_tracker == old(self).completion_tracker,
            final(self).seeded_files == old(self).seeded_files,
            r@.len() == old(self).files_map@[file_hash@].peers@.len(),
            forall|i: int| 0 <= i < r@.len() ==> {
                &&& (#[trigger] r@[i]).0 == old(self).files_map@[file_hash@].peers@[i]
                &&& r@[i].1@ == asking_available_pieces_text(file_hash@)
            },
    {
        self.set_piece_handling();
        self.peer_and_pieces.insert(file_hash.to_owned(), Vec::new());
        let info = self.files_map.take(file_hash).unwrap();
        let mut asks: Vec<(PeerAddr, String)> = Vec::new();
        let mut i: usize = 0;
        while i < info.peers.len()
            invariant
                i <= info.peers@.len(),
                asks@.len() == i,
                forall|j: int| 0 <= j < i ==> {
                    &&& (#[trigger] asks@[j]).0 == info.peers@[j]
                    &&& asks@[j].1@ == asking_available_pieces_text(file_hash@)
                },
            decreases info.peers@.len() - i,
        {
            asks.push((info.peers[i], asking_available_pieces_message(file_hash)));
            i = i + 1;
        }
        self.downloading_files_map.insert(file_hash.to_owned(), info);
        self.files_map.clear();
        self.pieces_got.insert(file_hash.to_owned(), Vec::new());
        asks
    }

    /// The pieces of the download `h` with their holders, from the reports received so far.
    pub open spec fn holders_for(&self, h: Seq<char>) -> Seq<((u64, Seq<char>), Seq<PeerAddr>)> {
        piece_holders(
            self.downloading_files_map@[h].file@.pieces,
            report_seq(self.peer_and_pieces@[h]@),
        )
    }

    /// True when the pieces of the download `h` can be shared out: it is being downloaded,
    /// the peers' reports are in, every reported piece is a piece of the file, and every
    /// piece is held by some peer.
    pub open spec fn can_select(&self, h: Seq<char>) -> bool {
        &&& self.downloading_files_map@.contains_key(h)
        &&& self.peer_and_pieces@.contains_key(h)
        &&& reports_within(self.downloading_files_map@[h].file@.pieces, report_seq(self.peer_and_pieces@[h]@))
        &&& all_held(self.holders_for(h))
    }

    /// The pieces of the download `h` grouped by the peers chosen in `ch`.
    pub open spec fn request_groups(&self, h: Seq<char>, ch: Seq<PeerAddr>) -> Seq<(PeerAddr, Seq<(u64, Seq<char>)>)> {
        group_pieces(self.holders_for(h).map_values(|x: ((u64, Seq<char>), Seq<PeerAddr>)| x.0), ch)
    }

    /// True when `r` holds the requests for the download `h` that the choice `ch` of one holder
    /// per piece gives: `ch` is a valid choice, and there is one request per chosen peer, in the
    /// order of the grouping, asking for exactly the pieces chosen for that peer.
    pub open spec fn requests_for(&self, h: Seq<char>, r: Seq<(PeerAddr, String)>, ch: Seq<PeerAddr>) -> bool {
        let hv = self.holders_for(h);
        let g = group_pieces(hv.map_values(|x: ((u64, Seq<char>), Seq<PeerAddr>)| x.0), ch);
        let f = self.downloading_files_map@[h].file@;
        &&& valid_choice(hv, ch)
        &&& r.len() == g.len()
        &&& forall|j: int| 0 <= j < g.len() ==> {
            &&& (#[trigger] r[j]).0 == g[j].0
            &&& r[j].1@ == asking_pieces_text(
                f.file_name,
                f.file_hash,
                f.file_size,
                f.no_of_pieces,
                f.piece_length,
                g[j].1,
            )
        }
    }

    /// Shares out the pieces of the download `file_hash` among the peers that hold them: for
    /// each distinct piece one of its holders is picked at random, and each picked peer gets one
    /// request for all the pieces picked for it. The pieces and their holders are kept as the
    /// pieces still awaited, and the file is recorded as seeded from "downloading". Gives each
    /// peer to ask with the request to send.
    pub fn select_pieces_from_peers(&mut self, file_hash: &str) -> (r: Vec<(PeerAddr, String)>)
        requires
            old(self).wf(),
            old(self).can_select(file_hash@),
        ensures
            final(self).wf(),
            exists|ch: Seq<PeerAddr>| #[trigger] old(self).requests_for(file_hash@, r@, ch),
            final(self).piece_and_peers@.dom() == old(self).piece_and_peers@.dom().insert(file_hash@),
            holders_view(final(self).piece_and_peers@[file_hash@]@) == old(self).holders_for(file_hash@),
            forall|k: Seq<char>| k != file_hash@ && #[trigger] old(self).piece_and_peers@.contains_key(k)
                ==> final(self).piece_and_peers@[k] == old(self).piece_and_peers@[k],
            final(self).seeded_files@.dom() == old(self).seeded_files@.dom().insert(file_hash@),
            final(self).seeded_files@[file_hash@]@ == "downloading"@,
            forall|k: Seq<char>| k != file_hash@ && #[trigger] old(self).seeded_files@.contains_key(k)
                ==> final(self).seeded_files@[k] == old(self).seeded_files@[k],
            final(self).files_map == old(self).files_map,
            final(self).downloading_files_map == old(self).downloading_files_map,
            final(self).peer_and_pieces == old(self).peer_and_pieces,
            final(self).pieces_got == old(self).pieces_got,
            final(self).completion_tracker == old(self).completion_tracker,
            final(self).status == old(self).status,
    {
        let ghost before = *self;
        let info = self.downloading_files_map.get(file_hash).unwrap();
        let reports = self.peer_and_pieces.get(file_hash).unwrap();
        let holders = build_piece_holders(&info.file.pieces, reports);
        let chosen = choose_holders(&holders);
        let plan = plan_requests(&holders, &chosen);
        let ghost g = group_pieces(
            holders_view(holders@).map_values(|h: ((u64, Seq<char>), Seq<PeerAddr>)| h.0),
            chosen@,
        );
        let ghost f = info.file@;
        let mut out: Vec<(PeerAddr, String)> = Vec::new();
        let mut j: usize = 0;
        while j < plan.len()
            invariant
                j <= plan@.len(),
                crate::selection::plan_view(plan@) == g,
                f == info.file@,
                out@.len() == j,
                forall|m: int| 0 <= m < j ==> {
                    &&& (#[trigger] out@[m]).0 == g[m].0
                    &&& out@[m].1@ == asking_pieces_text(
                        f.file_name,
                        f.file_hash,
                        f.file_size,
                        f.no_of_pieces,
                        f.piece_length,
                        g[m].1,
                    )
                },
            decreases plan@.len() - j,
        {
            let msg = asking_pieces_message(&info.file, &plan[j].pieces);
            out.push((plan[j].peer, msg));
            j = j + 1;
        }
        assert(before.requests_for(file_hash@, out@, chosen@));
        self.piece_and_peers.insert(file_hash.to_owned(), holders);
        self.seeded_files.insert(file_hash.to_owned(), "downloading".to_owned());
        out
    }

    /// Tells whether the pieces of the download `file_hash` can be shared out now.
    pub fn selectable(&self, file_hash: &str) -> (b: bool)
        requires
            self.wf(),
        ensures
            b == self.can_select(file_hash@),
    {
        let info = match self.downloading_files_map.get(file_hash) {
            Some(i) => i,
            None => return false,
        };
        let reports = match self.peer_and_pieces.get(file_hash) {
            Some(r) => r,
            None => return false,
        };
        let ghost fp = pieces_view(info.file.pieces@);
        let ghost rs = report_seq(reports@);
        assert(fp == self.downloading_files_map@[file_hash@].file@.pieces);
        assert(rs == report_seq(self.peer_and_pieces@[file_hash@]@));
        let mut a: usize = 0;
        while a < reports.len()
            invariant
                a <= reports@.len(),
                fp == self.downloading_files_map@[file_hash@].file@.pieces,
                rs == report_seq(self.peer_and_pieces@[file_hash@]@),
                self.downloading_files_map@.contains_key(file_hash@),
                self.peer_and_pieces@.contains_key(file_hash@),
                fp == pieces_view(info.file.pieces@),
                rs == report_seq(reports@),
                forall|i: int, j: int| 0 <= i < a && 0 <= j < rs[i].pieces.len()
                    ==> fp.contains(#[trigger] rs[i].pieces[j]),
            decreases reports@.len() - a,
        {
            let mut b: usize = 0;
            while b < reports[a].pieces.len()
                invariant
                    b <= reports@[a as int].pieces@.len(),
                    a < reports@.len(),
                    fp == self.downloading_files_map@[file_hash@].file@.pieces,
                    rs == report_seq(self.peer_and_pieces@[file_hash@]@),
                    self.downloading_files_map@.contains_key(file_hash@),
                    self.peer_and_pieces@.contains_key(file_hash@),
                    fp == pieces_view(info.file.pieces@),
                    rs == report_seq(reports@),
                    forall|i: int, j: int| 0 <= i < a && 0 <= j < rs[i].pieces.len()
                        ==> fp.contains(#[trigger] rs[i].pieces[j]),
                    forall|j: int| 0 <= j < b ==> fp.contains(#[trigger] rs[a as int].pieces[j]),
                decreases reports@[a as int].pieces@.len() - b,
            {
                let q = &reports[a].pieces[b];
                assert(rs[a as int].pieces[b as int] == q@);
                let mut found = false;
                let mut c: usize = 0;
                while c < info.file.pieces.len()
                    invariant
                        c <= info.file.pieces@.len(),
                        fp == pieces_view(info.file.pieces@),
                        found ==> fp.contains(q@),
                        !found ==> forall|m: int| 0 <= m < c ==> fp[m] != q@,
                    decreases info.file.pieces@.len() - c,
                {
                    if crate::selection::same_piece(&info.file.pieces[c], q) {
                        assert(fp[c as int] == q@);
                        found = true;
                    }
                    c = c + 1;
                }
                if !found {
                    proof {
                        if fp.contains(q@) {
                            let m = fp.index_of(q@);
                            assert(fp[m] == q@);
                        }
                        assert(!fp.contains(rs[a as int].pieces[b as int]));
                    }
                    return false;
                }
                b = b + 1;
            }
            a = a + 1;
        }
        let holders = build_piece_holders(&info.file.pieces, reports);
        let mut i: usize = 0;
        while i < holders.len()
            invariant
                i <= holders@.len(),
                holders_view(holders@) == self.holders_for(file_hash@),
                forall|j: int| 0 <= j < i ==> (#[trigger] holders_view(holders@)[j]).1.len() > 0,
            decreases holders@.len() - i,
        {
            if holders[i].peers.len() == 0 {
                assert(holders_view(holders@)[i as int].1.len() == 0);
                assert(!all_held(self.holders_for(file_hash@)));
                return false;
            }
            i = i + 1;
        }
        true
    }

    /// Shares out the pieces of a download as `select_pieces_from_peers` does, or leaves the
    /// node unchanged and gives `None` where that would fail.
    pub fn try_select_pieces_from_peers(&mut self, file_hash: &str) -> (r: Option<Vec<(PeerAddr, String)>>)
        requires
            old(self).wf(),
        ensures
            final(self).wf(),
            r is Some <==> old(self).can_select(file_hash@),
            r is None ==> *final(self) == *old(self),
            r is Some ==> exists|ch: Seq<PeerAddr>| #[trigger] old(self).requests_for(file_hash@, r.unwrap()@, ch),
    {
        if self.selectable(file_hash) {
            let ghost before = *self;
            let out = self.select_pieces_from_peers(file_hash);
            let ghost ch = choose|ch: Seq<PeerAddr>| #[trigger] before.requests_for(file_hash@, out@, ch);
            let r = Some(out);
            assert(r.unwrap()@ == out@);
            assert(old(self).requests_for(file_hash@, r.unwrap()@, ch));
            r
        } else {
            None
        }
    }

    /// Records that piece `piece_no` of the download `file_hash` has arrived from `addrs`.
    pub fn record_received_piece(&mut self, file_hash: &str, addrs: PeerAddr, piece_no: usize)
        requires
            old(self).wf(),
            old(self).pieces_got@.contains_key(file_hash@),
        ensures
            final(self).wf(),
            final(self).pieces_got@.dom() == old(self).pieces_got@.dom(),
            final(self).pieces_got@[file_hash@]@
                == old(self).pieces_got@[file_hash@]@.push(PieceFromIpAndPiece { ip: addrs, piece_no }),
            forall|k: Seq<char>| k != file_hash@ && #[trigger] old(self).pieces_got@.contains_key(k)
                ==> final(self).pieces_got@[k] == old(self).pieces_got@[k],
            final(self).files_map == old(self).files_map,
            final(self).downloading_files_map == old(self).downloading_files_map,
            final(self).peer_and_pieces == old(self).peer_and_pieces,
            final(self).piece_and_peers == old(self).piece_and_peers,
            final(self).completion_tracker == old(self).completion_tracker,
            final(self).seeded_files == old(self).seeded_files,
            final(self).status == old(self).status,
    {
        let mut got = self.pieces_got.take(file_hash).unwrap();
        got.push(PieceFromIpAndPiece::new(addrs, piece_no));
        self.pieces_got.insert(file_hash.to_owned(), got);
        assert(self.pieces_got@.dom() =~= old(self).pieces_got@.dom());
    }

    /// Records that piece `piece_no` of the download `file_hash` is no longer awaited: every
    /// awaited piece with that number is dropped. A file that is not awaited is left alone.
    pub fn remove_awaited_piece(&mut self, file_hash: &str, piece_no: u64)
        requires
            old(self).wf(),
        ensures
            final(self).wf(),
            final(self).piece_and_peers@.dom() == old(self).piece_and_peers@.dom(),
            old(self).piece_and_peers@.contains_key(file_hash@) ==> holders_view(final(self).piece_and_peers@[file_hash@]@)
                == holders_view(old(self).piece_and_peers@[file_hash@]@).filter(
                    |h: ((u64, Seq<char>), Seq<PeerAddr>)| h.0.0 != piece_no),
            forall|k: Seq<char>| k != file_hash@ && #[trigger] old(self).piece_and_peers@.contains_key(k)
                ==> final(self).piece_and_peers@[k] == old(self).piece_and_peers@[k],
            final(self).files_map == old(self).files_map,
            final(self).downloading_files_map == old(self).downloading_files_map,
            final(self).peer_and_pieces == old(self).peer_and_pieces,
            final(self).pieces_got == old(self).pieces_got,
            final(self).completion_tracker == old(self).completion_tracker,
            final(self).seeded_files == old(self).seeded_files,
            final(self).status == old(self).status,
    {
        match self.piece_and_peers.take(file_hash) {
            None => {
                assert(self.piece_and_peers@ =~= old(self).piece_and_peers@);
            },
            Some(mut holders) => {
                let ghost hv = holders_view(holders@);
                let ghost pred = |h: ((u64, Seq<char>), Seq<PeerAddr>)| h.0.0 != piece_no;
                let mut kept: Vec<PieceHolders> = Vec::new();
                let mut i: usize = 0;
                let n = holders.len();
                while holders.len() > 0
                    invariant
                        i + holders@.len() == n,
                        n == hv.len(),
                        holders_view(holders@) == hv.skip(i as int),
                        holders_view(kept@) == hv.take(i as int).filter(pred),
                        pred == (|h: ((u64, Seq<char>), Seq<PeerAddr>)| h.0.0 != piece_no),
                    decreases holders@.len(),
                {
                    proof {
                        reveal(Seq::filter);
                    }
                    let ghost rest = holders@;
                    let h = holders.remove(0);
                    assert(hv[i as int] == (h.piece@, h.peers@)) by {
                        assert(holders_view(rest)[0] == (h.piece@, h.peers@));
                    }
                    assert(hv.take(i + 1).drop_last() =~= hv.take(i as int));
                    assert(hv.take(i + 1).last() == hv[i as int]);
                    assert(hv.take(i + 1).filter(pred) == (if pred(hv[i as int]) {
                        hv.take(i as int).filter(pred).push(hv[i as int])
                    } else {
                        hv.take(i as int).filter(pred)
                    }));
                    assert(pred(hv[i as int]) == (h.piece.piece_no != piece_no));
                    assert(holders_view(holders@) =~= holders_view(rest).drop_first());
                    assert(hv.skip(i as int).drop_first() =~= hv.skip(i + 1));
                    if h.piece.piece_no != piece_no {
                        let ghost kb = kept@;
                        kept.push(h);
                        assert(holders_view(kept@) =~= holders_view(kb).push(hv[i as int]));
                    }
                    i = i + 1;
                }
                assert(hv.take(n as int) =~= hv);
                self.piece_and_peers.insert(file_hash.to_owned(), kept);
                assert(self.piece_and_peers@.dom() =~= old(self).piece_and_peers@.dom());
            },
        }
    }

    /// When no piece of the download `file_hash` is awaited any more, the file is recorded as
    /// complete (to be put together) and no longer awaited; otherwise nothing changes.
    pub fn update_if_transfer_is_completed(&mut self, file_hash: &str)
        requires
            old(self).wf(),
        ensures
            final(self).wf(),
            ({
                let done = old(self).piece_and_peers@.contains_key(file_hash@)
                    && old(self).piece_and_peers@[file_hash@]@.len() == 0;
                &&& done ==> final(self).completion_tracker@.map_values(|s: String| s@)
                    == old(self).completion_tracker@.map_values(|s: String| s@).push(file_hash@)
                &&& done ==> final(self).piece_and_peers@ == old(self).piece_and_peers@.remove(file_hash@)
                &&& !done ==> *final(self) == *old(self)
            }),
            final(self).files_map == old(self).files_map,
            final(self).downloading_files_map == old(self).downloading_files_map,
            final(self).peer_and_pieces == old(self).peer_and_pieces,
            final(self).pieces_got == old(self).pieces_got,
            final(self).seeded_files == old(self).seeded_files,
            final(self).status == old(self).status,
    {
        let done = match self.piece_and_peers.get(file_hash) {
            Some(inner) => inner.len() == 0,
            None => false,
        };
        if done {
            self.completion_tracker.push(file_hash.to_owned());
            let _ = self.piece_and_peers.take(file_hash);
            assert(self.completion_tracker@.map_values(|s: String| s@)
                =~= old(self).completion_tracker@.map_values(|s: String| s@).push(file_hash@));
        }
    }

    /// Takes in a piece that has arrived from `addrs` in a transfer with header `header`: reads
    /// the piece's number and hash from `line`, records the piece as arrived and no longer
    /// awaited, and gives how many of its bytes to keep and the line to add to the file's piece
    /// information.
    pub fn handle_piece(&mut self, header: &PiecesHeader, line: &str, addrs: PeerAddr) -> (r: ArrivedPiece)
        requires
            old(self).wf(),
            piece_arrival_ok(header, line@),
            old(self).pieces_got@.contains_key(header.file_hash@),
        ensures
            final(self).wf(),
            piece_taken_in(*old(self), *final(self), header, line@, addrs, r),
    {
        let (piece_no, hash) = parse_piece_no(line).unwrap();
        let keep = piece_bytes_to_write(piece_no, header.total_pieces, header.piece_length, header.file_size);
        self.record_received_piece(header.file_hash.as_str(), addrs, piece_no);
        self.remove_awaited_piece(header.file_hash.as_str(), piece_no as u64);
        let record_line = piece_sent_line(piece_no as u64, hash.as_str());
        ArrivedPiece { piece_no, keep, record_line }
    }

    /// Takes in an arrived piece as `handle_piece` does, or leaves the node unchanged and gives
    /// `None` where `handle_piece` would fail.
    pub fn try_handle_piece(&mut self, header: &PiecesHeader, line: &str, addrs: PeerAddr) -> (r: Option<ArrivedPiece>)
        requires
            old(self).wf(),
        ensures
            final(self).wf(),
            r is Some <==> (piece_arrival_ok(header, line@) && old(self).pieces_got@.contains_key(header.file_hash@)),
            r is None ==> *final(self) == *old(self),
            r matches Some(a) ==> a.piece_no == piece_sent_of(line@).unwrap().0,
            r matches Some(a) ==> a.piece_no != header.total_pieces - 1 ==> a.keep == header.piece_length,
            r matches Some(a) ==> a.piece_no == header.total_pieces - 1
                ==> a.keep == header.file_size - (header.total_pieces - 1) * header.piece_length,
            r matches Some(a) ==> a.keep <= header.piece_length,
            r matches Some(a) ==> piece_taken_in(*old(self), *final(self), header, line@, addrs, a),
    {
        if !piece_sent_line_readable(line) || !self.pieces_got.contains_key(header.file_hash.as_str())
            || header.total_pieces < 1 {
            return None;
        }
        let n = match parse_piece_no(line) {
            Some((n, _)) => n,
            None => return None,
        };
        if n == header.total_pieces - 1 {
            let total = header.total_pieces as u128;
            let len = header.piece_length as u128;
            assert(total * len <= u128::MAX) by (nonlinear_arith)
                requires
                    total <= 0xffff_ffff_ffff_ffffu128,
                    len <= 0xffff_ffff_ffff_ffffu128;
            let product = total * len;
            if product > usize::MAX as u128 || (header.file_size as u128) > product
                || product - (header.file_size as u128) > len {
                return None;
            }
            assert(layout_ok(header.total_pieces as int, header.piece_length as int, header.file_size as int));
        }
        Some(self.handle_piece(header, line, addrs))
    }

    /// Ends the download at position `index` of the completed files, once it has been put
    /// together at `download_path`: it is no longer downloading, it is seeded from that path,
    /// it leaves the completed files, and the reports about it are dropped.
    pub fn complete_download(&mut self, index: usize, download_path: String)
        requires
            old(self).wf(),
            index < old(self).completion_tracker@.len(),
            old(self).downloading_files_map@.contains_key(old(self).completion_tracker@[index as int]@),
        ensures
            final(self).wf(),
            ({
                let h = old(self).completion_tracker@[index as int]@;
                &&& final(self).downloading_files_map@ == old(self).downloading_files_map@.remove(h)
                &&& final(self).seeded_files@ == old(self).seeded_files@.insert(h, download_path)
                &&& final(self).completion_tracker@ == old(self).completion_tracker@.remove(index as int)
                &&& final(self).peer_and_pieces@ == old(self).peer_and_pieces@.remove(h)
            }),
            final(self).files_map == old(self).files_map,
            final(self).piece_and_peers == old(self).piece_and_peers,
            final(self).pieces_got == old(self).pieces_got,
            final(self).status == old(self).status,
    {
        let file_hash = self.completion_tracker.remove(index);
        let _ = self.downloading_files_map.take(file_hash.as_str());
        self.seeded_files.insert(file_hash.clone(), download_path);
        let _ = self.peer_and_pieces.take(file_hash.as_str());
    }

    /// The numbers of the pieces of the found file `file_hash` that have not arrived, in the
    /// order of the file's pieces.
    pub fn left_out_pieces(&self, file_hash: &str) -> (r: Vec<u64>)
        requires
            self.wf(),
            self.files_map@.contains_key(file_hash@),
            self.pieces_got@.contains_key(file_hash@),
        ensures
            r@ == missing_pieces(self.files_map@[file_hash@].file@.pieces, self.pieces_got@[file_hash@]@),
    {
        let info = self.files_map.get(file_hash).unwrap();
        let got = self.pieces_got.get(file_hash).unwrap();
        let ghost ps = info.file@.pieces;
        let mut out: Vec<u64> = Vec::new();
        let mut i: usize = 0;
        while i < info.file.pieces.len()
            invariant
                i <= info.file.pieces@.len(),
                ps == info.file@.pieces,
                out@ == missing_pieces(ps.take(i as int), got@),
            decreases info.file.pieces@.len() - i,
        {
            let no = info.file.pieces[i].piece_no;
            assert(ps.take(i + 1).drop_last() =~= ps.take(i as int));
            assert(ps.take(i + 1).last().0 == no);
            let mut found = false;
            let mut j: usize = 0;
            while j < got.len()
                invariant
                    j <= got@.len(),
                    found <==> exists|m: int| 0 <= m < j && got@[m].piece_no == no as usize,
                decreases got@.len() - j,
            {
                if got[j].piece_no == no as usize {
                    found = true;
                }
                j = j + 1;
            }
            if !found {
                out.push(no);
            }
            i = i + 1;
        }
        assert(ps.take(info.file.pieces@.len() as int) =~= ps);
        out
    }

    /// Puts together the found file `file_hash` once every one of its pieces has arrived:
    /// `reads[i]` holds what reading the stored piece `i` into one buffer of the piece length
    /// gave. Every piece is written whole but the last, which is cut to the file's size. No
    /// piece may be left out, and the last piece must fit the file's size.
    pub fn handle_left_out_pieces(&self, file_hash: &str, reads: &Vec<Vec<u8>>) -> (r: Vec<u8>)
        requires
            self.wf(),
            self.files_map@.contains_key(file_hash@),
            self.pieces_got@.contains_key(file_hash@),
            missing_pieces(self.files_map@[file_hash@].file@.pieces, self.pieces_got@[file_hash@]@).len() == 0,
            reads@.len() == self.files_map@[file_hash@].file@.pieces.len(),
            self.files_map@[file_hash@].file.piece_length <= usize::MAX,
            self.files_map@[file_hash@].file.file_size <= usize::MAX,
            reads_fit(reads.deep_view(), self.files_map@[file_hash@].file.piece_length as nat),
            reads@.len() >= 1 ==> layout_ok(
                reads@.len() as int,
                self.files_map@[file_hash@].file.piece_length as int,
                self.files_map@[file_hash@].file.file_size as int,
            ),
        ensures
            r@ == assembled(
                reads.deep_view(),
                self.files_map@[file_hash@].file.piece_length as nat,
                self.files_map@[file_hash@].file.file_size as nat,
                reads@.len() as nat,
            ),
    {
        let info = self.files_map.get(file_hash).unwrap();
        assemble_file(reads, info.file.piece_length as usize, info.file.file_size as usize)
    }

    /// Puts a found file together as `handle_left_out_pieces` does, or gives `None` where that
    /// would fail: the file is not found or not being received, a piece has not arrived, the
    /// reads do not match the pieces, or the last piece does not fit the file's size.
    pub fn try_handle_left_out_pieces(&self, file_hash: &str, reads: &Vec<Vec<u8>>) -> (r: Option<Vec<u8>>)
        requires
            self.wf(),
        ensures
            r is Some <==> ({
                &&& self.files_map@.contains_key(file_hash@)
                &&& self.pieces_got@.contains_key(file_hash@)
                &&& missing_pieces(self.files_map@[file_hash@].file@.pieces, self.pieces_got@[file_hash@]@).len() == 0
                &&& reads@.len() == self.files_map@[file_hash@].file@.pieces.len()
                &&& self.files_map@[file_hash@].file.piece_length <= usize::MAX
                &&& self.files_map@[file_hash@].file.file_size <= usize::MAX
                &&& reads_fit(reads.deep_view(), self.files_map@[file_hash@].file.piece_length as nat)
                &&& (reads@.len() >= 1 ==> layout_ok(
                    reads@.len() as int,
                    self.files_map@[file_hash@].file.piece_length as int,
                    self.files_map@[file_hash@].file.file_size as int,
                ))
            }),
            r matches Some(v) ==> v@ == assembled(
                reads.deep_view(),
                self.files_map@[file_hash@].file.piece_length as nat,
                self.files_map@[file_hash@].file.file_size as nat,
                reads@.len() as nat,
            ),
    {
        if !self.files_map.contains_key(file_hash) || !self.pieces_got.contains_key(file_hash) {
            return None;
        }
        if self.left_out_pieces(file_hash).len() != 0 {
            return None;
        }
        let info = self.files_map.get(file_hash).unwrap();
        if reads.len() != info.file.pieces.len() {
            return None;
        }
        let len = info.file.piece_length;
        let size = info.file.file_size;
        if len > usize::MAX as u64 || size > usize::MAX as u64 {
            return None;
        }
        let mut i: usize = 0;
        while i < reads.len()
            invariant
                i <= reads@.len(),
                self.files_map@.contains_key(file_hash@),
                len == self.files_map@[file_hash@].file.piece_length,
                forall|j: int| 0 <= j < i ==> (#[trigger] reads.deep_view()[j]).len() <= len,
            decreases reads@.len() - i,
        {
            assert(reads.deep_view()[i as int] == reads@[i as int]@);
            if reads[i].len() as u64 > len {
                assert(!reads_fit(reads.deep_view(), len as nat));
                return None;
            }
            i = i + 1;
        }
        if reads.len() >= 1 && !layout_valid(reads.len(), len as usize, size as usize) {
            return None;
        }
        Some(self.handle_left_out_pieces(file_hash, reads))
    }
}

} // verus!
