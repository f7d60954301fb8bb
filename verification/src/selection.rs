//! Choosing which peer to ask for each piece of a download.
use vstd::prelude::*;
use crate::address::PeerAddr;
use crate::file_handler::{pieces_view, FilePiece, PiecesFromPeer, ReportModel};
use crate::text::same_text;
use rand::seq::SliceRandom;

verus! {

/// The pieces of `ps` in order, each kept only where it first occurs.
pub open spec fn distinct_pieces(ps: Seq<(u64, Seq<char>)>) -> Seq<(u64, Seq<char>)>
    decreases ps.len(),
{
    if ps.len() == 0 {
        Seq::empty()
    } else {
        let d = distinct_pieces(ps.drop_last());
        if d.contains(ps.last()) {
            d
        } else {
            d.push(ps.last())
        }
    }
}

/// How often `p` occurs in `ps`.
pub open spec fn count_of(p: (u64, Seq<char>), ps: Seq<(u64, Seq<char>)>) -> nat
    decreases ps.len(),
{
    if ps.len() == 0 {
        0
    } else {
        count_of(p, ps.drop_last()) + if ps.last() == p { 1nat } else { 0nat }
    }
}

/// The peers recorded as holding `p`, from the reports `rs` in order: a report's address once
/// for each time the report lists `p`.
pub open spec fn holders_of(p: (u64, Seq<char>), rs: Seq<ReportModel>) -> Seq<PeerAddr>
    decreases rs.len(),
{
    if rs.len() == 0 {
        Seq::empty()
    } else {
        holders_of(p, rs.drop_last()) + Seq::new(count_of(p, rs.last().pieces), |i: int| rs.last().ip_addr)
    }
}

/// True when every piece that a report lists is a piece of the file.
pub open spec fn reports_within(file_pieces: Seq<(u64, Seq<char>)>, rs: Seq<ReportModel>) -> bool {
    forall|i: int, j: int| 0 <= i < rs.len() && 0 <= j < rs[i].pieces.len()
        ==> file_pieces.contains(#[trigger] rs[i].pieces[j])
}

/// Each distinct piece of the file with the peers that hold it.
pub open spec fn piece_holders(file_pieces: Seq<(u64, Seq<char>)>, rs: Seq<ReportModel>) -> Seq<((u64, Seq<char>), Seq<PeerAddr>)> {
    distinct_pieces(file_pieces).map_values(|p: (u64, Seq<char>)| (p, holders_of(p, rs)))
}

/// The pieces with their holders, as plain values.
pub open spec fn holders_view(v: Seq<PieceHolders>) -> Seq<((u64, Seq<char>), Seq<PeerAddr>)> {
    v.map_values(|h: PieceHolders| (h.piece@, h.peers@))
}

/// A piece of a file being downloaded and the peers that reported holding it.
#[derive(Debug)]
pub struct PieceHolders {
    pub piece: FilePiece,
    pub peers: Vec<PeerAddr>,
}

/// The pieces to ask one peer for.
#[derive(Debug)]
pub struct PeerRequest {
    pub peer: PeerAddr,
    pub pieces: Vec<FilePiece>,
}

/// Where the group of peer `a` stands in `g`, or -1.
pub open spec fn find_peer(g: Seq<(PeerAddr, Seq<(u64, Seq<char>)>)>, a: PeerAddr) -> int
    decreases g.len(),
{
    if g.len() == 0 {
        -1
    } else if g.last().0 == a {
        g.len() - 1
    } else {
        find_peer(g.drop_last(), a)
    }
}

/// The pieces `ps` grouped by the peer chosen for each, `ch`: groups in the order their peer is
/// first chosen, and in each group the pieces in their order.
pub open spec fn group_pieces(ps: Seq<(u64, Seq<char>)>, ch: Seq<PeerAddr>) -> Seq<(PeerAddr, Seq<(u64, Seq<char>)>)>
    decreases ps.len(),
{
    if ps.len() == 0 || ch.len() == 0 {
        Seq::empty()
    } else {
        let g = group_pieces(ps.drop_last(), ch.drop_last());
        let a = ch.last();
        let k = find_peer(g, a);
        if k >= 0 {
            g.update(k, (a, g[k].1.push(ps.last())))
        } else {
            g.push((a, seq![ps.last()]))
        }
    }
}

/// The requests to peers, as plain values.
pub open spec fn plan_view(v: Seq<PeerRequest>) -> Seq<(PeerAddr, Seq<(u64, Seq<char>)>)> {
    v.map_values(|r: PeerRequest| (r.peer, pieces_view(r.pieces@)))
}

/// A copy of a piece.
pub fn copy_piece(p: &FilePiece) -> (r: FilePiece)
    ensures
        r@ == p@,
{
    FilePiece::new(p.piece_no, p.hash.clone())
}

/// Whether two pieces have the same number and hash.
pub fn same_piece(a: &FilePiece, b: &FilePiece) -> (r: bool)
    ensures
        r == (a@ == b@),
{
    a.piece_no == b.piece_no && same_text(a.hash.as_str(), b.hash.as_str())
}


/// The distinct pieces hold no piece twice and hold exactly the pieces of `ps`.
pub proof fn lemma_distinct_pieces(ps: Seq<(u64, Seq<char>)>)
    ensures
        distinct_pieces(ps).no_duplicates(),
        forall|x: (u64, Seq<char>)| #[trigger] distinct_pieces(ps).contains(x) <==> ps.contains(x),
    decreases ps.len(),
{
    if ps.len() > 0 {
        lemma_distinct_pieces(ps.drop_last());
        let d = distinct_pieces(ps.drop_last());
        assert forall|x: (u64, Seq<char>)| #[trigger] ps.contains(x) <==> (ps.drop_last().contains(x) || ps.last() == x) by {
            if ps.contains(x) {
                let i = ps.index_of(x);
                if i < ps.len() - 1 {
                    assert(ps.drop_last()[i] == x);
                }
            }
            if ps.drop_last().contains(x) {
                let i = ps.drop_last().index_of(x);
                assert(ps[i] == x);
            }
            if ps.last() == x {
                assert(ps[ps.len() - 1] == x);
            }
        }
        if !d.contains(ps.last()) {
            assert forall|x: (u64, Seq<char>)| #[trigger] d.push(ps.last()).contains(x) <==> (d.contains(x) || ps.last() == x) by {
                if d.push(ps.last()).contains(x) {
                    let i = d.push(ps.last()).index_of(x);
                    if i < d.len() {
                        assert(d[i] == x);
                    }
                }
                if d.contains(x) {
                    let i = d.index_of(x);
                    assert(d.push(ps.last())[i] == x);
                }
                if ps.last() == x {
                    assert(d.push(ps.last())[d.len() as int] == x);
                }
            }
        }
    }
}

/// A piece is counted in a list exactly when it occurs there.
proof fn lemma_count_positive(p: (u64, Seq<char>), ps: Seq<(u64, Seq<char>)>)
    ensures
        count_of(p, ps) > 0 <==> exists|j: int| 0 <= j < ps.len() && ps[j] == p,
    decreases ps.len(),
{
    if ps.len() > 0 {
        let q = ps.drop_last();
        lemma_count_positive(p, q);
        if exists|j: int| 0 <= j < q.len() && q[j] == p {
            let j = choose|j: int| 0 <= j < q.len() && q[j] == p;
            assert(ps[j] == p);
        }
        if exists|j: int| 0 <= j < ps.len() && ps[j] == p {
            let j = choose|j: int| 0 <= j < ps.len() && ps[j] == p;
            if j < q.len() {
                assert(q[j] == p);
            }
        }
    }
}

/// The holders of a piece are exactly the peers whose reports list it, whatever number of
/// pieces those reports announce: a peer holds `p` when some report of it lists `p`, and only
/// then.
pub proof fn holders_are_the_reporting_peers(p: (u64, Seq<char>), rs: Seq<ReportModel>, a: PeerAddr)
    ensures
        holders_of(p, rs).contains(a) <==> exists|r: int, j: int|
            #![trigger rs[r].pieces[j]]
            0 <= r < rs.len() && 0 <= j < rs[r].pieces.len() && rs[r].pieces[j] == p && rs[r].ip_addr == a,
    decreases rs.len(),
{
    if rs.len() > 0 {
        let q = rs.drop_last();
        let last = rs.last();
        holders_are_the_reporting_peers(p, q, a);
        lemma_count_positive(p, last.pieces);
        let hq = holders_of(p, q);
        let tail = Seq::new(count_of(p, last.pieces), |i: int| last.ip_addr);
        assert(holders_of(p, rs) == hq + tail);
        assert((hq + tail).contains(a) <==> (hq.contains(a) || (tail.len() > 0 && last.ip_addr == a))) by {
            if (hq + tail).contains(a) {
                let k = choose|k: int| 0 <= k < (hq + tail).len() && (hq + tail)[k] == a;
                if k < hq.len() {
                    assert(hq[k] == a);
                } else {
                    assert(tail[k - hq.len()] == a);
                }
            }
            if hq.contains(a) {
                let k = choose|k: int| 0 <= k < hq.len() && hq[k] == a;
                assert((hq + tail)[k] == a);
            }
            if tail.len() > 0 && last.ip_addr == a {
                assert((hq + tail)[hq.len() as int] == a);
            }
        }
        if exists|r: int, j: int| #![trigger rs[r].pieces[j]]
            0 <= r < rs.len() && 0 <= j < rs[r].pieces.len() && rs[r].pieces[j] == p && rs[r].ip_addr == a {
            let (r, j) = choose|r: int, j: int| #![trigger rs[r].pieces[j]]
                0 <= r < rs.len() && 0 <= j < rs[r].pieces.len() && rs[r].pieces[j] == p && rs[r].ip_addr == a;
            if r < q.len() {
                assert(q[r] == rs[r]);
                assert(q[r].pieces[j] == p);
            } else {
                assert(last.pieces[j] == p);
            }
        }
        if hq.contains(a) {
            let (r, j) = choose|r: int, j: int| #![trigger q[r].pieces[j]]
                0 <= r < q.len() && 0 <= j < q[r].pieces.len() && q[r].pieces[j] == p && q[r].ip_addr == a;
            assert(rs[r] == q[r]);
            assert(rs[r].pieces[j] == p);
        }
        if tail.len() > 0 && last.ip_addr == a {
            let j = choose|j: int| 0 <= j < last.pieces.len() && last.pieces[j] == p;
            assert(rs[rs.len() - 1].pieces[j] == p);
        }
    }
}

/// The report views of a list of reports.
pub open spec fn report_seq(v: Seq<PiecesFromPeer>) -> Seq<ReportModel> {
    v.map_values(|p: PiecesFromPeer| p@)
}

/// Where piece `p` stands among the holders, if it does.
fn find_holder(hs: &Vec<PieceHolders>, p: &FilePiece) -> (r: Option<usize>)
    ensures
        r matches Some(j) ==> j < hs@.len() && hs@[j as int].piece@ == p@,
        r is None ==> forall|j: int| 0 <= j < hs@.len() ==> hs@[j].piece@ != p@,
{
    let mut j: usize = 0;
    while j < hs.len()
        invariant
            j <= hs@.len(),
            forall|k: int| 0 <= k < j ==> hs@[k].piece@ != p@,
        decreases hs@.len() - j,
    {
        if same_piece(&hs[j].piece, p) {
            return Some(j);
        }
        j = j + 1;
    }
    None
}

proof fn lemma_count_step(p: (u64, Seq<char>), ps: Seq<(u64, Seq<char>)>, b: int)
    requires
        0 <= b < ps.len(),
    ensures
        count_of(p, ps.take(b + 1)) == count_of(p, ps.take(b)) + if ps[b] == p { 1nat } else { 0nat },
{
    assert(ps.take(b + 1).drop_last() =~= ps.take(b));
}

/// Each distinct piece of the file `file_pieces` with the peers that reported holding it, in
/// the order of the reports.
pub fn build_piece_holders(file_pieces: &Vec<FilePiece>, reports: &Vec<PiecesFromPeer>) -> (r: Vec<PieceHolders>)
    requires
        reports_within(pieces_view(file_pieces@), report_seq(reports@)),
    ensures
        holders_view(r@) == piece_holders(pieces_view(file_pieces@), report_seq(reports@)),
{
    let ghost fp = pieces_view(file_pieces@);
    let ghost rs = report_seq(reports@);
    let mut hs: Vec<PieceHolders> = Vec::new();
    let mut i: usize = 0;
    while i < file_pieces.len()
        invariant
            i <= file_pieces@.len(),
            fp == pieces_view(file_pieces@),
            forall|j: int| 0 <= j < hs@.len() ==> (#[trigger] hs@[j]).peers@ == Seq::<PeerAddr>::empty(),
            hs@.map_values(|h: PieceHolders| h.piece@) == distinct_pieces(fp.take(i as int)),
        decreases file_pieces@.len() - i,
    {
        let p = &file_pieces[i];
        assert(fp.take(i + 1).drop_last() =~= fp.take(i as int));
        assert(fp.take(i + 1).last() == p@);
        match find_holder(&hs, p) {
            Some(j) => {
                assert(distinct_pieces(fp.take(i as int))[j as int] == p@);
            },
            None => {
                assert(!distinct_pieces(fp.take(i as int)).contains(p@));
                let ghost before = hs@;
                hs.push(PieceHolders { piece: copy_piece(p), peers: Vec::new() });
                assert(hs@.map_values(|h: PieceHolders| h.piece@) =~= before.map_values(|h: PieceHolders| h.piece@).push(p@));
            },
        }
        i = i + 1;
    }
    assert(fp.take(file_pieces@.len() as int) =~= fp);
    let ghost d = distinct_pieces(fp);
    proof { lemma_distinct_pieces(fp); }
    let mut a: usize = 0;
    while a < reports.len()
        invariant
            a <= reports@.len(),
            rs == report_seq(reports@),
            fp == pieces_view(file_pieces@),
            d == distinct_pieces(fp),
            d.no_duplicates(),
            forall|x: (u64, Seq<char>)| #[trigger] d.contains(x) <==> fp.contains(x),
            reports_within(fp, rs),
            hs@.map_values(|h: PieceHolders| h.piece@) == d,
            forall|j: int| 0 <= j < hs@.len() ==> (#[trigger] hs@[j]).peers@ == holders_of(d[j], rs.take(a as int)),
        decreases reports@.len() - a,
    {
        let report = &reports[a];
        let ghost rp = rs[a as int].pieces;
        assert(rp == pieces_view(report.pieces@));
        let mut b: usize = 0;
        while b < report.pieces.len()
            invariant
                b <= report.pieces@.len(),
                a < reports@.len(),
                report == &reports@[a as int],
                rp == pieces_view(report.pieces@),
                rs == report_seq(reports@),
                d.no_duplicates(),
                forall|x: (u64, Seq<char>)| #[trigger] d.contains(x) <==> fp.contains(x),
                reports_within(fp, rs),
                hs@.map_values(|h: PieceHolders| h.piece@) == d,
                forall|j: int| 0 <= j < hs@.len() ==> (#[trigger] hs@[j]).peers@
                    == holders_of(d[j], rs.take(a as int)) + Seq::new(count_of(d[j], rp.take(b as int)), |k: int| report.ip_addr),
            decreases report.pieces@.len() - b,
        {
            let q = &report.pieces[b];
            assert(rs[a as int].pieces[b as int] == q@);
            assert(fp.contains(q@));
            assert(d.contains(q@));
            let found = find_holder(&hs, q);
            proof {
                let jj = d.index_of(q@);
                assert(hs@[jj].piece@ == d[jj]);
            }
            let j = found.unwrap();
            let ghost before = hs@;
            hs[j].peers.push(report.ip_addr);
            proof {
                assert forall|k: int| 0 <= k < hs@.len() implies (#[trigger] hs@[k]).peers@
                    == holders_of(d[k], rs.take(a as int)) + Seq::new(count_of(d[k], rp.take(b + 1)), |m: int| report.ip_addr) by {
                    lemma_count_step(d[k], rp, b as int);
                    assert(before[k].piece@ == d[k]);
                    if k == j {
                        assert(d[k] == q@);
                        assert(hs@[k].peers@ =~= before[k].peers@.push(report.ip_addr));
                    } else {
                        assert(d[k] != d[j as int]);
                        assert(hs@[k] == before[k]);
                    }
                    assert(Seq::new(count_of(d[k], rp.take(b + 1)), |m: int| report.ip_addr) =~= (if k == j {
                        Seq::new(count_of(d[k], rp.take(b as int)), |m: int| report.ip_addr).push(report.ip_addr)
                    } else {
                        Seq::new(count_of(d[k], rp.take(b as int)), |m: int| report.ip_addr)
                    }));
                }
                assert(hs@.map_values(|h: PieceHolders| h.piece@) =~= before.map_values(|h: PieceHolders| h.piece@));
            }
            b = b + 1;
        }
        proof {
            assert(rp.take(report.pieces@.len() as int) =~= rp);
            assert forall|j: int| 0 <= j < hs@.len() implies (#[trigger] hs@[j]).peers@ == holders_of(d[j], rs.take(a + 1)) by {
                assert(rs.take(a + 1).drop_last() =~= rs.take(a as int));
            }
        }
        a = a + 1;
    }
    proof {
        assert(rs.take(reports@.len() as int) =~= rs);
        assert(holders_view(hs@) =~= piece_holders(fp, rs));
    }
    hs
}


/// A found group is the group of the peer searched for; a missing peer has no group.
pub proof fn lemma_find_peer(g: Seq<(PeerAddr, Seq<(u64, Seq<char>)>)>, a: PeerAddr)
    ensures
        -1 <= find_peer(g, a) < g.len(),
        find_peer(g, a) >= 0 ==> g[find_peer(g, a)].0 == a,
        find_peer(g, a) == -1 ==> forall|i: int| 0 <= i < g.len() ==> g[i].0 != a,
    decreases g.len(),
{
    if g.len() > 0 && g.last().0 != a {
        lemma_find_peer(g.drop_last(), a);
        assert forall|i: int| 0 <= i < g.len() - 1 implies g[i] == g.drop_last()[i] by {}
    }
}

/// Where the request to peer `a` stands, searching from the back as `find_peer` does.
fn find_request(gs: &Vec<PeerRequest>, a: PeerAddr) -> (r: Option<usize>)
    ensures
        match r {
            Some(k) => k < gs@.len() && find_peer(plan_view(gs@), a) == k as int,
            None => find_peer(plan_view(gs@), a) == -1,
        },
{
    let ghost g = plan_view(gs@);
    let mut j: usize = gs.len();
    assert(g.take(j as int) =~= g);
    while j > 0
        invariant
            j <= gs@.len(),
            g == plan_view(gs@),
            find_peer(g, a) == find_peer(g.take(j as int), a),
        decreases j,
    {
        assert(g.take(j as int).drop_last() =~= g.take(j - 1));
        if gs[j - 1].peer == a {
            return Some(j - 1);
        }
        j = j - 1;
    }
    None
}

/// Groups the pieces by the peer chosen for each: `chosen[i]` is the peer to ask for the
/// piece of `holders[i]`.
pub fn plan_requests(holders: &Vec<PieceHolders>, chosen: &Vec<PeerAddr>) -> (r: Vec<PeerRequest>)
    requires
        chosen@.len() == holders@.len(),
    ensures
        plan_view(r@) == group_pieces(holders_view(holders@).map_values(|h: ((u64, Seq<char>), Seq<PeerAddr>)| h.0), chosen@),
{
    let ghost ps = holders_view(holders@).map_values(|h: ((u64, Seq<char>), Seq<PeerAddr>)| h.0);
    let mut gs: Vec<PeerRequest> = Vec::new();
    let mut i: usize = 0;
    while i < holders.len()
        invariant
            i <= holders@.len(),
            chosen@.len() == holders@.len(),
            ps == holders_view(holders@).map_values(|h: ((u64, Seq<char>), Seq<PeerAddr>)| h.0),
            plan_view(gs@) == group_pieces(ps.take(i as int), chosen@.take(i as int)),
        decreases holders@.len() - i,
    {
        let a = chosen[i];
        let p = copy_piece(&holders[i].piece);
        assert(ps[i as int] == p@);
        assert(ps.take(i + 1).drop_last() =~= ps.take(i as int));
        assert(chosen@.take(i + 1).drop_last() =~= chosen@.take(i as int));
        let ghost before = plan_view(gs@);
        match find_request(&gs, a) {
            Some(k) => {
                let ghost old_gs = gs@;
                gs[k].pieces.push(p);
                proof {
                    lemma_find_peer(before, a);
                    assert(gs@[k as int].peer == a);
                    assert(pieces_view(gs@[k as int].pieces@) =~= pieces_view(old_gs[k as int].pieces@).push(p@));
                    assert(plan_view(gs@) =~= before.update(k as int, (a, before[k as int].1.push(p@))));
                }
            },
            None => {
                let mut v: Vec<FilePiece> = Vec::new();
                v.push(p);
                let ghost old_gs = gs@;
                gs.push(PeerRequest { peer: a, pieces: v });
                proof {
                    assert(pieces_view(v@) =~= seq![p@]);
                    assert(plan_view(gs@) =~= before.push((a, seq![p@])));
                }
            },
        }
        i = i + 1;
    }
    assert(ps.take(holders@.len() as int) =~= ps);
    assert(chosen@.take(holders@.len() as int) =~= chosen@);
    gs
}


/// Some request in `g` is to peer `a` and asks for piece `x`.
pub open spec fn asked_of(g: Seq<(PeerAddr, Seq<(u64, Seq<char>)>)>, a: PeerAddr, x: (u64, Seq<char>)) -> bool {
    exists|j: int| #![trigger g[j]] 0 <= j < g.len() && g[j].0 == a && g[j].1.contains(x)
}

/// Grouping the pieces by the chosen peers loses nothing and adds nothing: there is one request
/// per chosen peer, each piece is in the request to the peer chosen for it, and each piece of
/// a request was chosen for that request's peer.
pub proof fn plan_matches_choices(ps: Seq<(u64, Seq<char>)>, ch: Seq<PeerAddr>)
    requires
        ps.len() == ch.len(),
    ensures
        forall|i: int, j: int| 0 <= i < j < group_pieces(ps, ch).len()
            ==> #[trigger] group_pieces(ps, ch)[i].0 != #[trigger] group_pieces(ps, ch)[j].0,
        forall|i: int| 0 <= i < ps.len() ==> asked_of(group_pieces(ps, ch), #[trigger] ch[i], ps[i]),
        forall|j: int, m: int| 0 <= j < group_pieces(ps, ch).len() && 0 <= m < group_pieces(ps, ch)[j].1.len()
            ==> exists|i: int| 0 <= i < ps.len() && #[trigger] ps[i] == #[trigger] group_pieces(ps, ch)[j].1[m]
                && ch[i] == group_pieces(ps, ch)[j].0,
    decreases ps.len(),
{
    let g = group_pieces(ps, ch);
    if ps.len() > 0 {
        let pp = ps.drop_last();
        let cp = ch.drop_last();
        plan_matches_choices(pp, cp);
        let h = group_pieces(pp, cp);
        let a = ch.last();
        let x = ps.last();
        let n = ps.len() - 1;
        lemma_find_peer(h, a);
        let k = find_peer(h, a);
        assert forall|i: int, j: int| 0 <= i < j < g.len() implies #[trigger] g[i].0 != #[trigger] g[j].0 by {
            if j < h.len() {
                assert(h[i].0 != h[j].0);
            }
        }
        assert forall|i: int| 0 <= i < ps.len() implies asked_of(g, #[trigger] ch[i], ps[i]) by {
            if i == n {
                if k >= 0 {
                    assert(g[k].1 == h[k].1.push(x));
                    assert(g[k].1[g[k].1.len() - 1] == x);
                    assert(g[k].0 == a);
                } else {
                    assert(g[h.len() as int].1 == seq![x]);
                    assert(g[h.len() as int].1[0] == x);
                    assert(g[h.len() as int].0 == a);
                }
            } else {
                assert(pp[i] == ps[i] && cp[i] == ch[i]);
                assert(asked_of(h, cp[i], pp[i]));
                let j = choose|j: int| #![trigger h[j]] 0 <= j < h.len() && h[j].0 == cp[i] && h[j].1.contains(pp[i]);
                let m = h[j].1.index_of(pp[i]);
                if j == k {
                    assert(g[j].1 == h[j].1.push(x));
                    assert(g[j].1[m] == ps[i]);
                } else {
                    assert(g[j] == h[j]);
                }
            }
        }
        assert forall|j: int, m: int| 0 <= j < g.len() && 0 <= m < g[j].1.len()
            implies exists|i: int| 0 <= i < ps.len() && #[trigger] ps[i] == #[trigger] g[j].1[m] && ch[i] == g[j].0 by {
            if (k >= 0 && j == k && m == h[k].1.len()) || (k < 0 && j == h.len()) {
                assert(ps[n] == g[j].1[m]);
            } else {
                assert(g[j].1[m] == h[j].1[m]);
                let i = choose|i: int| 0 <= i < pp.len() && #[trigger] pp[i] == #[trigger] h[j].1[m] && cp[i] == h[j].0;
                assert(ps[i] == pp[i]);
            }
        }
    }
}


/// Picks one of `peers` at random with `rand`'s `SliceRandom::choose` and the thread's random
/// number generator. The crate documents `None` exactly for an empty slice; otherwise the
/// result is one of the elements. Which one is left open.
#[verifier::external_body]
pub(crate) fn choose_peer(peers: &Vec<PeerAddr>) -> (r: Option<PeerAddr>)
    ensures
        r is None <==> peers@.len() == 0,
        r matches Some(a) ==> peers@.contains(a),
{
    peers.as_slice().choose(&mut rand::thread_rng()).copied()
}

/// True when `ch` picks, for each piece, one of the peers that hold it.
pub open spec fn valid_choice(hv: Seq<((u64, Seq<char>), Seq<PeerAddr>)>, ch: Seq<PeerAddr>) -> bool {
    &&& ch.len() == hv.len()
    &&& forall|i: int| 0 <= i < hv.len() ==> hv[i].1.contains(#[trigger] ch[i])
}

/// True when every piece has at least one holder.
pub open spec fn all_held(hv: Seq<((u64, Seq<char>), Seq<PeerAddr>)>) -> bool {
    forall|i: int| 0 <= i < hv.len() ==> (#[trigger] hv[i]).1.len() > 0
}

/// Picks at random, for each piece, one of the peers that hold it.
pub fn choose_holders(holders: &Vec<PieceHolders>) -> (r: Vec<PeerAddr>)
    requires
        all_held(holders_view(holders@)),
    ensures
        valid_choice(holders_view(holders@), r@),
{
    let ghost hv = holders_view(holders@);
    let mut chosen: Vec<PeerAddr> = Vec::new();
    let mut i: usize = 0;
    while i < holders.len()
        invariant
            i <= holders@.len(),
            hv == holders_view(holders@),
            all_held(hv),
            chosen@.len() == i,
            forall|j: int| 0 <= j < i ==> hv[j].1.contains(#[trigger] chosen@[j]),
        decreases holders@.len() - i,
    {
        assert(hv[i as int].1.len() > 0);
        let a = choose_peer(&holders[i].peers).unwrap();
        chosen.push(a);
        i = i + 1;
    }
    chosen
}

} // verus!
