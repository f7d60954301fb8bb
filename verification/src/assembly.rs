//! Putting a downloaded file together from its pieces.
use vstd::prelude::*;

verus! {

/// How many bytes of piece `piece_no` belong to the file: all `piece_length` bytes, except
/// for the last piece, which is cut so that the file has `file_size` bytes in all.
pub open spec fn bytes_to_keep(piece_no: int, total_pieces: int, piece_length: int, file_size: int) -> int {
    if piece_no == total_pieces - 1 {
        piece_length - (total_pieces * piece_length - file_size)
    } else {
        piece_length
    }
}

/// True when the size of the last piece can be worked out without overflow: there is a
/// piece, all pieces together fit a `usize` and hold at least the file, and the padding is
/// at most one piece.
pub open spec fn layout_ok(total_pieces: int, piece_length: int, file_size: int) -> bool {
    &&& total_pieces >= 1
    &&& total_pieces * piece_length <= usize::MAX
    &&& file_size <= total_pieces * piece_length
    &&& total_pieces * piece_length - file_size <= piece_length
}

/// Whether the size of the last piece can be worked out without overflow.
pub fn layout_valid(total_pieces: usize, piece_length: usize, file_size: usize) -> (r: bool)
    ensures
        r == layout_ok(total_pieces as int, piece_length as int, file_size as int),
{
    if total_pieces < 1 {
        return false;
    }
    let total = total_pieces as u128;
    let len = piece_length as u128;
    assert(total * len <= u128::MAX) by (nonlinear_arith)
        requires
            total <= 0xffff_ffff_ffff_ffffu128,
            len <= 0xffff_ffff_ffff_ffffu128;
    let product = total * len;
    product <= usize::MAX as u128 && (file_size as u128) <= product && product - (file_size as u128) <= len
}

/// How many bytes of piece `piece_no` to write to the file.
pub fn piece_bytes_to_write(piece_no: usize, total_pieces: usize, piece_length: usize, file_size: usize) -> (r: usize)
    requires
        total_pieces >= 1,
        piece_no == total_pieces - 1 ==> layout_ok(total_pieces as int, piece_length as int, file_size as int),
    ensures
        r as int == bytes_to_keep(piece_no as int, total_pieces as int, piece_length as int, file_size as int),
        r <= piece_length,
        piece_no != total_pieces - 1 ==> r == piece_length,
        piece_no == total_pieces - 1 ==> r == file_size - (total_pieces - 1) * piece_length,
{
    proof {
        kept_bytes_of_a_piece(piece_no as int, total_pieces as int, piece_length as int, file_size as int);
    }
    if piece_no == total_pieces - 1 {
        let assumed_size = total_pieces * piece_length;
        let error = assumed_size - file_size;
        piece_length - error
    } else {
        piece_length
    }
}

/// The buffer after piece `i` has been read into it: the bytes read for that piece, followed
/// by what the buffer held before past them (zeros before the first piece).
pub open spec fn buffer_after(reads: Seq<Seq<u8>>, len: nat, i: nat) -> Seq<u8>
    decreases i,
{
    let prev = if i == 0 {
        Seq::new(len, |k: int| 0u8)
    } else {
        buffer_after(reads, len, (i - 1) as nat)
    };
    reads[i as int] + prev.skip(reads[i as int].len() as int)
}

/// The file put together from the first `upto` pieces: for each piece, the kept bytes of the
/// buffer after reading it.
pub open spec fn assembled(reads: Seq<Seq<u8>>, len: nat, file_size: nat, upto: nat) -> Seq<u8>
    decreases upto,
{
    if upto == 0 {
        Seq::empty()
    } else {
        let i = (upto - 1) as nat;
        assembled(reads, len, file_size, i)
            + buffer_after(reads, len, i).take(bytes_to_keep(i as int, reads.len() as int, len as int, file_size as int))
    }
}

/// True when every read fits the buffer.
pub open spec fn reads_fit(reads: Seq<Seq<u8>>, len: nat) -> bool {
    forall|i: int| 0 <= i < reads.len() ==> (#[trigger] reads[i]).len() <= len
}

proof fn lemma_buffer_len(reads: Seq<Seq<u8>>, len: nat, i: nat)
    requires
        reads_fit(reads, len),
        i < reads.len(),
    ensures
        buffer_after(reads, len, i).len() == len,
    decreases i,
{
    if i > 0 {
        lemma_buffer_len(reads, len, (i - 1) as nat);
    }
}

/// Puts a file of `file_size` bytes together from its pieces, read one after the other into
/// one buffer of `piece_length` bytes: `reads[i]` holds the bytes that reading piece `i`
/// gave. Every piece is written whole except the last, which is cut to the file's size.
pub fn assemble_file(reads: &Vec<Vec<u8>>, piece_length: usize, file_size: usize) -> (r: Vec<u8>)
    requires
        reads_fit(reads.deep_view(), piece_length as nat),
        reads@.len() >= 1 ==> layout_ok(reads@.len() as int, piece_length as int, file_size as int),
    ensures
        r@ == assembled(reads.deep_view(), piece_length as nat, file_size as nat, reads@.len() as nat),
{
    let ghost rv = reads.deep_view();
    let total = reads.len();
    let mut buffer: Vec<u8> = Vec::new();
    let mut k: usize = 0;
    while k < piece_length
        invariant
            k <= piece_length,
            buffer@ =~= Seq::new(k as nat, |m: int| 0u8),
        decreases piece_length - k,
    {
        buffer.push(0u8);
        k = k + 1;
    }
    let mut out: Vec<u8> = Vec::new();
    let mut i: usize = 0;
    while i < total
        invariant
            i <= total,
            total == reads@.len(),
            rv == reads.deep_view(),
            reads_fit(rv, piece_length as nat),
            total >= 1 ==> layout_ok(total as int, piece_length as int, file_size as int),
            buffer@.len() == piece_length,
            i == 0 ==> buffer@ == Seq::new(piece_length as nat, |m: int| 0u8),
            i > 0 ==> buffer@ == buffer_after(rv, piece_length as nat, (i - 1) as nat),
            out@ == assembled(rv, piece_length as nat, file_size as nat, i as nat),
        decreases total - i,
    {
        let piece = &reads[i];
        assert(rv[i as int] == piece@);
        assert(piece@.len() <= piece_length);
        let ghost prev = buffer@;
        let mut k: usize = 0;
        while k < piece.len()
            invariant
                k <= piece@.len(),
                piece@.len() <= piece_length,
                buffer@.len() == piece_length,
                buffer@ == piece@.take(k as int) + prev.skip(k as int),
                prev.len() == piece_length,
            decreases piece@.len() - k,
        {
            buffer.set(k, piece[k]);
            assert(buffer@ =~= piece@.take(k + 1) + prev.skip(k + 1));
            k = k + 1;
        }
        proof {
            assert(piece@.take(piece@.len() as int) =~= piece@);
            assert(buffer@ == buffer_after(rv, piece_length as nat, i as nat));
        }
        let n = piece_bytes_to_write(i, total, piece_length, file_size);
        let ghost before = out@;
        let mut m: usize = 0;
        while m < n
            invariant
                m <= n,
                n <= piece_length,
                buffer@.len() == piece_length,
                out@ == before + buffer@.take(m as int),
            decreases n - m,
        {
            out.push(buffer[m]);
            assert(buffer@.take(m + 1) =~= buffer@.take(m as int).push(buffer@[m as int]));
            m = m + 1;
        }
        i = i + 1;
    }
    out
}


proof fn lemma_assembled_len(reads: Seq<Seq<u8>>, len: nat, file_size: nat, upto: nat)
    requires
        reads_fit(reads, len),
        upto < reads.len(),
    ensures
        assembled(reads, len, file_size, upto).len() == upto * len,
    decreases upto,
{
    if upto > 0 {
        lemma_assembled_len(reads, len, file_size, (upto - 1) as nat);
        lemma_buffer_len(reads, len, (upto - 1) as nat);
        let i = (upto - 1) as nat;
        assert(bytes_to_keep(i as int, reads.len() as int, len as int, file_size as int) == len);
        assert(buffer_after(reads, len, i).take(len as int).len() == len);
        assert(assembled(reads, len, file_size, upto)
            == assembled(reads, len, file_size, i) + buffer_after(reads, len, i).take(len as int));
        assert(i * len + len == upto * len) by (nonlinear_arith)
            requires i + 1 == upto;
        assert(assembled(reads, len, file_size, i).len() == i * len);
        assert(assembled(reads, len, file_size, upto).len() == i * len + len);
    } else {
        assert(assembled(reads, len, file_size, upto).len() == 0);
        assert(upto * len == 0);
    }
}

/// A file put together from all its pieces has exactly the file's size, whatever the bytes
/// read for each piece.
pub proof fn assembled_file_has_its_size(reads: Seq<Seq<u8>>, len: nat, file_size: nat)
    requires
        reads_fit(reads, len),
        reads.len() >= 1,
        layout_ok(reads.len() as int, len as int, file_size as int),
    ensures
        assembled(reads, len, file_size, reads.len() as nat).len() == file_size,
{
    let t = reads.len();
    lemma_assembled_len(reads, len, file_size, (t - 1) as nat);
    lemma_buffer_len(reads, len, (t - 1) as nat);
    let keep = bytes_to_keep(t - 1, t as int, len as int, file_size as int);
    assert(keep == len - (t * len - file_size));
    assert((t - 1) * len + len == t * len) by (nonlinear_arith);
}

/// How many bytes of a piece are kept, in terms of the layout alone: every piece but the last
/// keeps all `piece_length` bytes; the last keeps what is left of the file after the others,
/// `file_size - (total_pieces - 1) * piece_length`.
pub proof fn kept_bytes_of_a_piece(piece_no: int, total_pieces: int, piece_length: int, file_size: int)
    ensures
        piece_no != total_pieces - 1 ==> bytes_to_keep(piece_no, total_pieces, piece_length, file_size) == piece_length,
        piece_no == total_pieces - 1 ==> bytes_to_keep(piece_no, total_pieces, piece_length, file_size)
            == file_size - (total_pieces - 1) * piece_length,
{
    assert(total_pieces * piece_length - piece_length == (total_pieces - 1) * piece_length) by (nonlinear_arith);
}

/// What the buffer holds after reading piece `i` starts with the bytes read for it.
proof fn lemma_buffer_starts_with_read(reads: Seq<Seq<u8>>, len: nat, i: nat, k: int)
    requires
        i < reads.len(),
        0 <= k < reads[i as int].len(),
    ensures
        buffer_after(reads, len, i)[k] == reads[i as int][k],
{
}

/// A file put together from fewer pieces is the start of the file put together from more.
proof fn lemma_assembled_prefix(reads: Seq<Seq<u8>>, len: nat, file_size: nat, m: nat, upto: nat, j: int)
    requires
        m <= upto,
        0 <= j < assembled(reads, len, file_size, m).len(),
    ensures
        assembled(reads, len, file_size, upto)[j] == assembled(reads, len, file_size, m)[j],
        j < assembled(reads, len, file_size, upto).len(),
    decreases upto - m,
{
    if m < upto {
        lemma_assembled_prefix(reads, len, file_size, m, (upto - 1) as nat, j);
    }
}

/// Each piece's read bytes stand in the put-together file at that piece's offset: for piece
/// `i` and each byte `k` that was read for it and lies within the file's size, byte
/// `i * piece_length + k` of the file is byte `k` of what was read for piece `i`. The file has
/// exactly `file_size` bytes.
pub proof fn assembled_file_holds_each_read(reads: Seq<Seq<u8>>, len: nat, file_size: nat, i: int, k: int)
    requires
        reads_fit(reads, len),
        reads.len() >= 1,
        layout_ok(reads.len() as int, len as int, file_size as int),
        0 <= i < reads.len(),
        0 <= k < reads[i].len(),
        i * len + k < file_size,
    ensures
        assembled(reads, len, file_size, reads.len() as nat).len() == file_size,
        assembled(reads, len, file_size, reads.len() as nat)[i * len + k] == reads[i][k],
{
    let t = reads.len();
    assembled_file_has_its_size(reads, len, file_size);
    lemma_assembled_len(reads, len, file_size, i as nat);
    lemma_buffer_len(reads, len, i as nat);
    lemma_buffer_starts_with_read(reads, len, i as nat, k);
    let keep = bytes_to_keep(i, t as int, len as int, file_size as int);
    kept_bytes_of_a_piece(i, t as int, len as int, file_size as int);
    assert(reads[i].len() <= len);
    if i == t - 1 {
        assert(k < keep);
    } else {
        assert(keep == len);
    }
    let a = assembled(reads, len, file_size, i as nat);
    let b = buffer_after(reads, len, i as nat).take(keep);
    assert(assembled(reads, len, file_size, (i + 1) as nat) == a + b);
    assert((a + b)[i * len + k] == b[k]);
    lemma_assembled_prefix(reads, len, file_size, (i + 1) as nat, t as nat, i * len + k);
}

/// Byte `i * len + k` of the put-together file is byte `k` of the buffer after reading piece
/// `i`, for each byte of the piece that the file keeps.
proof fn lemma_assembled_byte(reads: Seq<Seq<u8>>, len: nat, file_size: nat, i: int, k: int)
    requires
        reads_fit(reads, len),
        reads.len() >= 1,
        layout_ok(reads.len() as int, len as int, file_size as int),
        0 <= i < reads.len(),
        0 <= k < len,
        i * len + k < file_size,
    ensures
        i * len + k < assembled(reads, len, file_size, reads.len() as nat).len(),
        assembled(reads, len, file_size, reads.len() as nat)[i * len + k] == buffer_after(reads, len, i as nat)[k],
{
    let t = reads.len();
    lemma_assembled_len(reads, len, file_size, i as nat);
    lemma_buffer_len(reads, len, i as nat);
    let keep = bytes_to_keep(i, t as int, len as int, file_size as int);
    kept_bytes_of_a_piece(i, t as int, len as int, file_size as int);
    assert(k < keep);
    let a = assembled(reads, len, file_size, i as nat);
    let b = buffer_after(reads, len, i as nat).take(keep);
    assert(assembled(reads, len, file_size, (i + 1) as nat) == a + b);
    assert((a + b)[i * len + k] == b[k]);
    lemma_assembled_prefix(reads, len, file_size, (i + 1) as nat, t as nat, i * len + k);
}

/// Byte `k` of the buffer after reading piece `i` is byte `k` of the latest piece up to `i`
/// whose read reached that far, or zero when none did.
proof fn lemma_buffer_byte(reads: Seq<Seq<u8>>, len: nat, i: int, k: int)
    requires
        reads_fit(reads, len),
        0 <= i < reads.len(),
        0 <= k < len,
    ensures
        (forall|j: int| 0 <= j <= i ==> (#[trigger] reads[j]).len() <= k) ==> buffer_after(reads, len, i as nat)[k] == 0,
        forall|j: int| 0 <= j <= i && k < reads[j].len()
            && (forall|m: int| j < m <= i ==> (#[trigger] reads[m]).len() <= k)
            ==> buffer_after(reads, len, i as nat)[k] == #[trigger] reads[j][k],
    decreases i,
{
    assert(reads[i].len() <= len);
    let prev = if i == 0 { Seq::new(len, |m: int| 0u8) } else { buffer_after(reads, len, (i - 1) as nat) };
    if i > 0 {
        lemma_buffer_len(reads, len, (i - 1) as nat);
        lemma_buffer_byte(reads, len, i - 1, k);
    }
    assert(prev.len() == len);
    let cur = buffer_after(reads, len, i as nat);
    assert(cur == reads[i] + prev.skip(reads[i].len() as int));
    if k >= reads[i].len() {
        assert(cur[k] == prev[k]);
        assert forall|j: int| 0 <= j <= i && k < reads[j].len()
            && (forall|m: int| j < m <= i ==> (#[trigger] reads[m]).len() <= k)
            implies cur[k] == #[trigger] reads[j][k] by {
            assert(j != i);
            assert(forall|m: int| j < m <= i - 1 ==> (#[trigger] reads[m]).len() <= k);
        }
        if forall|j: int| 0 <= j <= i ==> (#[trigger] reads[j]).len() <= k {
            if i > 0 {
                assert(forall|j: int| 0 <= j <= i - 1 ==> (#[trigger] reads[j]).len() <= k);
            }
        }
    } else {
        assert(cur[k] == reads[i][k]);
        assert forall|j: int| 0 <= j <= i && k < reads[j].len()
            && (forall|m: int| j < m <= i ==> (#[trigger] reads[m]).len() <= k)
            implies cur[k] == #[trigger] reads[j][k] by {
            if j < i {
                assert(reads[i].len() <= k);
            }
        }
    }
}

/// Every byte of the put-together file comes from the single buffer that each piece was read
/// into: byte `i * piece_length + k` is byte `k` of the latest piece up to `i` whose read
/// reached past `k` (piece `i` itself when its own read did), or zero when no read up to piece
/// `i` reached that far.
pub proof fn assembled_file_bytes_come_from_the_buffer(reads: Seq<Seq<u8>>, len: nat, file_size: nat, i: int, k: int)
    requires
        reads_fit(reads, len),
        reads.len() >= 1,
        layout_ok(reads.len() as int, len as int, file_size as int),
        0 <= i < reads.len(),
        0 <= k < len,
        i * len + k < file_size,
    ensures
        (forall|j: int| 0 <= j <= i ==> (#[trigger] reads[j]).len() <= k)
            ==> assembled(reads, len, file_size, reads.len() as nat)[i * len + k] == 0,
        forall|j: int| 0 <= j <= i && k < reads[j].len()
            && (forall|m: int| j < m <= i ==> (#[trigger] reads[m]).len() <= k)
            ==> assembled(reads, len, file_size, reads.len() as nat)[i * len + k] == #[trigger] reads[j][k],
{
    lemma_assembled_byte(reads, len, file_size, i, k);
    lemma_buffer_byte(reads, len, i, k);
}

} // verus!
