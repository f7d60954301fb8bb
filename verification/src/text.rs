//! Decimal numbers and byte-offset slicing on text, as the wire format uses them.
use vstd::prelude::*;
use vstd::utf8::*;
use vstd::string::*;
use vstd::string::StrSliceExecFns;

verus! {

broadcast use vstd::utf8::encode_utf8_valid_utf8, vstd::utf8::encode_utf8_decode_utf8;

/// The character of the decimal digit `d`.
pub open spec fn digit_char(d: int) -> char {
    (d + 48) as char
}

/// The decimal notation of `n`, without sign or leading zeros, as `Display` writes it.
pub open spec fn dec_chars(n: nat) -> Seq<char>
    decreases n,
{
    if n < 10 {
        seq![digit_char(n as int)]
    } else {
        dec_chars(n / 10).push(digit_char((n % 10) as int))
    }
}

fn digit_str(d: u64) -> (s: &'static str)
    requires
        d < 10,
    ensures
        s@ == seq![digit_char(d as int)],
{
    if d == 0 {
        proof { reveal_strlit("0"); }
        "0"
    } else if d == 1 {
        proof { reveal_strlit("1"); }
        "1"
    } else if d == 2 {
        proof { reveal_strlit("2"); }
        "2"
    } else if d == 3 {
        proof { reveal_strlit("3"); }
        "3"
    } else if d == 4 {
        proof { reveal_strlit("4"); }
        "4"
    } else if d == 5 {
        proof { reveal_strlit("5"); }
        "5"
    } else if d == 6 {
        proof { reveal_strlit("6"); }
        "6"
    } else if d == 7 {
        proof { reveal_strlit("7"); }
        "7"
    } else if d == 8 {
        proof { reveal_strlit("8"); }
        "8"
    } else {
        proof { reveal_strlit("9"); }
        "9"
    }
}

/// Appends the decimal notation of `n` to `out`.
pub fn push_decimal(out: &mut String, n: u64)
    ensures
        final(out)@ == old(out)@ + dec_chars(n as nat),
    decreases n,
{
    if n >= 10 {
        push_decimal(out, n / 10);
    }
    out.append(digit_str(n % 10));
}

/// The decimal notation of `n`.
pub fn decimal(n: u64) -> (s: String)
    ensures
        s@ == dec_chars(n as nat),
{
    let mut s = String::new();
    push_decimal(&mut s, n);
    s
}


/// True when the byte is an ASCII decimal digit.
pub open spec fn is_digit_byte(b: u8) -> bool {
    48 <= b <= 57
}

/// True when every byte is an ASCII decimal digit.
pub open spec fn all_digits(b: Seq<u8>) -> bool {
    forall|i: int| 0 <= i < b.len() ==> is_digit_byte(#[trigger] b[i])
}

/// The value of a run of decimal digits, most significant first.
pub open spec fn digits_value(b: Seq<u8>) -> nat
    decreases b.len(),
{
    if b.len() == 0 {
        0
    } else {
        digits_value(b.drop_last()) * 10 + (b.last() - 48) as nat
    }
}

/// The digits of an unsigned number's text: a leading `+` is dropped.
pub open spec fn unsigned_body(b: Seq<u8>) -> Seq<u8> {
    if b.len() > 0 && b[0] == 43 {
        b.drop_first()
    } else {
        b
    }
}

/// What `FromStr` for an unsigned integer type with largest value `max` gives for the
/// bytes `b`: an optional `+`, then at least one decimal digit, and a value up to `max`.
pub open spec fn unsigned_of(b: Seq<u8>, max: nat) -> Option<nat> {
    let d = unsigned_body(b);
    if d.len() > 0 && all_digits(d) && digits_value(d) <= max {
        Some(digits_value(d))
    } else {
        None
    }
}

/// What `str::parse::<u64>` gives for the text `s`.
pub open spec fn u64_of(s: Seq<char>) -> Option<u64> {
    match unsigned_of(encode_utf8(s), u64::MAX as nat) {
        Some(v) => Some(v as u64),
        None => None,
    }
}

/// What `str::parse::<usize>` gives for the text `s`.
pub open spec fn usize_of(s: Seq<char>) -> Option<usize> {
    match unsigned_of(encode_utf8(s), usize::MAX as nat) {
        Some(v) => Some(v as usize),
        None => None,
    }
}

proof fn lemma_digits_value_prefix(b: Seq<u8>, i: int)
    requires
        0 <= i < b.len(),
    ensures
        digits_value(b.take(i + 1)) == digits_value(b.take(i)) * 10 + (b[i] - 48) as nat,
{
    assert(b.take(i + 1).drop_last() =~= b.take(i));
}

proof fn lemma_digits_value_monotone(b: Seq<u8>, i: int)
    requires
        0 <= i <= b.len(),
        all_digits(b),
    ensures
        digits_value(b.take(i)) <= digits_value(b),
    decreases b.len() - i,
{
    if i < b.len() {
        lemma_digits_value_prefix(b, i);
        assert(is_digit_byte(b[i]));
        lemma_digits_value_monotone(b, i + 1);
    } else {
        assert(b.take(i) =~= b);
    }
}

/// Parses an unsigned decimal number whose largest value is `max`, as `FromStr` does.
fn parse_unsigned(b: &[u8], max: u64) -> (r: Option<u64>)
    ensures
        r == (match unsigned_of(b@, max as nat) {
            Some(v) => Some(v as u64),
            None => None::<u64>,
        }),
{
    let len = b.len();
    let start: usize = if len > 0 && b[0] == 43 { 1 } else { 0 };
    let ghost d = unsigned_body(b@);
    assert(d =~= b@.skip(start as int));
    if start == len {
        return None;
    }
    let mut value: u64 = 0;
    let mut i: usize = start;
    while i < len
        invariant
            start <= i <= len,
            len == b@.len(),
            d =~= b@.skip(start as int),
            d == unsigned_body(b@),
            d.len() > 0,
            all_digits(d.take(i - start)),
            value as nat == digits_value(d.take(i - start)),
            value <= max,
        decreases len - i,
    {
        let c = b[i];
        if c < 48 || c > 57 {
            assert(d[i - start] == c);
            assert(!is_digit_byte(d[i - start]));
            assert(!all_digits(d));
            return None;
        }
        let digit = (c - 48) as u64;
        proof {
            lemma_digits_value_prefix(d, i - start);
            assert(d.take(i - start + 1) =~= d.take(i - start).push(c));
        }
        let next: u128 = value as u128 * 10 + digit as u128;
        if next > max as u128 {
            proof {
                if all_digits(d) {
                    lemma_digits_value_monotone(d, i - start + 1);
                }
            }
            return None;
        }
        value = next as u64;
        i = i + 1;
    }
    assert(d.take(len - start) =~= d);
    Some(value)
}


/// Parses `s` as `str::parse::<u64>` does.
pub fn parse_u64(s: &str) -> (r: Option<u64>)
    ensures
        r == u64_of(s@),
{
    parse_unsigned(s.as_bytes(), u64::MAX)
}

/// Parses `s` as `str::parse::<usize>` does.
pub fn parse_usize(s: &str) -> (r: Option<usize>)
    ensures
        r == usize_of(s@),
{
    match parse_unsigned(s.as_bytes(), usize::MAX as u64) {
        Some(v) => Some(v as usize),
        None => None,
    }
}

/// The bytes of the decimal notation of `n`.
pub open spec fn dec_bytes(n: nat) -> Seq<u8>
    decreases n,
{
    if n < 10 {
        seq![(n + 48) as u8]
    } else {
        dec_bytes(n / 10).push((n % 10 + 48) as u8)
    }
}

proof fn lemma_dec_bytes(n: nat)
    ensures
        encode_utf8(dec_chars(n)) == dec_bytes(n),
        dec_bytes(n).len() > 0,
        all_digits(dec_bytes(n)),
        digits_value(dec_bytes(n)) == n,
        is_ascii_chars(dec_chars(n)),
        dec_chars(n).len() == dec_bytes(n).len(),
        forall|i: int| 0 <= i < dec_chars(n).len() ==> #[trigger] dec_chars(n)[i] as u8 == dec_bytes(n)[i],
    decreases n,
{
    let d = (n % 10) as int;
    assert(0 <= d < 10);
    let c = digit_char(d);
    assert(c as u32 == d + 48);
    assert(c as u8 == (d + 48) as u8);
    if n >= 10 {
        lemma_dec_bytes(n / 10);
        assert(dec_bytes(n).drop_last() =~= dec_bytes(n / 10));
        assert(n == (n / 10) * 10 + n % 10);
        assert(dec_bytes(n).last() == (n % 10 + 48) as u8);
        assert(digits_value(dec_bytes(n)) == digits_value(dec_bytes(n / 10)) * 10 + n % 10);
    } else {
        assert(dec_bytes(n).drop_last() =~= Seq::<u8>::empty());
        assert(digits_value(dec_bytes(n)) == digits_value(Seq::<u8>::empty()) * 10 + n);
    }
    assert(is_ascii_chars(dec_chars(n)));
    vstd::utf8::is_ascii_chars_encode_utf8(dec_chars(n));
    assert(encode_utf8(dec_chars(n)) =~= dec_bytes(n));
}

/// Reading back the decimal notation of a number gives the number: `parse_u64` undoes
/// `decimal`.
pub proof fn decimal_parses_back(n: u64)
    ensures
        u64_of(dec_chars(n as nat)) == Some(n),
        usize_of(dec_chars(n as nat)) == (if n <= usize::MAX { Some(n as usize) } else { None }),
{
    lemma_dec_bytes(n as nat);
    let b = dec_bytes(n as nat);
    assert(is_digit_byte(b[0]));
    assert(unsigned_body(b) == b);
}

/// The characters that follow the first `n` bytes of the UTF-8 encoding of `s`.
pub open spec fn after_bytes(s: Seq<char>, n: int) -> Seq<char> {
    let b = encode_utf8(s);
    decode_utf8(b.subrange(n, b.len() as int))
}

/// True when byte offset `n` of the UTF-8 encoding of `s` starts a character or ends the text,
/// so that `&s[n..]` does not panic.
pub open spec fn splits_at(s: Seq<char>, n: int) -> bool {
    is_char_boundary(encode_utf8(s), n)
}

/// `&s[n..]`: the text after the first `n` bytes.
pub fn skip_bytes(s: &str, n: usize) -> (r: &str)
    requires
        splits_at(s@, n as int),
    ensures
        r@ == after_bytes(s@, n as int),
{
    let (_, r) = s.split_at(n);
    proof {
        assert(r@ == decode_utf8(encode_utf8(r@)));
    }
    r
}

/// `&s[n..]` where it is defined, `None` where it would panic.
pub fn try_skip_bytes(s: &str, n: usize) -> (r: Option<&str>)
    ensures
        r is Some <==> splits_at(s@, n as int),
        r matches Some(t) ==> t@ == after_bytes(s@, n as int),
{
    if s.is_char_boundary(n) {
        Some(skip_bytes(s, n))
    } else {
        None
    }
}


/// Whether two texts hold the same characters.
pub fn same_text(a: &str, b: &str) -> (r: bool)
    ensures
        r == (a@ == b@),
{
    let x = a.as_bytes();
    let y = b.as_bytes();
    proof {
        assert(decode_utf8(encode_utf8(a@)) == a@);
        assert(decode_utf8(encode_utf8(b@)) == b@);
    }
    if x.len() != y.len() {
        return false;
    }
    let mut i: usize = 0;
    while i < x.len()
        invariant
            i <= x@.len(),
            x@.len() == y@.len(),
            x@ == encode_utf8(a@),
            y@ == encode_utf8(b@),
            forall|j: int| 0 <= j < i ==> x@[j] == y@[j],
        decreases x@.len() - i,
    {
        if x[i] != y[i] {
            return false;
        }
        i = i + 1;
    }
    assert(x@ =~= y@);
    true
}


/// The characters of `s`, in order.
pub fn chars_of(s: &str) -> (r: Vec<char>)
    ensures
        r@ == s@,
{
    let mut out: Vec<char> = Vec::new();
    for c in it: s.chars()
        invariant
            out@ == it.seq().take(it.index() as int),
    {
        out.push(c);
    }
    out
}


/// Where the line that starts at `i` ends: the first newline at or after `i`, or the end.
pub open spec fn line_end(s: Seq<char>, i: int) -> int
    decreases s.len() - i,
{
    if i >= s.len() {
        s.len() as int
    } else if s[i] == '\n' {
        i
    } else {
        line_end(s, i + 1)
    }
}

/// Where a line ends: at a newline or at the end, with no newline before.
pub proof fn lemma_line_end(s: Seq<char>, i: int)
    requires
        0 <= i <= s.len(),
    ensures
        i <= line_end(s, i) <= s.len(),
        line_end(s, i) < s.len() ==> s[line_end(s, i)] == '\n',
        forall|j: int| i <= j < line_end(s, i) ==> s[j] != '\n',
    decreases s.len() - i,
{
    if i < s.len() && s[i] != '\n' {
        lemma_line_end(s, i + 1);
    }
}

/// A line ended by a newline loses a carriage return just before that newline.
pub open spec fn strip_cr(l: Seq<char>) -> Seq<char> {
    if l.len() > 0 && l.last() == '\r' {
        l.drop_last()
    } else {
        l
    }
}

/// The lines of `s` from index `i` on, as `str::lines` gives them: split after each newline,
/// a newline and a carriage return just before it removed, no empty line after a final newline.
pub open spec fn lines_from(s: Seq<char>, i: int) -> Seq<Seq<char>>
    decreases s.len() - i,
{
    if i < 0 || i >= s.len() {
        Seq::empty()
    } else {
        let e = line_end(s, i);
        if e < s.len() {
            proof { lemma_line_end(s, i); }
            seq![strip_cr(s.subrange(i, e))] + lines_from(s, e + 1)
        } else {
            seq![s.subrange(i, s.len() as int)]
        }
    }
}

/// The lines of `s`, as `str::lines` gives them.
pub open spec fn lines_of(s: Seq<char>) -> Seq<Seq<char>> {
    lines_from(s, 0)
}

/// Splits `s` into lines as `str::lines` does.
pub fn split_lines(s: &str) -> (r: Vec<String>)
    ensures
        r.deep_view() == lines_of(s@),
{
    let cs = chars_of(s);
    let n = cs.len();
    let mut out: Vec<String> = Vec::new();
    let mut start: usize = 0;
    let mut i: usize = 0;
    while i < n
        invariant
            cs@ == s@,
            n == cs@.len(),
            start <= i <= n,
            forall|j: int| start <= j < i ==> cs@[j] != '\n',
            out.deep_view() + lines_from(s@, start as int) == lines_of(s@),
        decreases n - i,
    {
        if cs[i] == '\n' {
            proof {
                lemma_line_end(s@, start as int);
                assert(line_end(s@, start as int) == i) by {
                    if line_end(s@, start as int) < i {
                        assert(s@[line_end(s@, start as int)] == '\n');
                    }
                }
            }
            let stop = if i > start && cs[i - 1] == '\r' { i - 1 } else { i };
            let line = s.substring_char(start, stop).to_owned();
            proof {
                assert(line@ == strip_cr(s@.subrange(start as int, i as int)));
            }
            let ghost before = out.deep_view();
            out.push(line);
            assert(out.deep_view() =~= before.push(line@));
            assert(lines_from(s@, start as int) == seq![line@] + lines_from(s@, i + 1));
            assert(out.deep_view() + lines_from(s@, i + 1) =~= before + lines_from(s@, start as int));
            start = i + 1;
        }
        i = i + 1;
    }
    if start < n {
        proof {
            lemma_line_end(s@, start as int);
            assert(line_end(s@, start as int) == n) by {
                if line_end(s@, start as int) < n {
                    assert(s@[line_end(s@, start as int)] == '\n');
                }
            }
        }
        let line = s.substring_char(start, n).to_owned();
        let ghost before = out.deep_view();
        out.push(line);
        assert(out.deep_view() =~= before.push(line@));
        assert(out.deep_view() =~= before + lines_from(s@, start as int));
    } else {
        assert(out.deep_view() =~= out.deep_view() + lines_from(s@, start as int));
    }
    out
}


/// A copy of the lines from index `from` on.
pub fn lines_after(lines: &Vec<String>, from: usize) -> (r: Vec<String>)
    requires
        from <= lines@.len(),
    ensures
        r.deep_view() == lines.deep_view().skip(from as int),
{
    let ghost ls = lines.deep_view();
    let mut out: Vec<String> = Vec::new();
    let mut i: usize = from;
    while i < lines.len()
        invariant
            from <= i <= lines@.len(),
            ls == lines.deep_view(),
            out.deep_view() =~= ls.subrange(from as int, i as int),
        decreases lines@.len() - i,
    {
        assert(ls[i as int] == lines[i as int]@);
        let ghost before = out.deep_view();
        out.push(lines[i].clone());
        assert(out.deep_view() =~= before.push(lines[i as int]@));
        i = i + 1;
    }
    assert(ls.subrange(from as int, lines@.len() as int) =~= ls.skip(from as int));
    out
}


/// The encoding of two texts one after the other is the two encodings one after the other.
pub proof fn lemma_encode_concat(a: Seq<char>, b: Seq<char>)
    ensures
        encode_utf8(a + b) == encode_utf8(a) + encode_utf8(b),
    decreases a.len(),
{
    if a.len() > 0 {
        lemma_encode_concat(a.drop_first(), b);
        assert((a + b).drop_first() =~= a.drop_first() + b);
        assert((a + b)[0] == a[0]);
    } else {
        assert(a + b =~= b);
    }
}

/// Cutting a text after the bytes of a prefix `p` is possible and leaves the rest.
pub proof fn lemma_after_prefix(p: Seq<char>, s: Seq<char>)
    ensures
        splits_at(p + s, encode_utf8(p).len() as int),
        after_bytes(p + s, encode_utf8(p).len() as int) == s,
    decreases p.len(),
{
    lemma_encode_concat(p, s);
    let bytes = encode_utf8(p + s);
    let k = encode_utf8(p).len() as int;
    if p.len() > 0 {
        lemma_after_prefix(p.drop_first(), s);
        vstd::utf8::encode_utf8_first_scalar(p + s);
        vstd::utf8::encode_utf8_first_scalar(p);
        assert((p + s).drop_first() =~= p.drop_first() + s);
        assert((p + s)[0] == p[0]);
        lemma_encode_concat(p.drop_first(), s);
        let first = vstd::utf8::length_of_first_scalar(bytes);
        assert(encode_utf8(p + s) == vstd::utf8::encode_scalar((p + s)[0] as u32) + encode_utf8((p + s).drop_first()));
        assert(first == vstd::utf8::encode_scalar(p[0] as u32).len());
        assert(vstd::utf8::pop_first_scalar(bytes) =~= encode_utf8(p.drop_first() + s));
        assert(k - first == encode_utf8(p.drop_first()).len());
    }
    assert(bytes.subrange(k, bytes.len() as int) =~= encode_utf8(s));
}

/// Texts of ASCII characters are cut by bytes as they are by characters.
pub proof fn lemma_after_ascii(p: Seq<char>, s: Seq<char>)
    requires
        is_ascii_chars(p),
    ensures
        splits_at(p + s, p.len() as int),
        after_bytes(p + s, p.len() as int) == s,
{
    vstd::utf8::is_ascii_chars_encode_utf8(p);
    lemma_after_prefix(p, s);
}

/// The lines of a text are not changed by what comes before the place they start from.
proof fn lemma_line_end_shift(x: Seq<char>, y: Seq<char>, i: int)
    requires
        0 <= i <= y.len(),
    ensures
        line_end(x + y, x.len() + i) == x.len() + line_end(y, i),
    decreases y.len() - i,
{
    if i < y.len() {
        assert((x + y)[x.len() + i] == y[i]);
        if y[i] != '\n' {
            lemma_line_end_shift(x, y, i + 1);
        }
    }
}

proof fn lemma_lines_shift(x: Seq<char>, y: Seq<char>, i: int)
    requires
        0 <= i <= y.len(),
    ensures
        lines_from(x + y, x.len() + i) == lines_from(y, i),
    decreases y.len() - i,
{
    if i < y.len() {
        lemma_line_end_shift(x, y, i);
        lemma_line_end(y, i);
        let e = line_end(y, i);
        assert((x + y).subrange(x.len() + i, x.len() + e) =~= y.subrange(i, e));
        if e < y.len() {
            lemma_lines_shift(x, y, e + 1);
        } else {
            assert((x + y).subrange(x.len() + i, (x + y).len() as int) =~= y.subrange(i, y.len() as int));
        }
    }
}

/// The lines of `x` followed by `y`, when `x` is empty or ends with a newline, are the lines of
/// `x` followed by the lines of `y`.
pub proof fn lemma_lines_append(x: Seq<char>, y: Seq<char>)
    requires
        x.len() == 0 || x.last() == '\n',
    ensures
        lines_of(x + y) == lines_of(x) + lines_of(y),
{
    lemma_lines_append_from(x, y, 0);
}

proof fn lemma_lines_append_from(x: Seq<char>, y: Seq<char>, i: int)
    requires
        x.len() == 0 || x.last() == '\n',
        0 <= i <= x.len(),
    ensures
        lines_from(x + y, i) == lines_from(x, i) + lines_of(y),
    decreases x.len() - i,
{
    if i == x.len() {
        lemma_lines_shift(x, y, 0);
        assert(lines_from(x, i) =~= Seq::<Seq<char>>::empty());
        assert(lines_from(x + y, i) == lines_of(y));
    } else {
        lemma_line_end(x, i);
        let e = line_end(x, i);
        assert(e < x.len()) by {
            if e == x.len() {
                assert(x[x.len() - 1] == '\n');
            }
        }
        lemma_line_end(x + y, i);
        assert(line_end(x + y, i) == e) by {
            lemma_line_end_agree(x, y, i);
        }
        assert((x + y).subrange(i, e) =~= x.subrange(i, e));
        lemma_lines_append_from(x, y, e + 1);
        assert(lines_from(x + y, i) =~= lines_from(x, i) + lines_of(y));
    }
}

proof fn lemma_line_end_agree(x: Seq<char>, y: Seq<char>, i: int)
    requires
        0 <= i <= x.len(),
        line_end(x, i) < x.len(),
    ensures
        line_end(x + y, i) == line_end(x, i),
    decreases x.len() - i,
{
    assert((x + y)[i] == x[i]);
    if x[i] != '\n' {
        lemma_line_end_agree(x, y, i + 1);
    }
}

/// True when `l` holds no newline and does not end with a carriage return, so that it reads
/// back as one whole line.
pub open spec fn plain_line(l: Seq<char>) -> bool {
    &&& forall|j: int| 0 <= j < l.len() ==> l[j] != '\n'
    &&& (l.len() > 0 ==> l.last() != '\r')
}

/// A plain line followed by a newline reads back as that one line.
pub proof fn lemma_single_line(l: Seq<char>)
    requires
        plain_line(l),
    ensures
        lines_of(l + seq!['\n']) == seq![l],
{
    let s = l + seq!['\n'];
    lemma_line_end(s, 0);
    assert(line_end(s, 0) == l.len()) by {
        if line_end(s, 0) < l.len() {
            assert(s[line_end(s, 0)] == l[line_end(s, 0)]);
        }
        assert(s[l.len() as int] == '\n');
    }
    assert(s.subrange(0, l.len() as int) =~= l);
    assert(lines_from(s, l.len() + 1int) =~= Seq::<Seq<char>>::empty());
}

} // verus!
