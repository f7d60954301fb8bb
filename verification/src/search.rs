//! Answering a search: the descriptions of the offered files whose names hold the query.
use vstd::prelude::*;
use crate::text::{chars_of, dec_chars, push_decimal};

verus! {

/// True when `q` occurs in `s`.
pub open spec fn text_contains(s: Seq<char>, q: Seq<char>) -> bool {
    exists|i: int| 0 <= i && i + q.len() <= s.len() && #[trigger] s.subrange(i, i + q.len()) == q
}

/// Whether `q` occurs in `s`.
pub fn contains_text(s: &str, q: &str) -> (r: bool)
    ensures
        r == text_contains(s@, q@),
{
    let sv = chars_of(s);
    let qv = chars_of(q);
    let m = qv.len();
    if m > sv.len() {
        return false;
    }
    let mut i: usize = 0;
    while i <= sv.len() - m
        invariant
            sv@ == s@,
            qv@ == q@,
            m == qv@.len(),
            m <= sv@.len(),
            i <= sv@.len() - m + 1,
            forall|k: int| 0 <= k < i ==> #[trigger] sv@.subrange(k, k + m) != qv@,
        decreases sv@.len() - m + 1 - i,
    {
        let mut j: usize = 0;
        let mut same = true;
        while j < m
            invariant
                i + m <= sv@.len(),
                m == qv@.len(),
                j <= m,
                sv@.len() == sv.len(),
                same <==> forall|t: int| 0 <= t < j ==> sv@[i + t] == qv@[t],
            decreases m - j,
        {
            if sv[i + j] != qv[j] {
                same = false;
            }
            j = j + 1;
        }
        if same {
            assert(sv@.subrange(i as int, i + m) =~= qv@);
            return true;
        }
        proof {
            let t = choose|t: int| 0 <= t < m && sv@[i + t] != qv@[t];
            assert(sv@.subrange(i as int, i + m)[t] != qv@[t]);
        }
        i = i + 1;
    }
    proof {
        assert forall|k: int| 0 <= k && k + q@.len() <= s@.len() implies #[trigger] s@.subrange(k, k + q@.len()) != q@ by {
            assert(k < i);
        }
    }
    false
}

/// The stored files as plain values: each entry's name and its description.
pub open spec fn entries_view(v: Seq<(String, String)>) -> Seq<(Seq<char>, Seq<char>)> {
    v.map_values(|e: (String, String)| (e.0@, e.1@))
}

/// The descriptions of the entries whose names hold the query `q`, in order.
pub open spec fn matching_descriptions(entries: Seq<(Seq<char>, Seq<char>)>, q: Seq<char>) -> Seq<Seq<char>>
    decreases entries.len(),
{
    if entries.len() == 0 {
        Seq::empty()
    } else {
        let m = matching_descriptions(entries.drop_last(), q);
        if text_contains(entries.last().0, q) {
            m.push(entries.last().1)
        } else {
            m
        }
    }
}

/// Texts one after the other.
pub open spec fn concat_texts(ds: Seq<Seq<char>>) -> Seq<char>
    decreases ds.len(),
{
    if ds.len() == 0 {
        Seq::empty()
    } else {
        concat_texts(ds.drop_last()) + ds.last()
    }
}

/// The answer to a search: how many files it offers, then their descriptions.
pub open spec fn hash_answer_text(ds: Seq<Seq<char>>) -> Seq<char> {
    "type:hash\nno_of_files:"@ + dec_chars(ds.len()) + "\n"@ + concat_texts(ds)
}

/// Builds the answer to a search for `query` from the stored files `entries` (each a file's
/// entry name and its description): the descriptions of the entries whose names hold the
/// query, after their number. `None` when no name holds it, and nothing is sent.
pub fn search_answer(query: &str, entries: &Vec<(String, String)>) -> (r: Option<String>)
    ensures
        r is None <==> matching_descriptions(entries_view(entries@), query@).len() == 0,
        r matches Some(t) ==> t@ == hash_answer_text(matching_descriptions(entries_view(entries@), query@)),
{
    let ghost ev = entries_view(entries@);
    let mut body = String::new();
    let mut count: usize = 0;
    let mut i: usize = 0;
    while i < entries.len()
        invariant
            i <= entries@.len(),
            ev == entries_view(entries@),
            count == matching_descriptions(ev.take(i as int), query@).len(),
            count <= i,
            body@ == concat_texts(matching_descriptions(ev.take(i as int), query@)),
        decreases entries@.len() - i,
    {
        let ghost before = matching_descriptions(ev.take(i as int), query@);
        assert(ev.take(i + 1).drop_last() =~= ev.take(i as int));
        assert(ev.take(i + 1).last() == (entries@[i as int].0@, entries@[i as int].1@));
        if contains_text(entries[i].0.as_str(), query) {
            body.append(entries[i].1.as_str());
            count = count + 1;
            assert(matching_descriptions(ev.take(i + 1), query@) == before.push(entries@[i as int].1@));
            assert(before.push(entries@[i as int].1@).drop_last() =~= before);
        }
        i = i + 1;
    }
    assert(ev.take(entries@.len() as int) =~= ev);
    if count == 0 {
        return None;
    }
    let mut out = String::new();
    out.append("type:hash\nno_of_files:");
    push_decimal(&mut out, count as u64);
    out.append("\n");
    out.append(body.as_str());
    Some(out)
}

} // verus!
