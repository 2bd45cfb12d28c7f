//! Small text tasks handed to threads and callbacks: prefixing a text,
//! reversing a sentence, putting results back in order, and the answer of a
//! simulated fetch.
use vstd::prelude::*;
use vstd::multiset::Multiset;

verus! {

/// `text` with the prefix `Processed: `.
pub fn process_text(text: &str) -> (r: String)
    ensures
        r@ == "Processed: "@ + text@,
{
    let mut r = "Processed: ".to_owned();
    r.append(text);
    r
}

/// The chars of `s` in reverse order, followed by `tag`.
pub fn reversed_with_tag(s: &str, tag: &str) -> (r: String)
    ensures
        r@ == s@.reverse() + tag@,
{
    let n = s.unicode_len();
    let mut r = String::new();
    let mut i = n;
    while i > 0
        invariant
            n == s@.len(),
            i <= n,
            r@ == s@.reverse().take(n - i),
        decreases i,
    {
        let c = s.substring_char(i - 1, i);
        r.append(c);
        assert(r@ =~= s@.reverse().take(n - i + 1));
        i -= 1;
    }
    assert(r@ =~= s@.reverse());
    r.append(tag);
    r
}

/// The entries are in nondecreasing order of their indices.
pub open spec fn sorted_by_index(v: Seq<(usize, String)>) -> bool {
    forall|i: int, j: int| 0 <= i <= j < v.len() ==> v[i].0 <= v[j].0
}

/// The test for an entry of index `k`.
pub open spec fn has_index(k: usize) -> spec_fn((usize, String)) -> bool {
    |e: (usize, String)| e.0 == k
}

/// The entries of `v` with index `k`, in their order in `v`.
pub open spec fn with_index(v: Seq<(usize, String)>, k: usize) -> Seq<(usize, String)> {
    v.filter(has_index(k))
}

/// A sequence with no entry of index `k` has none to keep.
proof fn lemma_none_with_index(v: Seq<(usize, String)>, k: usize)
    requires
        forall|i: int| 0 <= i < v.len() ==> #[trigger] v[i].0 != k,
    ensures
        with_index(v, k) == Seq::<(usize, String)>::empty(),
    decreases v.len(),
{
    reveal(Seq::filter);
    if v.len() > 0 {
        lemma_none_with_index(v.drop_last(), k);
    }
}

/// The results rearranged in nondecreasing order of their indices; results
/// with the same index keep their order (a stable sort by index).
pub fn order_by_index(results: Vec<(usize, String)>) -> (sorted: Vec<(usize, String)>)
    ensures
        sorted@.to_multiset() == results@.to_multiset(),
        sorted_by_index(sorted@),
        forall|k: usize| #[trigger] with_index(sorted@, k) == with_index(results@, k),
{
    broadcast use vstd::seq_lib::group_to_multiset_ensures;
    broadcast use vstd::multiset::group_multiset_axioms;

    let ghost all = results@;
    let ghost mut done: Seq<(usize, String)> = Seq::empty();
    let mut rest = results;
    let mut out: Vec<(usize, String)> = Vec::new();
    assert(out@.to_multiset() =~= Multiset::<(usize, String)>::empty());
    assert(all =~= rest@ + done);
    proof {
        assert forall|k: usize| #[trigger] with_index(out@, k) == with_index(done, k) by {
            lemma_none_with_index(out@, k);
            lemma_none_with_index(done, k);
        }
    }
    while rest.len() > 0
        invariant
            sorted_by_index(out@),
            out@.to_multiset().add(rest@.to_multiset()) == all.to_multiset(),
            all == rest@ + done,
            forall|k: usize| #[trigger] with_index(out@, k) == with_index(done, k),
        decreases rest@.len(),
    {
        let ghost before = rest@;
        let e = rest.pop().unwrap();
        assert(before =~= rest@.push(e));
        let mut p: usize = 0;
        while p < out.len() && out[p].0 < e.0
            invariant
                p <= out@.len(),
                forall|k: int| 0 <= k < p ==> out@[k].0 < e.0,
            decreases out@.len() - p,
        {
            p += 1;
        }
        let ghost prev = out@;
        let ghost prev_done = done;
        out.insert(p, e);
        assert(out@ == prev.insert(p as int, e));
        proof {
            vstd::seq_lib::to_multiset_insert(prev, p as int, e);
            vstd::seq_lib::to_multiset_build(rest@, e);
            done = seq![e] + prev_done;
            assert(all =~= rest@ + done);
            let front = prev.take(p as int);
            let back = prev.skip(p as int);
            assert(prev =~= front + back);
            assert(out@ =~= front + (seq![e] + back));
            assert forall|k: usize| #[trigger] with_index(out@, k) == with_index(done, k) by {
                let f = has_index(k);
                assert(with_index(prev, k) == with_index(prev_done, k));
                Seq::filter_distributes_over_add(front, back, f);
                Seq::filter_distributes_over_add(front, seq![e] + back, f);
                back.lemma_filter_prepend(e, f);
                prev_done.lemma_filter_prepend(e, f);
                assert(with_index(prev, k) == with_index(front, k) + with_index(back, k));
                assert(with_index(out@, k) == with_index(front, k) + with_index(seq![e] + back, k));
                if k == e.0 {
                    assert forall|i: int| 0 <= i < front.len() implies #[trigger] front[i].0 != k by {
                        assert(front[i] == prev[i]);
                    }
                    lemma_none_with_index(front, k);
                    assert(with_index(front, k) + with_index(back, k) =~= with_index(back, k));
                    assert(with_index(seq![e] + back, k) == seq![e] + with_index(back, k));
                    assert(with_index(out@, k) =~= seq![e] + with_index(back, k));
                    assert(with_index(done, k) == seq![e] + with_index(prev_done, k));
                } else {
                    assert(with_index(seq![e] + back, k) =~= with_index(back, k));
                    assert(with_index(out@, k) =~= with_index(front, k) + with_index(back, k));
                    assert(with_index(done, k) =~= with_index(prev_done, k));
                }
            }
        }
        assert(out@.to_multiset().add(rest@.to_multiset()) =~= prev.to_multiset().add(
            before.to_multiset(),
        ));
        assert forall|i: int, j: int| 0 <= i <= j < out@.len() implies out@[i].0 <= out@[j].0 by {
            if i < p && j > p {
                assert(prev[i].0 < e.0);
            }
        }
    }
    assert(rest@.to_multiset() =~= Multiset::<(usize, String)>::empty());
    assert(out@.to_multiset().add(rest@.to_multiset()) =~= out@.to_multiset());
    assert(all =~= done);
    out
}

/// `needle` occurs in `hay` starting at position `i`.
pub open spec fn occurs_at(hay: Seq<char>, needle: Seq<char>, i: int) -> bool {
    0 <= i && i + needle.len() <= hay.len() && hay.subrange(i, i + needle.len()) == needle
}

/// `needle` occurs somewhere in `hay`.
pub open spec fn contains_str(hay: Seq<char>, needle: Seq<char>) -> bool {
    exists|i: int| occurs_at(hay, needle, i)
}

/// `needle` occurs in `hay`.
pub fn str_contains(hay: &str, needle: &str) -> (r: bool)
    ensures
        r == contains_str(hay@, needle@),
{
    let n = hay.unicode_len();
    let m = needle.unicode_len();
    if m > n {
        assert forall|i: int| !occurs_at(hay@, needle@, i) by {}
        return false;
    }
    let mut i: usize = 0;
    while i <= n - m
        invariant
            n == hay@.len(),
            m == needle@.len(),
            m <= n,
            i <= n - m + 1,
            forall|j: int| 0 <= j < i ==> !occurs_at(hay@, needle@, j),
        decreases n - m + 1 - i,
    {
        let mut k: usize = 0;
        let mut matched = true;
        while k < m
            invariant
                n == hay@.len(),
                m == needle@.len(),
                i + m <= n,
                k <= m,
                matched == (forall|t: int| 0 <= t < k ==> hay@[i + t] == needle@[t]),
            decreases m - k,
        {
            if hay.get_char(i + k) != needle.get_char(k) {
                matched = false;
            }
            k += 1;
        }
        if matched {
            assert(hay@.subrange(i as int, i + m) =~= needle@);
            assert(occurs_at(hay@, needle@, i as int));
            return true;
        }
        assert(!occurs_at(hay@, needle@, i as int)) by {
            if hay@.subrange(i as int, i + m) == needle@ {
                assert forall|t: int| 0 <= t < m implies hay@[i + t] == needle@[t] by {
                    assert(hay@.subrange(i as int, i + m)[t] == hay@[i + t]);
                }
            }
        }
        i += 1;
    }
    assert forall|j: int| !occurs_at(hay@, needle@, j) by {
        if 0 <= j && j + m <= n {
            assert(j < i);
        }
    }
    false
}

/// The answer of a fetch of `url`: its data when the URL contains `valid`,
/// a network error otherwise.
pub fn fetch_outcome(url: &str) -> (r: Result<String, &'static str>)
    ensures
        match r {
            Ok(data) => contains_str(url@, "valid"@) && data@ == "Data from "@ + url@,
            Err(e) => !contains_str(url@, "valid"@) && e@ == "Network error"@,
        },
{
    if str_contains(url, "valid") {
        let mut data = "Data from ".to_owned();
        data.append(url);
        Ok(data)
    } else {
        Err("Network error")
    }
}

} // verus!
