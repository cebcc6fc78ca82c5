//! The MRU (most-recently-used) list policy: a pure transformation that
//! promotes an entry to the front of an ordered list, removing prior
//! occurrences and capping the length.

use vstd::prelude::*;

verus! {

/// Most entries a recent-files list may hold; older entries are evicted
/// past this bound.
pub const CAPACITY: usize = 10;

/// The predicate selecting entries that differ from `e`.
pub open spec fn differs_from(e: Seq<char>) -> spec_fn(Seq<char>) -> bool {
    |x: Seq<char>| x != e
}

/// The entries of `s` other than `e`, in their original order.
pub open spec fn without_entry(s: Seq<Seq<char>>, e: Seq<char>) -> Seq<Seq<char>> {
    s.filter(differs_from(e))
}

/// What promoting `e` to the front of `s` must produce: `e` first, then
/// every entry other than `e` in order, truncated to `CAPACITY`.
pub open spec fn promote_spec(s: Seq<Seq<char>>, e: Seq<char>) -> Seq<Seq<char>> {
    let all = seq![e] + without_entry(s, e);
    if all.len() <= CAPACITY {
        all
    } else {
        all.take(CAPACITY as int)
    }
}

/// Promote `entry` to the front of `current`: every prior occurrence of
/// `entry` is dropped, `entry` is inserted at index 0, and the result is
/// truncated to `CAPACITY` entries.
pub fn promote(current: &Vec<String>, entry: &String) -> (r: Vec<String>)
    ensures
        r.deep_view() == promote_spec(current.deep_view(), entry@),
{
    let ghost cv = current.deep_view();
    let ghost e = entry@;
    let mut out: Vec<String> = Vec::new();
    out.push(entry.clone());
    proof {
        reveal(Seq::filter);
        assert(cv.take(0) =~= Seq::<Seq<char>>::empty());
        assert(without_entry(cv.take(0), e) =~= Seq::<Seq<char>>::empty());
        assert(out.deep_view() =~= promote_spec(cv.take(0), e));
    }
    let mut i: usize = 0;
    while i < current.len()
        invariant
            i <= current.len(),
            cv == current.deep_view(),
            e == entry@,
            cv.len() == current.len(),
            out.deep_view() == promote_spec(cv.take(i as int), e),
            out@.len() == promote_spec(cv.take(i as int), e).len(),
        decreases current.len() - i,
    {
        let ghost all_i = seq![e] + without_entry(cv.take(i as int), e);
        let ghost all_next = seq![e] + without_entry(cv.take(i as int + 1), e);
        proof {
            reveal(Seq::filter);
            assert(cv.take(i as int + 1).drop_last() =~= cv.take(i as int));
            assert(cv.take(i as int + 1).last() == cv[i as int]);
            if cv[i as int] == e {
                assert(all_next =~= all_i);
            } else {
                assert(all_next =~= all_i.push(cv[i as int]));
            }
        }
        if out.len() < CAPACITY {
            if !current[i].eq(entry) {
                let kept = current[i].clone();
                out.push(kept);
                proof {
                    assert(out.deep_view() =~= all_next);
                }
            }
        } else {
            proof {
                assert(all_i.len() >= CAPACITY);
                assert(all_i.take(CAPACITY as int) =~= promote_spec(cv.take(i as int), e));
                if cv[i as int] != e {
                    assert(all_next.take(CAPACITY as int) =~= all_i.take(CAPACITY as int));
                }
            }
        }
        i = i + 1;
    }
    proof {
        assert(cv.take(i as int) =~= cv);
    }
    out
}

/// Every element of `s.filter(pred)` occurs somewhere in `s`.
proof fn lemma_filter_elements_come_from(s: Seq<Seq<char>>, pred: spec_fn(Seq<char>) -> bool)
    ensures
        forall|i: int|
            0 <= i < s.filter(pred).len() ==> s.contains(#[trigger] s.filter(pred)[i]),
    decreases s.len(),
{
    reveal(Seq::filter);
    if s.len() > 0 {
        let d = s.drop_last();
        lemma_filter_elements_come_from(d, pred);
        assert forall|i: int| 0 <= i < s.filter(pred).len() implies s.contains(
            #[trigger] s.filter(pred)[i],
        ) by {
            if i < d.filter(pred).len() {
                assert(d.contains(d.filter(pred)[i]));
                let k = choose|k: int| 0 <= k < d.len() && d[k] == d.filter(pred)[i];
                assert(s[k] == s.filter(pred)[i]);
            } else {
                assert(s.filter(pred)[i] == s.last());
                assert(s[s.len() - 1] == s.last());
            }
        }
    }
}

/// Filtering a duplicate-free sequence yields a duplicate-free sequence.
proof fn lemma_filter_no_duplicates(s: Seq<Seq<char>>, pred: spec_fn(Seq<char>) -> bool)
    requires
        s.no_duplicates(),
    ensures
        s.filter(pred).no_duplicates(),
    decreases s.len(),
{
    reveal(Seq::filter);
    if s.len() > 0 {
        let d = s.drop_last();
        assert(d.no_duplicates());
        lemma_filter_no_duplicates(d, pred);
        lemma_filter_elements_come_from(d, pred);
        if pred(s.last()) {
            assert forall|i: int, j: int|
                0 <= i < s.filter(pred).len() && 0 <= j < s.filter(pred).len() && i
                    != j implies s.filter(pred)[i] != s.filter(pred)[j] by {
                let fd = d.filter(pred);
                if i < fd.len() && j < fd.len() {
                } else {
                    let m: int = if i < fd.len() { i } else { j };
                    if m < fd.len() && fd[m] == s.last() {
                        assert(d.contains(fd[m]));
                        let k = choose|k: int| 0 <= k < d.len() && d[k] == fd[m];
                        assert(s[k] == s[s.len() - 1]);
                        assert(false);
                    }
                }
            }
        }
    }
}

/// The promotion law: whatever the input list held, the promoted list is
/// non-empty, no longer than `CAPACITY`, starts with the promoted entry,
/// and holds that entry nowhere else; and if the input list was free of
/// duplicates, the promoted list is too.
pub proof fn lemma_promote_invariants(s: Seq<Seq<char>>, e: Seq<char>)
    ensures
        1 <= promote_spec(s, e).len() <= CAPACITY,
        promote_spec(s, e)[0] == e,
        forall|k: int| 1 <= k < promote_spec(s, e).len() ==> promote_spec(s, e)[k] != e,
        s.no_duplicates() ==> promote_spec(s, e).no_duplicates(),
{
    let pred = differs_from(e);
    let f = without_entry(s, e);
    let all = seq![e] + f;
    s.lemma_filter_len(pred);
    assert forall|k: int| 1 <= k < all.len() implies all[k] != e by {
        s.lemma_filter_pred(pred, k - 1);
    }
    if s.no_duplicates() {
        lemma_filter_no_duplicates(s, pred);
        assert forall|i: int, j: int|
            (0 <= i < all.len() && 0 <= j < all.len() && i != j) implies all[i] != all[j] by {
            if i == 0 {
                assert(all[j] != e);
            } else if j == 0 {
                assert(all[i] != e);
            } else {
                assert(all[i] == f[i - 1]);
                assert(all[j] == f[j - 1]);
            }
        }
        assert(all.no_duplicates());
    }
}

} // verus!
