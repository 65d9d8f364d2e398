//! Comparing a fresh fetch against the cached snapshot: which ids appeared
//! and which disappeared.
use crate::offer::{offers_view, Offer, OfferV};
use vstd::prelude::*;

verus! {

/// Some offer in `s` carries id `id`.
pub open spec fn has_id(s: Seq<OfferV>, id: Seq<char>) -> bool {
    exists|k: int| 0 <= k < s.len() && s[k].id == id
}

/// The ids of offers in `a` that no offer of `b` carries, in `a`'s order,
/// duplicates kept.
pub open spec fn fresh_ids(a: Seq<OfferV>, b: Seq<OfferV>) -> Seq<Seq<char>>
    decreases a.len(),
{
    if a.len() == 0 {
        Seq::empty()
    } else if !has_id(b, a[0].id) {
        seq![a[0].id] + fresh_ids(a.skip(1), b)
    } else {
        fresh_ids(a.skip(1), b)
    }
}

/// The views of a sequence of id strings, element for element.
pub open spec fn strings_view(s: Seq<String>) -> Seq<Seq<char>> {
    Seq::new(s.len(), |i: int| s[i]@)
}

/// The outcome of one comparison: ids seen now but not before, and ids
/// seen before but gone now.
pub struct Diff {
    pub new_ids: Vec<String>,
    pub removed_ids: Vec<String>,
}

/// Whether any offer of `v` carries the id `id`.
fn contains_id(v: &Vec<Offer>, id: &String) -> (r: bool)
    ensures
        r == has_id(offers_view(v@), id@),
{
    let mut k: usize = 0;
    while k < v.len()
        invariant
            k <= v@.len(),
            forall|t: int| 0 <= t < k ==> offers_view(v@)[t].id != id@,
        decreases v@.len() - k,
    {
        if v[k].id == *id {
            proof {
                assert(offers_view(v@)[k as int].id == id@);
            }
            return true;
        }
        k = k + 1;
    }
    false
}

/// The ids of `from` that `against` does not carry, in `from`'s order.
fn fresh_ids_of(from: &Vec<Offer>, against: &Vec<Offer>) -> (r: Vec<String>)
    ensures
        strings_view(r@) == fresh_ids(offers_view(from@), offers_view(against@)),
{
    let ghost a = offers_view(from@);
    let ghost b = offers_view(against@);
    let mut out: Vec<String> = Vec::new();
    let mut i: usize = 0;
    proof {
        assert(a.skip(0) =~= a);
        assert(strings_view(Seq::<String>::empty()) =~= Seq::<Seq<char>>::empty());
        assert(Seq::<Seq<char>>::empty() + fresh_ids(a, b) =~= fresh_ids(a, b));
    }
    while i < from.len()
        invariant
            i <= from@.len(),
            a == offers_view(from@),
            b == offers_view(against@),
            fresh_ids(a, b) == strings_view(out@) + fresh_ids(a.skip(i as int), b),
        decreases from@.len() - i,
    {
        proof {
            assert(a.skip(i as int)[0] == a[i as int]);
            assert(a.skip(i as int).skip(1) =~= a.skip(i + 1 as int));
            assert(a[i as int].id == from@[i as int]@.id);
        }
        let ghost pre = out@;
        let o = &from[i];
        if !contains_id(against, &o.id) {
            out.push(o.id.clone());
            proof {
                assert(strings_view(out@) =~= strings_view(pre).push(from@[i as int].id@));
                assert(strings_view(pre) + (seq![a[i as int].id] + fresh_ids(
                    a.skip(i + 1 as int),
                    b,
                )) =~= strings_view(out@) + fresh_ids(a.skip(i + 1 as int), b));
            }
        }
        i = i + 1;
    }
    proof {
        assert(a.skip(a.len() as int) =~= Seq::<OfferV>::empty());
        assert(strings_view(out@) + Seq::<Seq<char>>::empty() =~= strings_view(out@));
    }
    out
}

/// Compares today's offers against the cached ones: `new_ids` are the ids
/// of `current` that `previous` lacks, in `current`'s order, and
/// `removed_ids` are the ids of `previous` that `current` lacks, in
/// `previous`'s order.
pub fn diff_offers(current: &Vec<Offer>, previous: &Vec<Offer>) -> (r: Diff)
    ensures
        strings_view(r.new_ids@) == fresh_ids(offers_view(current@), offers_view(previous@)),
        strings_view(r.removed_ids@) == fresh_ids(offers_view(previous@), offers_view(current@)),
{
    Diff { new_ids: fresh_ids_of(current, previous), removed_ids: fresh_ids_of(previous, current) }
}

/// No later offer of `s` carries the id of `s[k]`: the entry that wins a
/// keyed view built by inserting `s` in order.
pub open spec fn is_last_occurrence(s: Seq<OfferV>, k: int) -> bool {
    &&& 0 <= k < s.len()
    &&& forall|j: int| k < j < s.len() ==> s[j].id != s[k].id
}

/// No earlier offer of `s` carries the id of `s[k]`: the entry that wins
/// a keyed view built by inserting `s` only at absent keys.
pub open spec fn is_first_occurrence(s: Seq<OfferV>, k: int) -> bool {
    &&& 0 <= k < s.len()
    &&& forall|j: int| 0 <= j < k ==> s[j].id != s[k].id
}

/// The entry a unioned keyed view holds for its id: the last occurrence
/// in `cur` when the id occurs there, else the first occurrence in
/// `prev`.
pub open spec fn union_entry(cur: Seq<OfferV>, prev: Seq<OfferV>, o: OfferV) -> bool {
    if has_id(cur, o.id) {
        exists|k: int| is_last_occurrence(cur, k) && cur[k] == o
    } else {
        exists|k: int| is_first_occurrence(prev, k) && prev[k] == o
    }
}

/// One offer per id seen in either list: for each id, `current`'s last
/// record when the id occurs there, else `previous`'s first. Order is
/// unspecified, as in a hash-keyed view.
pub fn union_offers(current: &Vec<Offer>, previous: &Vec<Offer>) -> (r: Vec<Offer>)
    ensures
        forall|i: int, j: int|
            0 <= i < j < r@.len() ==> offers_view(r@)[i].id != offers_view(r@)[j].id,
        forall|i: int|
            0 <= i < r@.len() ==> union_entry(
                offers_view(current@),
                offers_view(previous@),
                #[trigger] offers_view(r@)[i],
            ),
        forall|id: Seq<char>|
            has_id(offers_view(current@), id) || has_id(offers_view(previous@), id)
                <==> #[trigger] has_id(offers_view(r@), id),
{
    let ghost cv = offers_view(current@);
    let ghost pv = offers_view(previous@);
    let mut out: Vec<Offer> = Vec::new();
    let mut i: usize = current.len();
    while i > 0
        invariant
            i <= current@.len(),
            cv == offers_view(current@),
            pv == offers_view(previous@),
            forall|s: int, t: int|
                0 <= s < t < out@.len() ==> offers_view(out@)[s].id != offers_view(out@)[t].id,
            forall|t: int|
                0 <= t < out@.len() ==> exists|k: int|
                    is_last_occurrence(cv, k) && i <= k && cv[k] == #[trigger] offers_view(
                        out@,
                    )[t],
            forall|k: int| i <= k < cv.len() ==> has_id(offers_view(out@), #[trigger] cv[k].id),
        decreases i,
    {
        i = i - 1;
        let o = &current[i];
        let ghost pre = offers_view(out@);
        if !contains_id(&out, &o.id) {
            out.push(o.duplicate());
            proof {
                assert(offers_view(out@) =~= pre.push(cv[i as int]));
                assert forall|j: int| i < j < cv.len() implies cv[j].id != cv[i as int].id by {
                    if cv[j].id == cv[i as int].id {
                        assert(has_id(pre, cv[j].id));
                    }
                }
                assert(is_last_occurrence(cv, i as int));
                assert forall|t: int| 0 <= t < out@.len() implies exists|k: int|
                    is_last_occurrence(cv, k) && i <= k && cv[k] == #[trigger] offers_view(
                        out@,
                    )[t] by {
                    if t < pre.len() {
                        assert(offers_view(out@)[t] == pre[t]);
                    } else {
                        assert(offers_view(out@)[t] == cv[i as int]);
                        assert(is_last_occurrence(cv, i as int) && i <= i as int && cv[i as int]
                            == offers_view(out@)[t]);
                    }
                }
                assert forall|k: int| i <= k < cv.len() implies has_id(
                    offers_view(out@),
                    #[trigger] cv[k].id,
                ) by {
                    if k == i {
                        assert(offers_view(out@)[pre.len() as int] == cv[i as int]);
                    } else {
                        assert(has_id(pre, cv[k].id));
                        let w = choose|w: int| 0 <= w < pre.len() && pre[w].id == cv[k].id;
                        assert(offers_view(out@)[w].id == cv[k].id);
                    }
                }
            }
        } else {
            proof {
                assert(cv[i as int].id == current@[i as int]@.id);
                assert(has_id(offers_view(out@), cv[i as int].id));
            }
        }
    }
    proof {
        assert forall|t: int| 0 <= t < out@.len() implies union_entry(
            cv,
            pv,
            #[trigger] offers_view(out@)[t],
        ) by {
            let k = choose|k: int|
                is_last_occurrence(cv, k) && 0 <= k && cv[k] == offers_view(out@)[t];
            assert(cv[k].id == offers_view(out@)[t].id);
            assert(has_id(cv, offers_view(out@)[t].id));
        }
        assert forall|t: int| 0 <= t < out@.len() implies (has_id(
            cv,
            #[trigger] offers_view(out@)[t].id,
        ) || has_id(pv, offers_view(out@)[t].id)) by {
            let k = choose|k: int|
                is_last_occurrence(cv, k) && 0 <= k && cv[k] == offers_view(out@)[t];
            assert(cv[k].id == offers_view(out@)[t].id);
        }
    }
    let mut p: usize = 0;
    while p < previous.len()
        invariant
            p <= previous@.len(),
            cv == offers_view(current@),
            pv == offers_view(previous@),
            forall|s: int, t: int|
                0 <= s < t < out@.len() ==> offers_view(out@)[s].id != offers_view(out@)[t].id,
            forall|t: int|
                0 <= t < out@.len() ==> union_entry(cv, pv, #[trigger] offers_view(out@)[t]),
            forall|k: int| 0 <= k < cv.len() ==> has_id(offers_view(out@), #[trigger] cv[k].id),
            forall|k: int| 0 <= k < p ==> has_id(offers_view(out@), #[trigger] pv[k].id),
            forall|t: int|
                0 <= t < out@.len() ==> (has_id(cv, #[trigger] offers_view(out@)[t].id) || has_id(
                    pv,
                    offers_view(out@)[t].id,
                )),
        decreases previous@.len() - p,
    {
        let o = &previous[p];
        let ghost pre = offers_view(out@);
        if !contains_id(&out, &o.id) {
            out.push(o.duplicate());
            proof {
                assert(offers_view(out@) =~= pre.push(pv[p as int]));
                assert(!has_id(cv, pv[p as int].id));
                assert forall|j: int| 0 <= j < p implies pv[j].id != pv[p as int].id by {
                    if pv[j].id == pv[p as int].id {
                        assert(has_id(pre, pv[j].id));
                    }
                }
                assert(is_first_occurrence(pv, p as int));
                assert forall|t: int| 0 <= t < out@.len() implies union_entry(
                    cv,
                    pv,
                    #[trigger] offers_view(out@)[t],
                ) by {
                    if t < pre.len() {
                        assert(offers_view(out@)[t] == pre[t]);
                    } else {
                        assert(offers_view(out@)[t] == pv[p as int]);
                        assert(is_first_occurrence(pv, p as int) && pv[p as int] == offers_view(
                            out@,
                        )[t]);
                    }
                }
                assert forall|k: int| 0 <= k <= p implies has_id(
                    offers_view(out@),
                    #[trigger] pv[k].id,
                ) by {
                    if k == p {
                        assert(offers_view(out@)[pre.len() as int] == pv[p as int]);
                    } else {
                        assert(has_id(pre, pv[k].id));
                        let w = choose|w: int| 0 <= w < pre.len() && pre[w].id == pv[k].id;
                        assert(offers_view(out@)[w].id == pv[k].id);
                    }
                }
                assert forall|k: int| 0 <= k < cv.len() implies has_id(
                    offers_view(out@),
                    #[trigger] cv[k].id,
                ) by {
                    assert(has_id(pre, cv[k].id));
                    let w = choose|w: int| 0 <= w < pre.len() && pre[w].id == cv[k].id;
                    assert(offers_view(out@)[w].id == cv[k].id);
                }
            }
        }
        p = p + 1;
    }
    proof {
        assert forall|id: Seq<char>| has_id(cv, id) || has_id(pv, id) implies has_id(
            offers_view(out@),
            id,
        ) by {
            if has_id(cv, id) {
                let k = choose|k: int| 0 <= k < cv.len() && cv[k].id == id;
                assert(has_id(offers_view(out@), cv[k].id));
            } else {
                let k = choose|k: int| 0 <= k < pv.len() && pv[k].id == id;
                assert(has_id(offers_view(out@), pv[k].id));
            }
        }
        assert forall|id: Seq<char>| has_id(offers_view(out@), id) implies has_id(cv, id)
            || has_id(pv, id) by {
            let t = choose|t: int|
                0 <= t < offers_view(out@).len() && offers_view(out@)[t].id == id;
            assert(has_id(cv, offers_view(out@)[t].id) || has_id(pv, offers_view(out@)[t].id));
        }
    }
    out
}

proof fn lemma_fresh_ids_all_present(a: Seq<OfferV>, b: Seq<OfferV>)
    requires
        forall|k: int| 0 <= k < a.len() ==> has_id(b, a[k].id),
    ensures
        fresh_ids(a, b).len() == 0,
    decreases a.len(),
{
    if a.len() > 0 {
        assert(has_id(b, a[0].id));
        assert forall|k: int| 0 <= k < a.skip(1).len() implies has_id(b, a.skip(1)[k].id) by {
            assert(a.skip(1)[k] == a[k + 1]);
        }
        lemma_fresh_ids_all_present(a.skip(1), b);
    }
}

/// Law: diffing a list against itself reports nothing: no id is new and
/// no id is removed.
pub proof fn lemma_diff_idempotent(l: Seq<OfferV>)
    ensures
        fresh_ids(l, l).len() == 0,
{
    assert forall|k: int| 0 <= k < l.len() implies has_id(l, l[k].id) by {
        assert(0 <= k < l.len() && l[k].id == l[k].id);
    }
    lemma_fresh_ids_all_present(l, l);
}

} // verus!
