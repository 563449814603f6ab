use vstd::prelude::*;

use crate::address::Index;
use crate::catalog::Data;
use crate::image::ImageView;
use crate::text::{compare_text, lemma_text_lt_total, lemma_text_lt_transitive, text_lt};

verus! {

/// One list of an image: 0 its artists, 1 its links, 2 its tags.
pub open spec fn field_of(im: ImageView, which: int) -> Seq<Seq<char>> {
    if which == 0 {
        im.artists
    } else if which == 1 {
        im.links
    } else {
        im.tags
    }
}

/// The lists `which` of the selected addresses that name an image, in selection order.
pub open spec fn selected_lists(d: Data, sel: Seq<Index>, which: int) -> Seq<Seq<Seq<char>>>
    decreases sel.len(),
{
    if sel.len() == 0 {
        seq![]
    } else {
        let p = selected_lists(d, sel.drop_last(), which);
        if d.valid(sel.last()) {
            p.push(field_of(d.img(sel.last()), which))
        } else {
            p
        }
    }
}

/// In how many of `lists` the value `v` stands.
pub open spec fn count_in(lists: Seq<Seq<Seq<char>>>, v: Seq<char>) -> nat
    decreases lists.len(),
{
    if lists.len() == 0 {
        0
    } else {
        count_in(lists.drop_last(), v) + if lists.last().contains(v) {
            1nat
        } else {
            0nat
        }
    }
}

/// Order of (value, count) pairs: higher count first, then higher value.
pub open spec fn pair_before(p: (Seq<char>, nat), q: (Seq<char>, nat)) -> bool {
    p.1 > q.1 || (p.1 == q.1 && text_lt(q.0, p.0))
}

/// The (value, count) pairs of a list of counted values.
pub open spec fn pairs(v: Seq<(String, usize)>) -> Seq<(Seq<char>, nat)> {
    v.map_values(|p: (String, usize)| (p.0@, p.1 as nat))
}

/// `t` holds each value of `lists` once, with the number of lists it stands in,
/// by descending count, then descending value.
pub open spec fn tally_of(t: Seq<(Seq<char>, nat)>, lists: Seq<Seq<Seq<char>>>) -> bool {
    &&& forall|i: int, j: int| 0 <= i < j < t.len() ==> pair_before(#[trigger] t[i], #[trigger] t[j])
    &&& forall|k: int| 0 <= k < t.len() ==> (#[trigger] t[k]).1 == count_in(lists, t[k].0) && t[k].1 > 0
    &&& forall|v: Seq<char>| #[trigger] count_in(lists, v) > 0 ==> exists|k: int| 0 <= k < t.len() && t[k].0 == v
}

/// A value stands in at most all of the lists.
proof fn lemma_count_bound(lists: Seq<Seq<Seq<char>>>, v: Seq<char>)
    ensures
        count_in(lists, v) <= lists.len(),
    decreases lists.len(),
{
    if lists.len() > 0 {
        lemma_count_bound(lists.drop_last(), v);
    }
}

/// There are no more lists than selected addresses.
proof fn lemma_selected_lists_len(d: Data, sel: Seq<Index>, which: int)
    ensures
        selected_lists(d, sel, which).len() <= sel.len(),
    decreases sel.len(),
{
    if sel.len() > 0 {
        lemma_selected_lists_len(d, sel.drop_last(), which);
    }
}

/// The pair order is transitive.
proof fn lemma_pair_before_transitive(p: (Seq<char>, nat), q: (Seq<char>, nat), r: (Seq<char>, nat))
    requires
        pair_before(p, q),
        pair_before(q, r),
    ensures
        pair_before(p, r),
{
    if p.1 == q.1 && q.1 == r.1 {
        lemma_text_lt_transitive(r.0, q.0, p.0);
    }
}

/// Whether `p` goes before `q`: higher count first, then higher value.
fn goes_before(p: &(String, usize), q: &(String, usize)) -> (r: bool)
    ensures
        r == pair_before((p.0@, p.1 as nat), (q.0@, q.1 as nat)),
{
    if p.1 != q.1 {
        p.1 > q.1
    } else {
        compare_text(q.0.as_str(), p.0.as_str()) < 0
    }
}

/// Counts, in the lists `which` of the selected images, how many lists each value stands in.
/// The result is unordered, each value once.
fn count_values(d: &Data, sel: &Vec<Index>, which: u8) -> (r: Vec<(String, usize)>)
    requires
        d.wf(),
        which < 3,
    ensures
        forall|i: int, j: int| 0 <= i < j < r@.len() ==> (#[trigger] r@[i]).0@ != (#[trigger] r@[j]).0@,
        forall|k: int| 0 <= k < r@.len() ==> (#[trigger] pairs(r@)[k]).1 == count_in(
            selected_lists(*d, sel@, which as int),
            pairs(r@)[k].0,
        ) && pairs(r@)[k].1 > 0,
        forall|v: Seq<char>| #[trigger] count_in(selected_lists(*d, sel@, which as int), v) > 0
            ==> exists|k: int| 0 <= k < r@.len() && r@[k].0@ == v,
{
    let mut acc: Vec<(String, usize)> = Vec::new();
    let mut m: usize = 0;
    while m < sel.len()
        invariant
            d.wf(),
            which < 3,
            m <= sel.len(),
            forall|i: int, j: int| 0 <= i < j < acc@.len() ==> (#[trigger] acc@[i]).0@ != (#[trigger] acc@[j]).0@,
            forall|k: int| 0 <= k < acc@.len() ==> (#[trigger] acc@[k]).1 as nat == count_in(
                selected_lists(*d, sel@.subrange(0, m as int), which as int),
                acc@[k].0@,
            ) && acc@[k].1 > 0,
            forall|v: Seq<char>| #[trigger] count_in(selected_lists(*d, sel@.subrange(0, m as int), which as int), v) > 0
                ==> exists|k: int| 0 <= k < acc@.len() && acc@[k].0@ == v,
            forall|k: int| 0 <= k < acc@.len() ==> (#[trigger] acc@[k]).1 <= m,
        decreases sel.len() - m,
    {
        let ghost lists = selected_lists(*d, sel@.subrange(0, m as int), which as int);
        assert(sel@.subrange(0, m + 1).drop_last() =~= sel@.subrange(0, m as int));
        let a = sel[m];
        if a.folder < d.folders.len() && a.image < d.folders[a.folder].images.len() {
            assert(d.valid(a));
            let img = &d.folders[a.folder].images[a.image];
            let list = if which == 0 {
                &img.artists
            } else if which == 1 {
                &img.links
            } else {
                &img.tags
            };
            let ghost cur = field_of(d.img(a), which as int);
            assert(crate::text::strings(list@) == cur);
            assert(crate::text::strictly_sorted(cur));
            let mut j: usize = 0;
            while j < list.len()
                invariant
                    d.wf(),
                    m < sel.len(),
                    lists == selected_lists(*d, sel@.subrange(0, m as int), which as int),
                    j <= list@.len(),
                    crate::text::strings(list@) == cur,
                    crate::text::strictly_sorted(cur),
                    forall|i: int, j2: int| 0 <= i < j2 < acc@.len() ==> (#[trigger] acc@[i]).0@ != (#[trigger] acc@[j2]).0@,
                    forall|k: int| 0 <= k < acc@.len() ==> (#[trigger] acc@[k]).1 as nat == count_in(lists, acc@[k].0@)
                        + (if cur.subrange(0, j as int).contains(acc@[k].0@) { 1nat } else { 0nat })
                        && acc@[k].1 > 0,
                    forall|v: Seq<char>| count_in(lists, v) + (if cur.subrange(0, j as int).contains(v) { 1nat } else { 0nat }) > 0
                        ==> exists|k: int| 0 <= k < acc@.len() && acc@[k].0@ == v,
                    forall|k: int| 0 <= k < acc@.len() ==> (#[trigger] acc@[k]).1 <= m + 1,
                decreases list@.len() - j,
            {
                let ghost x = cur[j as int];
                proof {
                    assert forall|v: Seq<char>| cur.subrange(0, j + 1).contains(v) == (cur.subrange(0, j as int).contains(v) || v == x) by {
                        let s0 = cur.subrange(0, j as int);
                        assert(cur.subrange(0, j + 1) =~= s0.push(x));
                        if s0.contains(v) {
                            let q = choose|q: int| 0 <= q < s0.len() && s0[q] == v;
                            assert(s0.push(x)[q] == v);
                        }
                        if v == x {
                            assert(s0.push(x)[j as int] == v);
                        }
                        if s0.push(x).contains(v) && v != x {
                            let q = choose|q: int| 0 <= q < s0.push(x).len() && s0.push(x)[q] == v;
                            assert(s0[q] == v);
                        }
                    }
                    assert(!cur.subrange(0, j as int).contains(x)) by {
                        if cur.subrange(0, j as int).contains(x) {
                            let q = choose|q: int| 0 <= q < j && cur.subrange(0, j as int)[q] == x;
                            crate::text::lemma_sorted_position_unique(cur, q, j as int);
                        }
                    }
                }
                let ghost acc0 = acc@;
                let mut p: usize = 0;
                let mut found = false;
                while !found && p < acc.len()
                    invariant
                        acc@ == acc0,
                        p <= acc@.len(),
                        forall|q: int| 0 <= q < p ==> (#[trigger] acc@[q]).0@ != x,
                        found ==> p < acc@.len() && acc@[p as int].0@ == x,
                        x == list@[j as int]@,
                        j < list@.len(),
                    decreases acc@.len() - p + (if found { 0int } else { 1int }),
                {
                    if compare_text(acc[p].0.as_str(), list[j].as_str()) == 0 {
                        found = true;
                    } else {
                        p = p + 1;
                    }
                }
                proof {
                    lemma_count_bound(lists, x);
                    lemma_selected_lists_len(*d, sel@.subrange(0, m as int), which as int);
                    if found {
                        assert(acc@[p as int].1 as nat == count_in(lists, x));
                    }
                    if !found {
                        if count_in(lists, x) > 0 {
                            assert(count_in(lists, x) + (if cur.subrange(0, j as int).contains(x) { 1nat } else { 0nat }) > 0);
                            let k = choose|k: int| 0 <= k < acc0.len() && acc0[k].0@ == x;
                            assert(false);
                        }
                    }
                }
                if found {
                    let c = acc[p].1;
                    assert(lists.len() <= m);
                    assert(c <= m);
                    let s = acc[p].0.clone();
                    acc.set(p, (s, c + 1));
                } else {
                    acc.push((list[j].clone(), 1));
                }
                proof {
                    assert forall|k: int| 0 <= k < acc0.len() implies (#[trigger] acc@[k]).0@ == acc0[k].0@ by {
                    }
                    assert forall|v: Seq<char>| count_in(lists, v) + (if cur.subrange(0, j + 1).contains(v) { 1nat } else { 0nat }) > 0
                        implies exists|k: int| 0 <= k < acc@.len() && acc@[k].0@ == v by {
                        if v == x {
                            if found {
                                assert(acc@[p as int].0@ == v);
                            } else {
                                assert(acc@[acc@.len() - 1].0@ == v);
                            }
                        } else {
                            assert(count_in(lists, v) + (if cur.subrange(0, j as int).contains(v) { 1nat } else { 0nat }) > 0);
                            let k = choose|k: int| 0 <= k < acc0.len() && acc0[k].0@ == v;
                            assert(acc@[k].0@ == v);
                        }
                    }
                }
                j = j + 1;
            }
            assert(cur.subrange(0, j as int) =~= cur);
            assert(selected_lists(*d, sel@.subrange(0, m + 1), which as int) == lists.push(cur));
            assert(lists.push(cur).drop_last() =~= lists);
            proof {
                let nl = lists.push(cur);
                assert forall|v: Seq<char>| #[trigger] count_in(nl, v) > 0 implies exists|k: int|
                    0 <= k < acc@.len() && acc@[k].0@ == v by {
                    assert(count_in(nl, v) == count_in(lists, v) + (if cur.contains(v) { 1nat } else { 0nat }));
                }
                assert forall|k: int| 0 <= k < acc@.len() implies (#[trigger] acc@[k]).1 as nat == count_in(nl, acc@[k].0@) by {
                    assert(count_in(nl, acc@[k].0@) == count_in(lists, acc@[k].0@) + (if cur.contains(acc@[k].0@) { 1nat } else { 0nat }));
                }
            }
        } else {
            assert(selected_lists(*d, sel@.subrange(0, m + 1), which as int) == lists);
        }
        m = m + 1;
    }
    assert(sel@.subrange(0, m as int) =~= sel@);
    acc
}

/// Pairs of different values are ordered one way or the other.
proof fn lemma_pair_total(p: (Seq<char>, nat), q: (Seq<char>, nat))
    requires
        p.0 != q.0,
    ensures
        pair_before(p, q) || pair_before(q, p),
{
    lemma_text_lt_total(p.0, q.0);
}

/// Orders counted values by descending count, then descending value.
fn sort_counts(acc: &Vec<(String, usize)>) -> (r: Vec<(String, usize)>)
    requires
        forall|i: int, j: int| 0 <= i < j < acc@.len() ==> (#[trigger] acc@[i]).0@ != (#[trigger] acc@[j]).0@,
    ensures
        forall|i: int, j: int| 0 <= i < j < r@.len() ==> pair_before(#[trigger] pairs(r@)[i], #[trigger] pairs(r@)[j]),
        pairs(r@).to_set() == pairs(acc@).to_set(),
{
    let ghost pa = pairs(acc@);
    let mut out: Vec<(String, usize)> = Vec::new();
    let mut k: usize = 0;
    while k < acc.len()
        invariant
            pa == pairs(acc@),
            k <= acc@.len(),
            forall|i: int, j: int| 0 <= i < j < acc@.len() ==> (#[trigger] acc@[i]).0@ != (#[trigger] acc@[j]).0@,
            forall|i: int, j: int| 0 <= i < j < out@.len() ==> pair_before(#[trigger] pairs(out@)[i], #[trigger] pairs(out@)[j]),
            pairs(out@).to_set() == pa.subrange(0, k as int).to_set(),
        decreases acc@.len() - k,
    {
        let ghost po = pairs(out@);
        let e = (acc[k].0.clone(), acc[k].1);
        let ghost pe = (e.0@, e.1 as nat);
        assert(pe == pa[k as int]);
        proof {
            assert forall|q: int| 0 <= q < po.len() implies po[q].0 != pe.0 by {
                assert(po.to_set().contains(po[q]));
                assert(pa.subrange(0, k as int).to_set().contains(po[q]));
                let w = choose|w: int| 0 <= w < k && pa.subrange(0, k as int)[w] == po[q];
                assert(acc@[w].0@ != acc@[k as int].0@);
            }
        }
        let mut i: usize = 0;
        let mut stop = false;
        while !stop && i < out.len()
            invariant
                po == pairs(out@),
                i <= out@.len(),
                forall|q: int| 0 <= q < i ==> pair_before(#[trigger] po[q], pe),
                forall|q: int| 0 <= q < po.len() ==> (#[trigger] po[q]).0 != pe.0,
                stop ==> i < out@.len() && pair_before(pe, po[i as int]),
                pe == (e.0@, e.1 as nat),
            decreases out@.len() - i + (if stop { 0int } else { 1int }),
        {
            if goes_before(&e, &out[i]) {
                stop = true;
            } else {
                proof {
                    lemma_pair_total(pe, po[i as int]);
                }
                i = i + 1;
            }
        }
        out.insert(i, e);
        let ghost t = pairs(out@);
        assert(t =~= po.insert(i as int, pe));
        proof {
            assert forall|a: int, b: int| 0 <= a < b < t.len() implies pair_before(#[trigger] t[a], #[trigger] t[b]) by {
                if b < i {
                } else if b == i {
                } else if a < i {
                    if b - 1 > i {
                        lemma_pair_before_transitive(pe, po[i as int], po[b - 1]);
                    }
                    lemma_pair_before_transitive(po[a], pe, po[b - 1]);
                } else if a == i {
                    if b - 1 > i {
                        lemma_pair_before_transitive(pe, po[i as int], po[b - 1]);
                    }
                } else {
                }
            }
            assert(pa.subrange(0, k + 1) =~= pa.subrange(0, k as int).push(pe));
            assert(t.to_set() =~= pa.subrange(0, k + 1).to_set()) by {
                assert forall|x| t.to_set().contains(x) <==> pa.subrange(0, k + 1).to_set().contains(x) by {
                    let s0 = pa.subrange(0, k as int);
                    if t.to_set().contains(x) {
                        let q = choose|q: int| 0 <= q < t.len() && t[q] == x;
                        if q < i {
                            assert(po.to_set().contains(po[q]));
                            let w = choose|w: int| 0 <= w < s0.len() && s0[w] == x;
                            assert(s0.push(pe)[w] == x);
                        } else if q > i {
                            assert(po.to_set().contains(po[q - 1]));
                            let w = choose|w: int| 0 <= w < s0.len() && s0[w] == x;
                            assert(s0.push(pe)[w] == x);
                        } else {
                            assert(s0.push(pe)[k as int] == x);
                        }
                    }
                    if pa.subrange(0, k + 1).to_set().contains(x) {
                        let w = choose|w: int| 0 <= w < k + 1 && s0.push(pe)[w] == x;
                        if w < k {
                            assert(s0.to_set().contains(s0[w]));
                            let q = choose|q: int| 0 <= q < po.len() && po[q] == x;
                            if q < i {
                                assert(t[q] == x);
                            } else {
                                assert(t[q + 1] == x);
                            }
                        } else {
                            assert(t[i as int] == x);
                        }
                    }
                }
            }
        }
        k = k + 1;
    }
    assert(pa.subrange(0, k as int) =~= pa);
    out
}

/// The value counts of the lists `which` of the selected images: each value once with
/// the number of selected images whose list holds it, by descending count, then
/// descending value. Addresses that name no image are skipped.
pub fn tally(d: &Data, sel: &Vec<Index>, which: u8) -> (r: Vec<(String, usize)>)
    requires
        d.wf(),
        which < 3,
    ensures
        tally_of(pairs(r@), selected_lists(*d, sel@, which as int)),
{
    let acc = count_values(d, sel, which);
    let out = sort_counts(&acc);
    let ghost lists = selected_lists(*d, sel@, which as int);
    proof {
        let po = pairs(out@);
        let pa = pairs(acc@);
        assert forall|k: int| 0 <= k < po.len() implies (#[trigger] po[k]).1 == count_in(lists, po[k].0) && po[k].1 > 0 by {
            assert(po.to_set().contains(po[k]));
            let w = choose|w: int| 0 <= w < pa.len() && pa[w] == po[k];
        }
        assert forall|v: Seq<char>| #[trigger] count_in(lists, v) > 0 implies exists|k: int| 0 <= k < po.len() && po[k].0 == v by {
            let w = choose|w: int| 0 <= w < acc@.len() && acc@[w].0@ == v;
            assert(pa.to_set().contains(pa[w]));
            let k = choose|k: int| 0 <= k < po.len() && po[k] == pa[w];
            assert(po[k].0 == v);
        }
    }
    out
}

} // verus!
