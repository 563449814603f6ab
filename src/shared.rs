use vstd::prelude::*;

use crate::address::{index_lt, Index};
use crate::catalog::{lemma_select, passes, paths_distinct, select, Data, FolderRead};
use crate::image::ImageView;
use crate::tally::{pairs, selected_lists, tally, tally_of};
use crate::protocol::{EXECUTE_LINE, WRITE_FLAGS};
use crate::text::{
    lemma_sorted_set_unique, list_text, lower_of, collapse_spaces, collapsed, contains_text, occurs_at, push_char, remove_text, removed,
    is_space_char, split_words, strings, words, words_from,
};

verus! {

/// The text box that has the keyboard focus.
#[derive(Clone, Copy, Debug, PartialEq, Eq, Structural)]
pub enum Textbox {
    Search,
    Link,
    Artist,
    Tag,
    Notes,
}

/// How the gallery is laid out.
#[derive(Clone, Copy, Debug, PartialEq, Eq, Structural)]
pub enum Gallery {
    LeftBar,
    Full,
}

/// A key press that the views hand over.
#[derive(Clone, Copy, Debug, PartialEq, Eq, Structural)]
pub enum Key {
    ArrowUp,
    ArrowLeft,
    ArrowDown,
    ArrowRight,
    Escape,
    Enter,
}

/// Query, results, selection and navigation state shared by the views.
pub struct Shared {
    pub main_img: Index,
    pub active_input: Option<Textbox>,
    pub gallery_type: Gallery,
    pub frame_index: usize,
    pub search: String,
    pub key_event: Option<Key>,
    pub show_popup_about: bool,
    pub show_popup_help: bool,
    pub selected: Vec<Index>,
    /// The value counts of the selection: artists, links, tags.
    pub selected_tags: [Vec<(String, usize)>; 3],
    pub results: Vec<Vec<Index>>,
    pub results_len: usize,
}

/// The results as sequences of addresses, one per folder.
pub open spec fn result_seqs(r: Seq<Vec<Index>>) -> Seq<Seq<Index>> {
    r.map_values(|v: Vec<Index>| v@)
}

/// The number of addresses in all the per-folder results.
pub open spec fn total(r: Seq<Seq<Index>>) -> int
    decreases r.len(),
{
    if r.len() == 0 {
        0
    } else {
        total(r.drop_last()) + r.last().len()
    }
}

/// `n` capped at the largest `usize`.
pub open spec fn capped(n: int) -> int {
    if n > usize::MAX {
        usize::MAX as int
    } else {
        n
    }
}

/// Counts the addresses of all the per-folder results, capped at the largest `usize`.
fn count_results(r: &Vec<Vec<Index>>) -> (n: usize)
    ensures
        n == capped(total(result_seqs(r@))),
{
    let mut n: usize = 0;
    let mut f: usize = 0;
    while f < r.len()
        invariant
            f <= r.len(),
            n == capped(total(result_seqs(r@).subrange(0, f as int))),
        decreases r.len() - f,
    {
        assert(result_seqs(r@).subrange(0, f + 1).drop_last() =~= result_seqs(r@).subrange(0, f as int));
        assert(total(result_seqs(r@).subrange(0, f as int)) >= 0) by {
            lemma_total_nonneg(result_seqs(r@).subrange(0, f as int));
        }
        n = n.saturating_add(r[f].len());
        f = f + 1;
    }
    assert(result_seqs(r@).subrange(0, f as int) =~= result_seqs(r@));
    n
}

/// A count of addresses is never negative.
pub proof fn lemma_total_nonneg(r: Seq<Seq<Index>>)
    ensures
        total(r) >= 0,
    decreases r.len(),
{
    if r.len() > 0 {
        lemma_total_nonneg(r.drop_last());
    }
}

/// The first position of `a` in `s`.
pub open spec fn first_at(s: Seq<Index>, a: Index, p: int) -> bool {
    0 <= p < s.len() && s[p] == a && forall|q: int| 0 <= q < p ==> s[q] != a
}

/// Folder `f` moved `k` places forward, wrapping past the last of `n` folders (`0 <= k <= n`).
pub open spec fn ahead(f: int, k: int, n: int) -> int {
    if f + k < n {
        f + k
    } else {
        f + k - n
    }
}

/// Folder `f` moved `k` places back, wrapping before the first of `n` folders (`0 <= k <= n`).
pub open spec fn behind(f: int, k: int, n: int) -> int {
    if f >= k {
        f - k
    } else {
        f + n - k
    }
}

/// The first folder with results met when stepping forward from folder `f`,
/// trying `k`, `k + 1`, ... places ahead, up to `f` itself.
pub open spec fn next_folder(r: Seq<Seq<Index>>, f: int, k: int) -> int
    decreases r.len() + 1 - k,
{
    if k > r.len() || k < 1 {
        f
    } else if r[ahead(f, k, r.len() as int)].len() > 0 {
        ahead(f, k, r.len() as int)
    } else {
        next_folder(r, f, k + 1)
    }
}

/// The first folder with results met when stepping back from folder `f`,
/// trying `k`, `k + 1`, ... places back, down to `f` itself.
pub open spec fn prev_folder(r: Seq<Seq<Index>>, f: int, k: int) -> int
    decreases r.len() + 1 - k,
{
    if k > r.len() || k < 1 {
        f
    } else if r[behind(f, k, r.len() as int)].len() > 0 {
        behind(f, k, r.len() as int)
    } else {
        prev_folder(r, f, k + 1)
    }
}

/// Whether the results hold `a` in the list of its folder.
pub open spec fn in_results(r: Seq<Seq<Index>>, a: Index) -> bool {
    a.folder < r.len() && r[a.folder as int].contains(a)
}

/// Well-formed results: the list of folder `f` holds only addresses of folder `f`,
/// in strictly increasing image order, as a query gives them.
pub open spec fn results_ok(r: Seq<Seq<Index>>) -> bool {
    &&& forall|f: int, i: int| 0 <= f < r.len() && 0 <= i < r[f].len() ==> (#[trigger] r[f][i]).folder == f
    &&& forall|f: int, i: int, j: int| 0 <= f < r.len() && 0 <= i < j < r[f].len()
        ==> (#[trigger] r[f][i]).image < (#[trigger] r[f][j]).image
}

/// The results of a query on the catalog are well formed.
pub proof fn lemma_query_results_ok(d: Data, inc: Seq<Seq<char>>, exc: Seq<Seq<char>>)
    ensures
        results_ok(d.query_result(inc, exc)),
{
    let r = d.query_result(inc, exc);
    assert forall|f: int, i: int| 0 <= f < r.len() && 0 <= i < r[f].len() implies (#[trigger] r[f][i]).folder == f by {
        lemma_query_list(d, inc, exc, f);
    }
    assert forall|f: int, i: int, j: int| 0 <= f < r.len() && 0 <= i < j < r[f].len()
        implies (#[trigger] r[f][i]).image < (#[trigger] r[f][j]).image by {
        lemma_query_list(d, inc, exc, f);
    }
}

/// The list of folder `f` in a query's results is that folder's selection.
proof fn lemma_query_list(d: Data, inc: Seq<Seq<char>>, exc: Seq<Seq<char>>, f: int)
    requires
        0 <= f < d.folders@.len(),
    ensures
        d.query_result(inc, exc)[f] == select(d.taglist@, inc, exc, f as usize, d.folders@[f].images@.len()),
        forall|i: int| 0 <= i < d.query_result(inc, exc)[f].len() ==> (#[trigger] d.query_result(inc, exc)[f][i]).folder == f,
        forall|i: int, j: int| 0 <= i < j < d.query_result(inc, exc)[f].len() ==> (#[trigger] d.query_result(inc, exc)[f][i]).image
            < (#[trigger] d.query_result(inc, exc)[f][j]).image,
{
    assert(d.folders@[f].images@.len() == d.folders@[f].images.len());
    assert(d.folders@.len() == d.folders.len());
    lemma_select(d.taglist@, inc, exc, f as usize, d.folders@[f].images@.len());
}

/// The address after `a` in the results: the next one in its folder's list, or
/// else the first of the next folder with results, wrapping around.
pub open spec fn next_of(r: Seq<Seq<Index>>, a: Index, p: int) -> Index {
    let f = a.folder as int;
    if p + 1 < r[f].len() {
        r[f][p + 1]
    } else {
        r[next_folder(r, f, 1)][0]
    }
}

/// The address before `a` in the results: the previous one in its folder's list,
/// or else the last of the previous folder with results, wrapping around.
pub open spec fn prev_of(r: Seq<Seq<Index>>, a: Index, p: int) -> Index {
    let f = a.folder as int;
    if p > 0 {
        r[f][p - 1]
    } else {
        let g = prev_folder(r, f, 1);
        r[g][r[g].len() - 1]
    }
}

/// The position of `a` in `v`, if it is there.
fn position(v: &Vec<Index>, a: &Index) -> (r: Option<usize>)
    ensures
        r matches Some(p) ==> first_at(v@, *a, p as int),
        r is None ==> !v@.contains(*a),
{
    let mut i: usize = 0;
    while i < v.len()
        invariant
            i <= v.len(),
            forall|q: int| 0 <= q < i ==> v@[q] != *a,
        decreases v.len() - i,
    {
        if v[i] == *a {
            return Some(i);
        }
        i = i + 1;
    }
    None
}

impl Shared {
    /// The state after opening a catalog: `imagelist` as the results, `index` as
    /// the image in view and the only one selected.
    pub fn new(imagelist: Vec<Vec<Index>>, index: Index) -> (r: Shared)
        ensures
            r.main_img == index,
            r.selected@ == seq![index],
            r.results@ == imagelist@,
            r.results_len == capped(total(result_seqs(imagelist@))),
            r.search@.len() == 0,
            r.active_input is None,
            r.key_event is None,
            r.gallery_type == Gallery::LeftBar,
            r.frame_index == 0,
            r.selected_tags@.len() == 3,
            forall|k: int| 0 <= k < 3 ==> r.selected_tags@[k]@.len() == 0,
    {
        let count = count_results(&imagelist);
        let mut selected: Vec<Index> = Vec::new();
        selected.push(index);
        Shared {
            main_img: index,
            active_input: None,
            gallery_type: Gallery::LeftBar,
            frame_index: 0,
            search: String::new(),
            key_event: None,
            show_popup_about: false,
            show_popup_help: false,
            selected,
            selected_tags: [Vec::new(), Vec::new(), Vec::new()],
            results: imagelist,
            results_len: count,
        }
    }

    /// The address after `index` in the results, wrapping from the last folder with
    /// results to the first; `None` where `index` is not in the results.
    pub fn next_result(&self, index: &Index) -> (r: Option<Index>)
        ensures
            r is None <==> !in_results(result_seqs(self.results@), *index),
            r matches Some(b) ==> exists|p: int|
                first_at(result_seqs(self.results@)[index.folder as int], *index, p) && b == next_of(
                    result_seqs(self.results@),
                    *index,
                    p,
                ),
    {
        let ghost rs = result_seqs(self.results@);
        let f = index.folder;
        if f >= self.results.len() {
            return None;
        }
        let pos = match position(&self.results[f], index) {
            Some(p) => p,
            None => {
                return None;
            },
        };
        assert(rs[f as int] == self.results@[f as int]@);
        assert(first_at(rs[f as int], *index, pos as int));
        if pos < self.results[f].len() - 1 {
            assert(self.results[f as int]@[pos + 1] == next_of(rs, *index, pos as int));
            return Some(self.results[f][pos + 1]);
        }
        let n = self.results.len();
        let mut g = f;
        let mut k: usize = 1;
        while k <= n
            invariant
                forall|j: int| 1 <= j < k ==> #[trigger] rs[ahead(f as int, j, n as int)].len() == 0,
                pos + 1 >= rs[f as int].len(),
                f == index.folder,
                first_at(rs[f as int], *index, pos as int),
                n == rs.len(),
                rs == result_seqs(self.results@),
                f < n,
                rs[f as int].len() > 0,
                1 <= k <= n + 1,
                k <= n ==> g == ahead(f as int, k - 1, n as int),
                next_folder(rs, f as int, 1) == next_folder(rs, f as int, k as int),
            decreases n + 1 - k,
        {
            g = if g + 1 == n {
                0
            } else {
                g + 1
            };
            if self.results[g].len() > 0 {
                assert(rs[g as int] == self.results@[g as int]@);
                assert(next_folder(rs, f as int, k as int) == g);
                assert(next_of(rs, *index, pos as int) == rs[g as int][0]);
                return Some(self.results[g][0]);
            }
            assert(k < n) by {
                assert(rs[g as int] == self.results@[g as int]@);
            }
            k = k + 1;
        }
        assert(rs[ahead(f as int, n as int, n as int)].len() == 0);
        None
    }
}

impl Shared {
    /// The address before `index` in the results, wrapping from the first folder with
    /// results to the last; `None` where `index` is not in the results.
    pub fn prev_result(&self, index: &Index) -> (r: Option<Index>)
        ensures
            r is None <==> !in_results(result_seqs(self.results@), *index),
            r matches Some(b) ==> exists|p: int|
                first_at(result_seqs(self.results@)[index.folder as int], *index, p) && b == prev_of(
                    result_seqs(self.results@),
                    *index,
                    p,
                ),
    {
        let ghost rs = result_seqs(self.results@);
        let f = index.folder;
        if f >= self.results.len() {
            return None;
        }
        let pos = match position(&self.results[f], index) {
            Some(p) => p,
            None => {
                return None;
            },
        };
        assert(rs[f as int] == self.results@[f as int]@);
        assert(first_at(rs[f as int], *index, pos as int));
        if pos > 0 {
            assert(self.results[f as int]@[pos - 1] == prev_of(rs, *index, pos as int));
            return Some(self.results[f][pos - 1]);
        }
        let n = self.results.len();
        let mut g = f;
        let mut k: usize = 1;
        while k <= n
            invariant
                forall|j: int| 1 <= j < k ==> #[trigger] rs[behind(f as int, j, n as int)].len() == 0,
                pos == 0,
                f == index.folder,
                first_at(rs[f as int], *index, pos as int),
                n == rs.len(),
                rs == result_seqs(self.results@),
                f < n,
                rs[f as int].len() > 0,
                1 <= k <= n + 1,
                k <= n ==> g == behind(f as int, k - 1, n as int),
                prev_folder(rs, f as int, 1) == prev_folder(rs, f as int, k as int),
            decreases n + 1 - k,
        {
            g = if g == 0 {
                n - 1
            } else {
                g - 1
            };
            let len = self.results[g].len();
            if len > 0 {
                assert(rs[g as int] == self.results@[g as int]@);
                assert(prev_folder(rs, f as int, k as int) == g);
                assert(prev_of(rs, *index, pos as int) == rs[g as int][len - 1]);
                return Some(self.results[g][len - 1]);
            }
            assert(k < n) by {
                assert(rs[g as int] == self.results@[g as int]@);
            }
            k = k + 1;
        }
        assert(rs[behind(f as int, n as int, n as int)].len() == 0);
        None
    }
}

/// Whether `x` lies between `s` and `e`, both included, in (folder, image) order.
pub open spec fn between(s: Index, e: Index, x: Index) -> bool {
    !index_lt(x, s) && !index_lt(e, x)
}

/// The addresses of `v` between `s` and `e`, in order.
pub open spec fn pick(v: Seq<Index>, s: Index, e: Index) -> Seq<Index>
    decreases v.len(),
{
    if v.len() == 0 {
        seq![]
    } else {
        let p = pick(v.drop_last(), s, e);
        if between(s, e, v.last()) {
            p.push(v.last())
        } else {
            p
        }
    }
}

/// The addresses of all the results between `s` and `e`, in result order.
pub open spec fn pick_all(r: Seq<Seq<Index>>, s: Index, e: Index) -> Seq<Index>
    decreases r.len(),
{
    if r.len() == 0 {
        seq![]
    } else {
        pick_all(r.drop_last(), s, e) + pick(r.last(), s, e)
    }
}

/// The addresses of the results between `a` and `b` in either order, both included.
pub open spec fn range_of(r: Seq<Seq<Index>>, a: Index, b: Index) -> Seq<Index> {
    if index_lt(a, b) {
        pick_all(r, a, b)
    } else {
        pick_all(r, b, a)
    }
}

impl Shared {
    /// The addresses of the results between `s` and `e`, both included.
    fn collect_range(&self, s: Index, e: Index) -> (r: Vec<Index>)
        ensures
            r@ == pick_all(result_seqs(self.results@), s, e),
    {
        let ghost rs = result_seqs(self.results@);
        let mut out: Vec<Index> = Vec::new();
        let mut f: usize = 0;
        while f < self.results.len()
            invariant
                rs == result_seqs(self.results@),
                f <= self.results.len(),
                out@ == pick_all(rs.subrange(0, f as int), s, e),
            decreases self.results.len() - f,
        {
            let ghost base = out@;
            let v = &self.results[f];
            let mut i: usize = 0;
            while i < v.len()
                invariant
                    i <= v.len(),
                    out@ == base + pick(v@.subrange(0, i as int), s, e),
                decreases v.len() - i,
            {
                assert(v@.subrange(0, i + 1).drop_last() =~= v@.subrange(0, i as int));
                let x = v[i];
                let keep = !(x.precedes(&s)) && !(e.precedes(&x));
                if keep {
                    out.push(x);
                    assert(out@ =~= base + pick(v@.subrange(0, i + 1), s, e));
                }
                i = i + 1;
            }
            assert(v@.subrange(0, i as int) =~= v@);
            assert(rs.subrange(0, f + 1).drop_last() =~= rs.subrange(0, f as int));
            assert(rs[f as int] == v@);
            f = f + 1;
        }
        assert(rs.subrange(0, f as int) =~= rs);
        out
    }

    /// Selects every result between `a` and `b`, both included, in result order,
    /// and recounts the selection's values. Where `a` or `b` is not in the
    /// results nothing changes.
    pub fn set_selected(&mut self, img_data: &Data, a: &Index, b: &Index)
        requires
            img_data.wf(),
            old(self).results_ok(),
        ensures
            !(in_results(result_seqs(old(self).results@), *a) && in_results(
                result_seqs(old(self).results@),
                *b,
            )) ==> *final(self) == *old(self),
            in_results(result_seqs(old(self).results@), *a) && in_results(
                result_seqs(old(self).results@),
                *b,
            ) ==> {
                &&& final(self).selected@ == range_of(result_seqs(old(self).results@), *a, *b)
                &&& final(self).tags_counted(*img_data)
                &&& *final(self) == (Shared {
                    selected: final(self).selected,
                    selected_tags: final(self).selected_tags,
                    ..*old(self)
                })
            },
    {
        if a.folder >= self.results.len() || b.folder >= self.results.len() {
            return;
        }
        if position(&self.results[a.folder], a).is_none() || position(&self.results[b.folder], b).is_none() {
            return;
        }
        let (start, end) = if a.precedes(b) {
            (*a, *b)
        } else {
            (*b, *a)
        };
        self.selected = self.collect_range(start, end);
        self.update_tags(img_data);
    }

    /// Adds `index` to the selection, repeats allowed, and recounts the selection's values.
    pub fn add_selected(&mut self, img_data: &Data, index: &Index)
        requires
            img_data.wf(),
        ensures
            final(self).selected@ == old(self).selected@.push(*index),
            final(self).tags_counted(*img_data),
            *final(self) == (Shared {
                selected: final(self).selected,
                selected_tags: final(self).selected_tags,
                ..*old(self)
            }),
    {
        self.selected.push(*index);
        self.update_tags(img_data);
    }

    /// The selected addresses.
    pub fn get_selected(&self) -> (r: &Vec<Index>)
        ensures
            r == &self.selected,
    {
        &self.selected
    }

    /// The value counts of the selection: artists, links, tags.
    pub fn get_selected_tags(&self) -> (r: &[Vec<(String, usize)>; 3])
        ensures
            r == &self.selected_tags,
    {
        &self.selected_tags
    }

    /// The per-folder results of the current query.
    pub fn get_results(&self) -> (r: &Vec<Vec<Index>>)
        ensures
            r == &self.results,
    {
        &self.results
    }

    /// The number of results of the current query.
    pub fn get_result_size(&self) -> (r: usize)
        ensures
            r == self.results_len,
    {
        self.results_len
    }
}

impl Shared {
    /// The results are well formed.
    pub open spec fn results_ok(self) -> bool {
        results_ok(result_seqs(self.results@))
    }

    /// The value counts hold, for the artists, links and tags of the selected images of
    /// `d`, each value once with the number of selected images that carry it.
    pub open spec fn tags_counted(self, d: Data) -> bool {
        forall|w: int| 0 <= w < 3 ==> tally_of(
            pairs(#[trigger] self.selected_tags@[w]@),
            selected_lists(d, self.selected@, w),
        )
    }

    /// Recounts the artists, links and tags of the selected images.
    pub fn update_tags(&mut self, img_data: &Data)
        requires
            img_data.wf(),
        ensures
            final(self).tags_counted(*img_data),
            *final(self) == (Shared { selected_tags: final(self).selected_tags, ..*old(self) }),
    {
        let artists = tally(img_data, &self.selected, 0);
        let links = tally(img_data, &self.selected, 1);
        let tags = tally(img_data, &self.selected, 2);
        self.selected_tags = [artists, links, tags];
        assert forall|w: int| 0 <= w < 3 implies tally_of(
            pairs(#[trigger] self.selected_tags@[w]@),
            selected_lists(*img_data, self.selected@, w),
        ) by {
            if w == 0 {
            } else if w == 1 {
            } else {
            }
        }
    }
}

/// Whether a query word excludes: it starts with a minus sign.
pub open spec fn is_exclusion(w: Seq<char>) -> bool {
    w.len() > 0 && w[0] == '-'
}

/// The inclusion words of a query, in order.
pub open spec fn inclusions(ws: Seq<Seq<char>>) -> Seq<Seq<char>>
    decreases ws.len(),
{
    if ws.len() == 0 {
        seq![]
    } else if is_exclusion(ws.last()) {
        inclusions(ws.drop_last())
    } else {
        inclusions(ws.drop_last()).push(ws.last())
    }
}

/// The exclusion words of a query without their minus sign, in order.
pub open spec fn exclusions(ws: Seq<Seq<char>>) -> Seq<Seq<char>>
    decreases ws.len(),
{
    if ws.len() == 0 {
        seq![]
    } else if is_exclusion(ws.last()) {
        exclusions(ws.drop_last()).push(ws.last().drop_first())
    } else {
        exclusions(ws.drop_last())
    }
}

/// Splits a query into its inclusion words and its exclusion words (minus sign removed).
pub fn parse_query(text: &str) -> (r: (Vec<String>, Vec<String>))
    ensures
        strings(r.0@) == inclusions(words(text@)),
        strings(r.1@) == exclusions(words(text@)),
{
    let ws = split_words(text);
    let ghost wv = strings(ws@);
    let mut inc: Vec<String> = Vec::new();
    let mut exc: Vec<String> = Vec::new();
    let mut i: usize = 0;
    while i < ws.len()
        invariant
            wv == strings(ws@),
            wv == words(text@),
            i <= ws.len(),
            strings(inc@) == inclusions(wv.subrange(0, i as int)),
            strings(exc@) == exclusions(wv.subrange(0, i as int)),
        decreases ws.len() - i,
    {
        assert(wv.subrange(0, i + 1).drop_last() =~= wv.subrange(0, i as int));
        let w = ws[i].as_str();
        let n = w.unicode_len();
        let ghost pi = strings(inc@);
        let ghost pe = strings(exc@);
        if n > 0 && w.get_char(0) == '-' {
            exc.push(String::from_str(w.substring_char(1, n)));
            assert(strings(exc@) =~= pe.push(w@.drop_first()));
        } else {
            inc.push(String::from_str(w));
            assert(strings(inc@) =~= pi.push(w@));
        }
        i = i + 1;
    }
    assert(wv.subrange(0, i as int) =~= wv);
    (inc, exc)
}

/// The first address of the first folder with results, searching from folder `f`.
pub open spec fn first_from(r: Seq<Seq<Index>>, f: int) -> Option<Index>
    decreases r.len() - f,
{
    if f < 0 || f >= r.len() {
        None
    } else if r[f].len() > 0 {
        Some(r[f][0])
    } else {
        first_from(r, f + 1)
    }
}

/// The address put in view when the one in view leaves the results: the first
/// result, or the first address where there is none.
pub open spec fn replacement(r: Seq<Seq<Index>>) -> Index {
    match first_from(r, 0) {
        Some(a) => a,
        None => Index { folder: 0, image: 0 },
    }
}

impl Shared {
    /// The image in view after new results: kept where it is still a result (or
    /// there are no folders); else the first result (or the first address) takes
    /// its place and, where it is a result, becomes the selection.
    pub open spec fn refocused(self, before: Shared, d: Data) -> bool {
        let rs = result_seqs(self.results@);
        if in_results(rs, before.main_img) || rs.len() == 0 {
            &&& self.main_img == before.main_img
            &&& self.selected == before.selected
            &&& self.selected_tags == before.selected_tags
        } else {
            &&& self.main_img == replacement(rs)
            &&& in_results(rs, replacement(rs)) ==> self.selected@ == range_of(
                rs,
                replacement(rs),
                replacement(rs),
            ) && self.tags_counted(d)
            &&& !in_results(rs, replacement(rs)) ==> self.selected == before.selected
                && self.selected_tags == before.selected_tags
        }
    }

    /// Evaluates the query text against the catalog. Where the image in view has
    /// left the results, the first result (or the first address) takes its place
    /// and becomes the selection.
    pub fn update_search(&mut self, img_data: &Data)
        requires
            img_data.wf(),
        ensures
            final(self).search == old(self).search,
            final(self).results_ok(),
            final(self).gallery_type == old(self).gallery_type,
            final(self).active_input == old(self).active_input,
            final(self).key_event == old(self).key_event,
            result_seqs(final(self).results@) == img_data.query_result(
                inclusions(words(old(self).search@)),
                exclusions(words(old(self).search@)),
            ),
            final(self).results_len == capped(total(result_seqs(final(self).results@))),
            final(self).refocused(*old(self), *img_data),
    {
        let (tags, itags) = parse_query(self.search.as_str());
        self.results = img_data.build_vector(tags, itags);
        self.results_len = count_results(&self.results);
        let ghost rs = result_seqs(self.results@);
        proof {
            lemma_query_results_ok(*img_data, inclusions(words(self.search@)), exclusions(words(self.search@)));
        }
        let m = self.main_img;
        let present = m.folder < self.results.len() && position(&self.results[m.folder], &m).is_some();
        assert(present == in_results(rs, m)) by {
            if m.folder < self.results.len() {
                assert(rs[m.folder as int] == self.results@[m.folder as int]@);
            }
        }
        if !present && self.results.len() > 0 {
            let mut index = Index { folder: 0, image: 0 };
            let mut f: usize = 0;
            let mut found = false;
            while !found && f < self.results.len()
                invariant
                    rs == result_seqs(self.results@),
                    f <= self.results.len(),
                    !found ==> first_from(rs, 0) == first_from(rs, f as int),
                    !found ==> index == (Index { folder: 0, image: 0 }),
                    found ==> first_from(rs, 0) == Some(index),
                decreases self.results.len() - f + (if found { 0int } else { 1int }),
            {
                assert(rs[f as int] == self.results@[f as int]@);
                if self.results[f].len() > 0 {
                    index = self.results[f][0];
                    found = true;
                } else {
                    f = f + 1;
                }
            }
            assert(index == replacement(rs));
            self.set_selected(img_data, &index, &index);
            self.main_img = index;
        }
    }

    /// Takes every occurrence of `tag` out of the query text, collapses the white
    /// space left behind and evaluates the query again.
    pub fn rem_from_search(&mut self, img_data: &Data, tag: &str)
        requires
            img_data.wf(),
        ensures
            final(self).search@ == collapsed(removed(old(self).search@, tag@)),
            result_seqs(final(self).results@) == img_data.query_result(
                inclusions(words(final(self).search@)),
                exclusions(words(final(self).search@)),
            ),
    {
        let cut = remove_text(self.search.as_str(), tag);
        self.search = collapse_spaces(cut.as_str());
        self.update_search(img_data);
    }

    /// Adds `tag` to the end of the query text unless the text already holds it,
    /// collapses white space and evaluates the query again. Where the text holds
    /// `tag`, nothing changes.
    pub fn add_to_search(&mut self, img_data: &Data, tag: &str)
        requires
            img_data.wf(),
        ensures
            (exists|i: int| occurs_at(old(self).search@, tag@, i)) ==> *final(self) == *old(self),
            !(exists|i: int| occurs_at(old(self).search@, tag@, i)) ==> {
                &&& final(self).search@ == collapsed(old(self).search@ + seq![' '] + tag@)
                &&& result_seqs(final(self).results@) == img_data.query_result(
                    inclusions(words(final(self).search@)),
                    exclusions(words(final(self).search@)),
                )
            },
    {
        if contains_text(self.search.as_str(), tag) {
            return;
        }
        let mut s = String::from_str(self.search.as_str());
        push_char(&mut s, ' ');
        s.append(tag);
        assert(s@ == old(self).search@ + seq![' '] + tag@);
        self.search = collapse_spaces(s.as_str());
        assert(self.search@ == collapsed(old(self).search@ + seq![' '] + tag@));
        self.update_search(img_data);
    }
}

/// An edit asked for on the selected images, or a change of the query.
pub enum Action {
    ArtistAdd(String),
    ArtistDel(String),
    LinkAdd(String),
    LinkDel(String),
    TagAdd(String),
    TagDel(String),
    SearchAdd(String),
    SearchDel(String),
}

/// Whether `action` edits images (rather than the query).
pub open spec fn is_edit(action: Action) -> bool {
    !(action is SearchAdd || action is SearchDel)
}

/// `after` is `before` with the edit of `action` applied: the value added to or
/// taken from one list, the rest of the image kept.
pub open spec fn edit_result(action: Action, before: ImageView, after: ImageView) -> bool {
    match action {
        Action::ArtistAdd(x) => after == (ImageView { artists: after.artists, ..before })
            && after.artists.to_set() == before.artists.to_set().insert(x@),
        Action::ArtistDel(x) => after == (ImageView { artists: after.artists, ..before })
            && after.artists.to_set() == before.artists.to_set().remove(x@),
        Action::LinkAdd(x) => after == (ImageView { links: after.links, ..before })
            && after.links.to_set() == before.links.to_set().insert(x@),
        Action::LinkDel(x) => after == (ImageView { links: after.links, ..before })
            && after.links.to_set() == before.links.to_set().remove(x@),
        Action::TagAdd(x) => after == (ImageView { tags: after.tags, ..before })
            && after.tags.to_set() == before.tags.to_set().insert(lower_of(x@)),
        Action::TagDel(x) => after == (ImageView { tags: after.tags, ..before })
            && after.tags.to_set() == before.tags.to_set().remove(lower_of(x@)),
        _ => after == before,
    }
}

/// Applying an edit a second time changes nothing more.
proof fn lemma_edit_twice(action: Action, i0: ImageView, i1: ImageView, i2: ImageView)
    requires
        edit_result(action, i0, i1),
        edit_result(action, i1, i2),
    ensures
        edit_result(action, i0, i2),
{
    match action {
        Action::ArtistAdd(x) => {
            assert(i0.artists.to_set().insert(x@).insert(x@) =~= i0.artists.to_set().insert(x@));
        },
        Action::ArtistDel(x) => {
            assert(i0.artists.to_set().remove(x@).remove(x@) =~= i0.artists.to_set().remove(x@));
        },
        Action::LinkAdd(x) => {
            assert(i0.links.to_set().insert(x@).insert(x@) =~= i0.links.to_set().insert(x@));
        },
        Action::LinkDel(x) => {
            assert(i0.links.to_set().remove(x@).remove(x@) =~= i0.links.to_set().remove(x@));
        },
        Action::TagAdd(x) => {
            assert(i0.tags.to_set().insert(lower_of(x@)).insert(lower_of(x@)) =~= i0.tags.to_set().insert(lower_of(x@)));
        },
        Action::TagDel(x) => {
            assert(i0.tags.to_set().remove(lower_of(x@)).remove(lower_of(x@)) =~= i0.tags.to_set().remove(lower_of(x@)));
        },
        _ => {},
    }
}

/// The sidecar command that writes the list an edit action changed, for the image
/// as it stands after the edit.
pub open spec fn edit_command(action: Action, im: ImageView) -> Seq<char> {
    match action {
        Action::ArtistAdd(_) | Action::ArtistDel(_) => WRITE_FLAGS@ + "-Artist="@ + list_text(im.artists)
            + seq!['\n'] + im.file + EXECUTE_LINE@,
        Action::LinkAdd(_) | Action::LinkDel(_) => WRITE_FLAGS@ + "-PageName="@ + list_text(im.links)
            + seq!['\n'] + im.file + EXECUTE_LINE@,
        Action::TagAdd(_) | Action::TagDel(_) => WRITE_FLAGS@ + "-ImageDescription="@ + list_text(im.tags)
            + seq!['\n'] + im.file + EXECUTE_LINE@,
        _ => seq![],
    }
}

/// The addresses of `sel` that name an image of `d`, in order.
pub open spec fn valid_in(d: Data, sel: Seq<Index>) -> Seq<Index>
    decreases sel.len(),
{
    if sel.len() == 0 {
        seq![]
    } else if d.valid(sel.last()) {
        valid_in(d, sel.drop_last()).push(sel.last())
    } else {
        valid_in(d, sel.drop_last())
    }
}

/// Every address of `valid_in(d, sel)` names an image and stands in `sel`.
proof fn lemma_valid_in(d: Data, sel: Seq<Index>)
    ensures
        forall|q: int| 0 <= q < valid_in(d, sel).len() ==> d.valid(#[trigger] valid_in(d, sel)[q])
            && sel.contains(valid_in(d, sel)[q]),
    decreases sel.len(),
{
    if sel.len() > 0 {
        lemma_valid_in(d, sel.drop_last());
        let prev = valid_in(d, sel.drop_last());
        assert forall|q: int| 0 <= q < valid_in(d, sel).len() implies d.valid(#[trigger] valid_in(d, sel)[q])
            && sel.contains(valid_in(d, sel)[q]) by {
            if q < prev.len() {
                assert(valid_in(d, sel)[q] == prev[q]);
                let w = choose|w: int| 0 <= w < sel.drop_last().len() && sel.drop_last()[w] == prev[q];
                assert(sel[w] == prev[q]);
            } else {
                assert(sel[sel.len() - 1] == valid_in(d, sel)[q]);
            }
        }
    }
}

/// One edit of the same image gives one result, given sorted lists.
proof fn lemma_edit_unique(action: Action, i0: ImageView, i1: ImageView, i2: ImageView)
    requires
        edit_result(action, i0, i1),
        edit_result(action, i0, i2),
        i1.wf(),
        i2.wf(),
    ensures
        i1 == i2,
{
    match action {
        Action::ArtistAdd(_) | Action::ArtistDel(_) => {
            lemma_sorted_set_unique(i1.artists, i2.artists);
        },
        Action::LinkAdd(_) | Action::LinkDel(_) => {
            lemma_sorted_set_unique(i1.links, i2.links);
        },
        Action::TagAdd(_) | Action::TagDel(_) => {
            lemma_sorted_set_unique(i1.tags, i2.tags);
        },
        _ => {},
    }
}

/// Two catalogs with the same folders and folder sizes have the same addresses.
proof fn lemma_same_addresses(d1: Data, d0: Data, a: Index)
    requires
        d1.same_except(d0, a),
    ensures
        forall|b: Index| #[trigger] d1.valid(b) == d0.valid(b),
{
    assert forall|b: Index| #[trigger] d1.valid(b) == d0.valid(b) by {
        if b.folder < d1.folders@.len() {
            assert(d1.folders@[b.folder as int].images@.len() == d0.folders@[b.folder as int].images@.len());
        }
    }
}

impl Shared {
    /// Applies `action`. An edit goes to every selected image in turn, and the
    /// sidecar commands that write the edited lists are returned in that order; a
    /// search action changes the query text. The query is then evaluated again
    /// and the selection's values recounted.
    pub fn apply_action(&mut self, img_data: &mut Data, action: &Action) -> (r: Vec<String>)
        requires
            old(img_data).wf(),
        ensures
            final(img_data).wf(),
            is_edit(*action) ==> {
                &&& forall|b: Index| #[trigger] final(img_data).valid(b) == old(img_data).valid(b)
                &&& forall|b: Index| old(img_data).valid(b) ==> if old(self).selected@.contains(b) {
                    edit_result(*action, old(img_data).img(b), #[trigger] final(img_data).img(b))
                } else {
                    final(img_data).img(b) == old(img_data).img(b)
                }
                &&& final(self).search == old(self).search
            },
            is_edit(*action) ==> {
                let edited = valid_in(*old(img_data), old(self).selected@);
                &&& r@.len() == edited.len()
                &&& forall|k: int| 0 <= k < r@.len() ==> (#[trigger] r@[k])@ == edit_command(
                    *action,
                    final(img_data).img(edited[k]),
                )
            },
            !is_edit(*action) ==> *final(img_data) == *old(img_data) && r@.len() == 0,
            action matches Action::SearchDel(x) ==> final(self).search@ == collapsed(
                removed(old(self).search@, x@),
            ),
            action matches Action::SearchAdd(x) ==> final(self).search@ == (if exists|i: int|
                occurs_at(old(self).search@, x@, i) {
                old(self).search@
            } else {
                collapsed(old(self).search@ + seq![' '] + x@)
            }),
            result_seqs(final(self).results@) == final(img_data).query_result(
                inclusions(words(final(self).search@)),
                exclusions(words(final(self).search@)),
            ),
            final(self).tags_counted(*final(img_data)),
    {
        let mut cmds: Vec<String> = Vec::new();
        match action {
            Action::SearchAdd(x) => {
                self.add_to_search(img_data, x.as_str());
            },
            Action::SearchDel(x) => {
                self.rem_from_search(img_data, x.as_str());
            },
            _ => {
                let ghost d0 = *img_data;
                let ghost sel = self.selected@;
                let mut k: usize = 0;
                while k < self.selected.len()
                    invariant
                        is_edit(*action),
                        self.selected@ == sel,
                        self.search == old(self).search,
                        sel == old(self).selected@,
                        d0 == *old(img_data),
                        img_data.wf(),
                        k <= sel.len(),
                        forall|b: Index| #[trigger] img_data.valid(b) == d0.valid(b),
                        cmds@.len() == valid_in(d0, sel.subrange(0, k as int)).len(),
                        forall|q: int| 0 <= q < cmds@.len() ==> (#[trigger] cmds@[q])@ == edit_command(
                            *action,
                            img_data.img(valid_in(d0, sel.subrange(0, k as int))[q]),
                        ),
                        forall|b: Index| d0.valid(b) ==> if sel.subrange(0, k as int).contains(b) {
                            edit_result(*action, d0.img(b), #[trigger] img_data.img(b))
                        } else {
                            img_data.img(b) == d0.img(b)
                        },
                    decreases sel.len() - k,
                {
                    let a = self.selected[k];
                    let ghost before = *img_data;
                    let c = match action {
                        Action::ArtistAdd(x) => img_data.add_artist(&a, x.as_str()),
                        Action::ArtistDel(x) => img_data.del_artist(&a, x.as_str()),
                        Action::LinkAdd(x) => img_data.add_link(&a, x.as_str()),
                        Action::LinkDel(x) => img_data.del_link(&a, x.as_str()),
                        Action::TagAdd(x) => img_data.add_tag(&a, x.as_str()),
                        Action::TagDel(x) => img_data.del_tag(&a, x.as_str()),
                        _ => None,
                    };
                    proof {
                        assert forall|b: Index| sel.subrange(0, k + 1).contains(b) == (sel.subrange(0, k as int).contains(b) || b == a) by {
                            let s0 = sel.subrange(0, k as int);
                            assert(sel.subrange(0, k + 1) =~= s0.push(a));
                            if s0.contains(b) {
                                let w = choose|w: int| 0 <= w < s0.len() && s0[w] == b;
                                assert(s0.push(a)[w] == b);
                            }
                            if b == a {
                                assert(s0.push(a)[k as int] == b);
                            }
                            if s0.push(a).contains(b) && b != a {
                                let w = choose|w: int| 0 <= w < s0.push(a).len() && s0.push(a)[w] == b;
                                assert(s0[w] == b);
                            }
                        }
                        assert(sel.subrange(0, k + 1).drop_last() =~= sel.subrange(0, k as int));
                        assert(sel.subrange(0, k + 1).last() == a);
                        lemma_valid_in(d0, sel.subrange(0, k as int));
                        if before.valid(a) {
                            lemma_same_addresses(*img_data, before, a);
                            assert(edit_result(*action, before.img(a), img_data.img(a)));
                            assert(c matches Some(cc) && cc@ == edit_command(*action, img_data.img(a)));
                            if sel.subrange(0, k as int).contains(a) {
                                assert(before.valid(a));
                                assert(img_data.valid(a));
                                assert(edit_result(*action, d0.img(a), before.img(a)));
                                lemma_edit_twice(*action, d0.img(a), before.img(a), img_data.img(a));
                                lemma_edit_unique(*action, d0.img(a), before.img(a), img_data.img(a));
                            }
                            let prev = valid_in(d0, sel.subrange(0, k as int));
                            assert forall|q: int| 0 <= q < prev.len() implies img_data.img(#[trigger] prev[q]) == before.img(prev[q]) by {
                                if prev[q] != a {
                                    assert(before.valid(prev[q]));
                                    assert(img_data.valid(prev[q]));
                                }
                            }
                            assert forall|b: Index| d0.valid(b) implies if sel.subrange(0, k + 1).contains(b) {
                                edit_result(*action, d0.img(b), #[trigger] img_data.img(b))
                            } else {
                                img_data.img(b) == d0.img(b)
                            } by {
                                if b != a {
                                    assert(before.valid(b));
                                    assert(img_data.valid(b));
                                    assert(img_data.img(b) == before.img(b));
                                }
                            }
                        }
                    }
                    let ghost cmds0 = cmds@;
                    match c {
                        Some(c) => cmds.push(c),
                        None => {},
                    }
                    proof {
                        let prev = valid_in(d0, sel.subrange(0, k as int));
                        let next = valid_in(d0, sel.subrange(0, k + 1));
                        if before.valid(a) {
                            assert(next == prev.push(a));
                            assert forall|q: int| 0 <= q < cmds@.len() implies (#[trigger] cmds@[q])@ == edit_command(
                                *action,
                                img_data.img(next[q]),
                            ) by {
                                if q < prev.len() {
                                    assert(cmds@[q] == cmds0[q]);
                                    assert(next[q] == prev[q]);
                                    assert(img_data.img(prev[q]) == before.img(prev[q]));
                                }
                            }
                        } else {
                            assert(c is None);
                            assert(next == prev);
                            assert(*img_data == before);
                        }
                    }
                    k = k + 1;
                }
                assert(sel.subrange(0, k as int) =~= sel);
            },
        }
        self.update_search(img_data);
        self.update_tags(img_data);
        cmds
    }
}

impl Shared {
    /// `self` is `before` with `b` in view from its first frame, selected alone where
    /// it is a result, and the pending key consumed.
    pub open spec fn moved_to(self, before: Shared, d: Data, b: Index) -> bool {
        let rs = result_seqs(before.results@);
        &&& self.main_img == b
        &&& self.frame_index == 0
        &&& self.key_event is None
        &&& self.results == before.results
        &&& self.results_len == before.results_len
        &&& self.search == before.search
        &&& self.active_input == before.active_input
        &&& self.gallery_type == before.gallery_type
        &&& in_results(rs, b) ==> self.selected@ == range_of(rs, b, b) && self.tags_counted(d)
        &&& !in_results(rs, b) ==> self.selected == before.selected && self.selected_tags
            == before.selected_tags
    }

    /// Handles the pending key, if any, and consumes it. Up and left move to the
    /// previous result, down and right to the next; escape leaves the focused text
    /// box, else turns the side gallery into the full one, else asks to close;
    /// enter turns the full gallery into the side one where there are results and no
    /// text box has the focus, selecting the image in view. Returns whether closing
    /// was asked.
    pub fn handle_inputs(&mut self, img_data: &Data) -> (close: bool)
        requires
            img_data.wf(),
            old(self).results_ok(),
        ensures
            final(self).key_event is None,
            close == (old(self).key_event == Some(Key::Escape) && old(self).active_input is None
                && old(self).gallery_type == Gallery::Full),
            old(self).key_event is None ==> *final(self) == *old(self),
            ({
                let rs = result_seqs(old(self).results@);
                let m = old(self).main_img;
                let f = m.folder as int;
                match old(self).key_event {
                    Some(Key::ArrowUp) | Some(Key::ArrowLeft) => if in_results(rs, m) {
                        exists|p: int| first_at(rs[f], m, p) && final(self).moved_to(*old(self), *img_data, prev_of(rs, m, p))
                    } else {
                        *final(self) == (Shared { key_event: None, ..*old(self) })
                    },
                    Some(Key::ArrowDown) | Some(Key::ArrowRight) => if in_results(rs, m) {
                        exists|p: int| first_at(rs[f], m, p) && final(self).moved_to(*old(self), *img_data, next_of(rs, m, p))
                    } else {
                        *final(self) == (Shared { key_event: None, ..*old(self) })
                    },
                    Some(Key::Escape) => if old(self).active_input is Some {
                        *final(self) == (Shared { key_event: None, active_input: None, ..*old(self) })
                    } else {
                        *final(self) == (Shared { key_event: None, gallery_type: Gallery::Full, ..*old(self) })
                    },
                    Some(Key::Enter) => if old(self).gallery_type == Gallery::Full && old(self).active_input is None
                        && old(self).results_len > 0 {
                        &&& *final(self) == (Shared {
                            gallery_type: Gallery::LeftBar,
                            key_event: None,
                            selected: final(self).selected,
                            selected_tags: final(self).selected_tags,
                            ..*old(self)
                        })
                        &&& in_results(rs, m) ==> final(self).selected@ == range_of(rs, m, m)
                            && final(self).tags_counted(*img_data)
                    } else {
                        *final(self) == (Shared { key_event: None, ..*old(self) })
                    },
                    None => true,
                }
            }),
    {
        let key = match self.key_event {
            Some(k) => k,
            None => {
                return false;
            },
        };
        self.key_event = None;
        let mut close = false;
        match key {
            Key::ArrowUp | Key::ArrowLeft => {
                let m = self.main_img;
                match self.prev_result(&m) {
                    Some(x) => {
                        self.main_img = x;
                        self.frame_index = 0;
                        self.set_selected(img_data, &x, &x);
                    },
                    None => {},
                }
            },
            Key::ArrowDown | Key::ArrowRight => {
                let m = self.main_img;
                match self.next_result(&m) {
                    Some(x) => {
                        self.main_img = x;
                        self.frame_index = 0;
                        self.set_selected(img_data, &x, &x);
                    },
                    None => {},
                }
            },
            Key::Escape => {
                if self.active_input.is_some() {
                    self.active_input = None;
                } else if self.gallery_type == Gallery::LeftBar {
                    self.gallery_type = Gallery::Full;
                } else {
                    close = true;
                }
            },
            Key::Enter => {
                if self.gallery_type == Gallery::Full && self.active_input.is_none() && self.results_len > 0 {
                    self.gallery_type = Gallery::LeftBar;
                    let m = self.main_img;
                    self.set_selected(img_data, &m, &m);
                }
            },
        }
        close
    }
}

/// With no query words every image of the catalog is a result, in its folder's list.
pub proof fn lemma_all_results(d: Data, a: Index)
    requires
        d.valid(a),
    ensures
        in_results(d.query_result(seq![], seq![]), a),
{
    let r = d.query_result(seq![], seq![]);
    let f = a.folder as int;
    assert(d.folders@[f].images@.len() == d.folders@[f].images.len());
    assert(r[f] == select(d.taglist@, seq![], seq![], a.folder, d.folders@[f].images@.len()));
    lemma_select(d.taglist@, seq![], seq![], a.folder, d.folders@[f].images@.len());
    assert(passes(d.taglist@, seq![], seq![], a));
}

impl Shared {
    /// Opens folders from their bulk reads (see `Data::open_folders`) and starts a
    /// fresh view: the query is cleared, the opened file, if any, is put in view in
    /// the side gallery and selected; without one the full gallery shows from the
    /// first image.
    pub fn update_data(&mut self, img_data: &mut Data, reads: Vec<FolderRead>, opened: Option<(String, String)>)
        requires
            old(img_data).wf(),
        ensures
            final(img_data).wf(),
            final(img_data).folders_opened(*old(img_data), reads@),
            paths_distinct(old(img_data).folders@) ==> paths_distinct(final(img_data).folders@),
            final(self).search@.len() == 0,
            result_seqs(final(self).results@) == final(img_data).query_result(seq![], seq![]),
            final(self).gallery_type == (if opened is Some { Gallery::LeftBar } else { Gallery::Full }),
            ({
                let d = *final(img_data);
                let rs = result_seqs(final(self).results@);
                let origin = Index { folder: 0, image: 0 };
                let fallback = if d.valid(origin) { origin } else { replacement(rs) };
                match opened {
                    Some((dir, path)) => if exists|b: Index| d.locates(dir@, path@, b) {
                        d.locates(dir@, path@, final(self).main_img)
                    } else {
                        final(self).main_img == fallback
                    },
                    None => final(self).main_img == fallback,
                }
            }),
            in_results(result_seqs(final(self).results@), final(self).main_img)
                ==> final(self).selected@ == range_of(
                result_seqs(final(self).results@),
                final(self).main_img,
                final(self).main_img,
            ) && final(self).tags_counted(*final(img_data)),
    {
        let is_file = opened.is_some();
        let index = img_data.open_folders(reads, opened);
        match index {
            Some(x) => {
                self.main_img = x;
                self.gallery_type = Gallery::LeftBar;
            },
            None => {
                self.main_img = Index { folder: 0, image: 0 };
                self.gallery_type = Gallery::Full;
            },
        }
        let ghost m0 = self.main_img;
        self.search = String::new();
        proof {
            assert(words(self.search@) =~= seq![]) by {
                assert(self.search@ =~= seq![]);
            }
            assert(inclusions(seq![]) =~= seq![]);
            assert(exclusions(seq![]) =~= seq![]);
            if img_data.valid(m0) {
                lemma_all_results(*img_data, m0);
            }
        }
        self.update_search(img_data);
        let index = self.main_img;
        self.set_selected(img_data, &index, &index);
        proof {
            if img_data.valid(m0) {
                lemma_all_results(*img_data, m0);
            }
        }
    }
}

/// Words of a text followed by white space and more text: the words of each part.
pub proof fn lemma_words_append(s: Seq<char>, cur: Seq<char>, t: Seq<char>)
    requires
        t.len() > 0,
        is_space_char(t[0]),
    ensures
        words_from(s + t, cur) == words_from(s, cur) + words_from(t.drop_first(), seq![]),
    decreases s.len(),
{
    if s.len() == 0 {
        assert(s + t =~= t);
        assert(words_from(s, cur) == (if cur.len() > 0 { seq![cur] } else { seq![] }));
    } else {
        assert((s + t)[0] == s[0]);
        assert((s + t).drop_first() =~= s.drop_first() + t);
        if is_space_char(s[0]) {
            lemma_words_append(s.drop_first(), seq![], t);
            let c = if cur.len() > 0 { seq![cur] } else { seq![] };
            assert(c + (words_from(s.drop_first(), seq![]) + words_from(t.drop_first(), seq![]))
                =~= (c + words_from(s.drop_first(), seq![])) + words_from(t.drop_first(), seq![]));
        } else {
            lemma_words_append(s.drop_first(), cur.push(s[0]), t);
        }
    }
}

/// The query words of two texts in a row are those of each, in order.
pub proof fn lemma_query_words_concat(a: Seq<Seq<char>>, b: Seq<Seq<char>>)
    ensures
        inclusions(a + b) == inclusions(a) + inclusions(b),
        exclusions(a + b) == exclusions(a) + exclusions(b),
    decreases b.len(),
{
    if b.len() == 0 {
        assert(a + b =~= a);
        assert(inclusions(a) + inclusions(b) =~= inclusions(a));
        assert(exclusions(a) + exclusions(b) =~= exclusions(a));
    } else {
        lemma_query_words_concat(a, b.drop_last());
        assert((a + b).drop_last() =~= a + b.drop_last());
        assert((a + b).last() == b.last());
        assert((inclusions(a) + inclusions(b.drop_last())).push(b.last()) =~= inclusions(a) + inclusions(
            b.drop_last(),
        ).push(b.last()));
        assert((exclusions(a) + exclusions(b.drop_last())).push(b.last().drop_first()) =~= exclusions(a)
            + exclusions(b.drop_last()).push(b.last().drop_first()));
    }
}

/// `a + b + b` holds the same elements as `a + b`.
proof fn lemma_repeat_same_elements(a: Seq<Seq<char>>, b: Seq<Seq<char>>)
    ensures
        forall|t: Seq<char>| (a + b + b).contains(t) == (a + b).contains(t),
{
    assert forall|t: Seq<char>| (a + b + b).contains(t) == (a + b).contains(t) by {
        let x = a + b + b;
        let y = a + b;
        if x.contains(t) {
            let k = choose|k: int| 0 <= k < x.len() && x[k] == t;
            if k < y.len() {
                assert(y[k] == t);
            } else {
                assert(y[k - b.len()] == t);
            }
        }
        if y.contains(t) {
            let k = choose|k: int| 0 <= k < y.len() && y[k] == t;
            assert(x[k] == t);
        }
    }
}

/// Excluding a value twice in the query text gives the same results as excluding
/// it once: the text `q -x -x` finds what `q -x` finds.
pub proof fn lemma_search_exclusion_twice(d: Data, q: Seq<char>, x: Seq<char>)
    ensures
        ({
            let t = seq!['-'] + x;
            let s1 = q + seq![' '] + t;
            let s2 = s1 + seq![' '] + t;
            d.query_result(inclusions(words(s2)), exclusions(words(s2))) == d.query_result(
                inclusions(words(s1)),
                exclusions(words(s1)),
            )
        }),
{
    let t = seq!['-'] + x;
    let s1 = q + seq![' '] + t;
    let s2 = s1 + seq![' '] + t;
    let tail = seq![' '] + t;
    assert(is_space_char(tail[0]));
    assert(tail.drop_first() =~= t);
    assert(s1 =~= q + tail);
    assert(s2 =~= s1 + tail);
    lemma_words_append(q, seq![], tail);
    lemma_words_append(s1, seq![], tail);
    let a = words(q);
    let w = words_from(t, seq![]);
    assert(words(s1) == a + w);
    assert(words(s2) == a + w + w);
    lemma_query_words_concat(a, w);
    lemma_query_words_concat(a + w, w);
    assert(inclusions(words(s2)) == inclusions(a) + inclusions(w) + inclusions(w));
    assert(exclusions(words(s2)) == exclusions(a) + exclusions(w) + exclusions(w));
    lemma_repeat_same_elements(inclusions(a), inclusions(w));
    lemma_repeat_same_elements(exclusions(a), exclusions(w));
    crate::catalog::lemma_query_same_values(
        d,
        inclusions(words(s2)),
        exclusions(words(s2)),
        inclusions(words(s1)),
        exclusions(words(s1)),
    );
}

} // verus!
