use vstd::prelude::*;
use vstd::hash_map::StringHashMap;

use crate::address::{index_lt, Index};
use crate::image::{inserted_into, removed_from, Image, ImageView};
use crate::json::{has_file, image_from, images_from, kept, read_images, records, text_member};
use serde_json::Value;
use crate::shared::{exclusions, inclusions, result_seqs, Shared};
use crate::protocol::{set_artist, set_link, set_notes, set_tags, WRITE_FLAGS, EXECUTE_LINE};
use crate::text::{
    compare_text, contains_string, escape_quotes, escaped, build_string, list_text, lower_of,
    lowercase, sorted_unique, strictly_sorted, strings, words,
};

verus! {

/// One opened folder and the images found in it, in the order the sidecar listed them.
pub struct Folder {
    pub path: String,
    pub btn_path: String,
    pub collapsed: bool,
    pub images: Vec<Image>,
}

/// The catalog: the opened folders and the inverted index from each artist or
/// tag value to the addresses of the images that carry it.
pub struct Data {
    pub folders: Vec<Folder>,
    pub taglist: StringHashMap<Vec<Index>>,
}

/// Whether the index `m` lists address `a` under value `t`.
pub open spec fn tag_has(m: Map<Seq<char>, Vec<Index>>, t: Seq<char>, a: Index) -> bool {
    m.contains_key(t) && m[t]@.contains(a)
}

/// Every bucket of `m` is non-empty and lists each address once.
pub open spec fn buckets_ok(m: Map<Seq<char>, Vec<Index>>) -> bool {
    forall|t: Seq<char>| #[trigger] m.contains_key(t) ==> m[t]@.len() > 0 && m[t]@.no_duplicates()
}

/// Whether `a` passes a query: it is under every inclusion value and under no exclusion value.
pub open spec fn passes(
    m: Map<Seq<char>, Vec<Index>>,
    inc: Seq<Seq<char>>,
    exc: Seq<Seq<char>>,
    a: Index,
) -> bool {
    &&& forall|k: int| 0 <= k < inc.len() ==> tag_has(m, #[trigger] inc[k], a)
    &&& forall|k: int| 0 <= k < exc.len() ==> !tag_has(m, #[trigger] exc[k], a)
}

/// The addresses among the first `n` images of folder `f` that pass the query, in image order.
pub open spec fn select(
    m: Map<Seq<char>, Vec<Index>>,
    inc: Seq<Seq<char>>,
    exc: Seq<Seq<char>>,
    f: usize,
    n: nat,
) -> Seq<Index>
    decreases n,
{
    if n == 0 {
        seq![]
    } else {
        let prev = select(m, inc, exc, f, (n - 1) as nat);
        let a = Index { folder: f, image: (n - 1) as usize };
        if passes(m, inc, exc, a) {
            prev.push(a)
        } else {
            prev
        }
    }
}

impl Data {
    /// Whether `a` names an image of the catalog.
    pub open spec fn valid(self, a: Index) -> bool {
        a.folder < self.folders@.len() && a.image < self.folders@[a.folder as int].images@.len()
    }

    /// The image at `a`.
    pub open spec fn img(self, a: Index) -> ImageView {
        self.folders@[a.folder as int].images@[a.image as int]@
    }

    /// Every image keeps its lists sorted and free of repeats.
    pub open spec fn images_wf(self) -> bool {
        forall|a: Index| #[trigger] self.valid(a) ==> self.img(a).wf()
    }

    /// The index lists exactly the (value, address) pairs where the image at the
    /// address has the value among its artists or tags, each address once per value.
    pub open spec fn index_consistent(self) -> bool {
        &&& buckets_ok(self.taglist@)
        &&& forall|t: Seq<char>, a: Index| #[trigger]
            tag_has(self.taglist@, t, a) ==> self.valid(a) && self.img(a).has_label(t)
        &&& forall|t: Seq<char>, a: Index|
            self.valid(a) && #[trigger] self.img(a).has_label(t) ==> tag_has(self.taglist@, t, a)
    }

    /// The catalog's invariant: image lists sorted and free of repeats, index consistent.
    pub open spec fn wf(self) -> bool {
        self.images_wf() && self.index_consistent()
    }

    /// The per-folder results of a query with inclusion values `inc` and exclusion values `exc`.
    pub open spec fn query_result(self, inc: Seq<Seq<char>>, exc: Seq<Seq<char>>) -> Seq<Seq<Index>> {
        Seq::new(
            self.folders@.len(),
            |f: int| select(self.taglist@, inc, exc, f as usize, self.folders@[f].images@.len()),
        )
    }

    /// An empty catalog.
    pub fn new() -> (r: Data)
        ensures
            r.wf(),
            r.folders@.len() == 0,
            r.taglist@ == Map::<Seq<char>, Vec<Index>>::empty(),
    {
        Data { folders: Vec::new(), taglist: StringHashMap::new() }
    }
}

/// Whether `a` is in `v`.
fn index_in(v: &Vec<Index>, a: Index) -> (r: bool)
    ensures
        r == v@.contains(a),
{
    let mut i: usize = 0;
    while i < v.len()
        invariant
            i <= v.len(),
            forall|k: int| 0 <= k < i ==> v@[k] != a,
        decreases v.len() - i,
    {
        if v[i] == a {
            return true;
        }
        i = i + 1;
    }
    false
}

impl Data {
    /// Lists `a` under `tag` unless it is there already.
    fn add_taglist(taglist: &mut StringHashMap<Vec<Index>>, a: Index, tag: &str)
        requires
            buckets_ok(old(taglist)@),
        ensures
            buckets_ok(final(taglist)@),
            forall|t: Seq<char>, b: Index|
                tag_has(final(taglist)@, t, b) == (tag_has(old(taglist)@, t, b) || (t == tag@ && b
                    == a)),
            tag_has(old(taglist)@, tag@, a) ==> final(taglist)@ == old(taglist)@,
            !tag_has(old(taglist)@, tag@, a) ==> {
                &&& final(taglist)@ == old(taglist)@.insert(tag@, final(taglist)@[tag@])
                &&& final(taglist)@[tag@]@ == (if old(taglist)@.contains_key(tag@) {
                    old(taglist)@[tag@]@
                } else {
                    seq![]
                }).push(a)
            },
    {
        let ghost m = taglist@;
        match taglist.get(tag) {
            Some(v) => {
                if !index_in(v, a) {
                    let mut w = v.clone();
                    assert(w@ =~= v@);
                    w.push(a);
                    proof {
                        assert(w@.no_duplicates()) by {
                            assert forall|i: int, j: int| 0 <= i < w@.len() && 0 <= j < w@.len()
                                && i != j implies w@[i] != w@[j] by {
                                if i == v@.len() as int {
                                    assert(v@.contains(w@[j]));
                                } else if j == v@.len() as int {
                                    assert(v@.contains(w@[i]));
                                }
                            }
                        }
                    }
                    taglist.insert(String::from_str(tag), w);
                    proof {
                        assert forall|t: Seq<char>, b: Index|
                            tag_has(taglist@, t, b) == (tag_has(m, t, b) || (t == tag@ && b == a)) by {
                            if t == tag@ {
                                assert(w@ == m[t]@.push(a));
                                assert(w@.contains(b) <==> (m[t]@.contains(b) || b == a)) by {
                                    if w@.contains(b) && b != a {
                                        let k = choose|k: int| 0 <= k < w@.len() && w@[k] == b;
                                        assert(m[t]@[k] == b);
                                    }
                                    if m[t]@.contains(b) {
                                        let k = choose|k: int| 0 <= k < m[t]@.len() && m[t]@[k] == b;
                                        assert(w@[k] == b);
                                    }
                                    if b == a {
                                        assert(w@[w@.len() - 1] == b);
                                    }
                                }
                            }
                        }
                    }
                }
            },
            None => {
                let mut w: Vec<Index> = Vec::new();
                w.push(a);
                assert(w@ =~= seq![a]);
                taglist.insert(String::from_str(tag), w);
                proof {
                    assert forall|t: Seq<char>, b: Index|
                        tag_has(taglist@, t, b) == (tag_has(m, t, b) || (t == tag@ && b == a)) by {
                        if t == tag@ {
                            assert(w@.contains(b) <==> b == a) by {
                                if b == a {
                                    assert(w@[0] == b);
                                }
                            }
                        }
                    }
                }
            },
        }
    }

    /// Takes `a` out of the bucket of `tag`, and drops the bucket once it is empty.
    fn rem_taglist(taglist: &mut StringHashMap<Vec<Index>>, a: Index, tag: &str)
        requires
            buckets_ok(old(taglist)@),
        ensures
            buckets_ok(final(taglist)@),
            forall|t: Seq<char>, b: Index|
                tag_has(final(taglist)@, t, b) == (tag_has(old(taglist)@, t, b) && !(t == tag@ && b
                    == a)),
            !tag_has(old(taglist)@, tag@, a) ==> final(taglist)@ == old(taglist)@,
            tag_has(old(taglist)@, tag@, a) ==> exists|p: int|
                0 <= p < old(taglist)@[tag@]@.len() && old(taglist)@[tag@]@[p] == a && if old(
                    taglist,
                )@[tag@]@.len() == 1 {
                    final(taglist)@ == old(taglist)@.remove(tag@)
                } else {
                    &&& final(taglist)@ == old(taglist)@.insert(tag@, final(taglist)@[tag@])
                    &&& final(taglist)@[tag@]@ == old(taglist)@[tag@]@.remove(p)
                },
    {
        let ghost m = taglist@;
        match taglist.get(tag) {
            Some(v) => {
                let mut i: usize = 0;
                let mut found = false;
                while !found && i < v.len()
                    invariant
                        i <= v.len(),
                        forall|k: int| 0 <= k < i ==> v@[k] != a,
                        found ==> i < v.len() && v@[i as int] == a,
                    decreases v.len() - i + (if found { 0int } else { 1int }),
                {
                    if v[i] == a {
                        found = true;
                    } else {
                        i = i + 1;
                    }
                }
                if found {
                    let mut w = v.clone();
                    assert(w@ =~= v@);
                    w.remove(i);
                    assert(w@ =~= v@.remove(i as int));
                    proof {
                        assert(w@.no_duplicates()) by {
                            assert forall|p: int, q: int| 0 <= p < w@.len() && 0 <= q < w@.len()
                                && p != q implies w@[p] != w@[q] by {
                                let pp = if p < i { p } else { p + 1 };
                                let qq = if q < i { q } else { q + 1 };
                                assert(w@[p] == v@[pp] && w@[q] == v@[qq]);
                            }
                        }
                        assert forall|b: Index| w@.contains(b) <==> (v@.contains(b) && b != a) by {
                            if w@.contains(b) {
                                let k = choose|k: int| 0 <= k < w@.len() && w@[k] == b;
                                let kk = if k < i { k } else { k + 1 };
                                assert(v@[kk] == b);
                                assert(v@[i as int] == a);
                                assert(kk != i);
                            }
                            if v@.contains(b) && b != a {
                                let k = choose|k: int| 0 <= k < v@.len() && v@[k] == b;
                                assert(k != i);
                                if k < i {
                                    assert(w@[k] == b);
                                } else {
                                    assert(w@[k - 1] == b);
                                }
                            }
                        }
                    }
                    if w.len() == 0 {
                        taglist.remove(tag);
                        proof {
                            assert forall|t: Seq<char>, b: Index|
                                tag_has(taglist@, t, b) == (tag_has(m, t, b) && !(t == tag@ && b
                                    == a)) by {
                                if t == tag@ {
                                    assert(!w@.contains(b));
                                }
                            }
                        }
                    } else {
                        taglist.insert(String::from_str(tag), w);
                        proof {
                            assert forall|t: Seq<char>, b: Index|
                                tag_has(taglist@, t, b) == (tag_has(m, t, b) && !(t == tag@ && b
                                    == a)) by {
                            }
                        }
                    }
                } else {
                    assert(!v@.contains(a));
                }
            },
            None => {},
        }
    }
}

/// Whether `a` comes before position `i` of folder `f` in catalog order.
pub open spec fn before(a: Index, f: int, i: int) -> bool {
    a.folder < f || (a.folder == f && a.image < i)
}

impl Data {
    /// Rebuilds the index from scratch out of every image's artists and tags.
    pub fn build_tags(&mut self)
        requires
            old(self).images_wf(),
        ensures
            final(self).wf(),
            final(self).folders == old(self).folders,
    {
        self.taglist.clear();
        let mut f: usize = 0;
        while f < self.folders.len()
            invariant
                self.folders == old(self).folders,
                buckets_ok(self.taglist@),
                f <= self.folders.len(),
                forall|t: Seq<char>, b: Index| #[trigger]
                    tag_has(self.taglist@, t, b) == (self.valid(b) && before(b, f as int, 0)
                        && self.img(b).has_label(t)),
            decreases self.folders.len() - f,
        {
            let mut i: usize = 0;
            while i < self.folders[f].images.len()
                invariant
                    self.folders == old(self).folders,
                    buckets_ok(self.taglist@),
                    f < self.folders.len(),
                    i <= self.folders[f as int].images.len(),
                    forall|t: Seq<char>, b: Index| #[trigger]
                        tag_has(self.taglist@, t, b) == (self.valid(b) && before(b, f as int, i as int)
                            && self.img(b).has_label(t)),
                decreases self.folders[f as int].images.len() - i,
            {
                let a = Index { folder: f, image: i };
                assert(self.valid(a));
                let ghost im = self.img(a);
                let mut j: usize = 0;
                while j < self.folders[f].images[i].artists.len()
                    invariant
                        self.folders == old(self).folders,
                        buckets_ok(self.taglist@),
                        f < self.folders.len(),
                        i < self.folders[f as int].images.len(),
                        a == (Index { folder: f, image: i }),
                        im == self.img(a),
                        j <= im.artists.len(),
                        forall|t: Seq<char>, b: Index| #[trigger]
                            tag_has(self.taglist@, t, b) == ((self.valid(b) && before(b, f as int, i as int)
                                && self.img(b).has_label(t)) || (b == a && im.artists.subrange(0, j as int).contains(t))),
                    decreases im.artists.len() - j,
                {
                    Self::add_taglist(&mut self.taglist, a, self.folders[f].images[i].artists[j].as_str());
                    proof {
                        let t0 = im.artists[j as int];
                        assert(im.artists.subrange(0, j + 1) =~= im.artists.subrange(0, j as int).push(t0));
                        assert forall|t: Seq<char>| im.artists.subrange(0, j + 1).contains(t) == (
                            im.artists.subrange(0, j as int).contains(t) || t == t0) by {
                            let s0 = im.artists.subrange(0, j as int);
                            if s0.contains(t) {
                                let k = choose|k: int| 0 <= k < s0.len() && s0[k] == t;
                                assert(s0.push(t0)[k] == t);
                            }
                            if t == t0 {
                                assert(s0.push(t0)[j as int] == t);
                            }
                            if s0.push(t0).contains(t) && t != t0 {
                                let k = choose|k: int| 0 <= k < s0.push(t0).len() && s0.push(t0)[k] == t;
                                assert(s0[k] == t);
                            }
                        }
                    }
                    j = j + 1;
                }
                assert(im.artists.subrange(0, j as int) =~= im.artists);
                let mut k: usize = 0;
                while k < self.folders[f].images[i].tags.len()
                    invariant
                        self.folders == old(self).folders,
                        buckets_ok(self.taglist@),
                        f < self.folders.len(),
                        i < self.folders[f as int].images.len(),
                        a == (Index { folder: f, image: i }),
                        im == self.img(a),
                        k <= im.tags.len(),
                        forall|t: Seq<char>, b: Index| #[trigger]
                            tag_has(self.taglist@, t, b) == ((self.valid(b) && before(b, f as int, i as int)
                                && self.img(b).has_label(t)) || (b == a && (im.artists.contains(t)
                                || im.tags.subrange(0, k as int).contains(t)))),
                    decreases im.tags.len() - k,
                {
                    Self::add_taglist(&mut self.taglist, a, self.folders[f].images[i].tags[k].as_str());
                    proof {
                        let t0 = im.tags[k as int];
                        assert forall|t: Seq<char>| im.tags.subrange(0, k + 1).contains(t) == (
                            im.tags.subrange(0, k as int).contains(t) || t == t0) by {
                            let s0 = im.tags.subrange(0, k as int);
                            assert(im.tags.subrange(0, k + 1) =~= s0.push(t0));
                            if s0.contains(t) {
                                let q = choose|q: int| 0 <= q < s0.len() && s0[q] == t;
                                assert(s0.push(t0)[q] == t);
                            }
                            if t == t0 {
                                assert(s0.push(t0)[k as int] == t);
                            }
                            if s0.push(t0).contains(t) && t != t0 {
                                let q = choose|q: int| 0 <= q < s0.push(t0).len() && s0.push(t0)[q] == t;
                                assert(s0[q] == t);
                            }
                        }
                    }
                    k = k + 1;
                }
                assert(im.tags.subrange(0, k as int) =~= im.tags);
                i = i + 1;
            }
            f = f + 1;
        }
        proof {
            assert forall|b: Index| #[trigger] self.valid(b) implies self.img(b).wf() by {
                assert(old(self).valid(b));
            }
            assert forall|t: Seq<char>, b: Index|
                self.valid(b) && #[trigger] self.img(b).has_label(t) implies tag_has(self.taglist@, t, b) by {
                assert(before(b, f as int, 0));
            }
        }
    }
}

impl Data {
    /// Whether the index lists image `a` under value `t`, read off the image itself.
    fn labelled(&self, a: Index, t: &str) -> (r: bool)
        requires
            self.wf(),
            self.valid(a),
        ensures
            r == tag_has(self.taglist@, t@, a),
    {
        let img = &self.folders[a.folder].images[a.image];
        let r = contains_string(&img.artists, t) || contains_string(&img.tags, t);
        assert(r == self.img(a).has_label(t@));
        r
    }

    /// Whether image `a` passes the query `inc`, `exc`.
    fn passes_query(&self, a: Index, inc: &Vec<String>, exc: &Vec<String>) -> (r: bool)
        requires
            self.wf(),
            self.valid(a),
        ensures
            r == passes(self.taglist@, strings(inc@), strings(exc@), a),
    {
        let ghost m = self.taglist@;
        let mut k: usize = 0;
        while k < inc.len()
            invariant
                self.wf(),
                self.valid(a),
                m == self.taglist@,
                k <= inc.len(),
                forall|q: int| 0 <= q < k ==> tag_has(m, #[trigger] strings(inc@)[q], a),
            decreases inc.len() - k,
        {
            if !self.labelled(a, inc[k].as_str()) {
                assert(!tag_has(m, strings(inc@)[k as int], a));
                return false;
            }
            k = k + 1;
        }
        let mut k: usize = 0;
        while k < exc.len()
            invariant
                self.wf(),
                self.valid(a),
                m == self.taglist@,
                k <= exc.len(),
                forall|q: int| 0 <= q < inc.len() ==> tag_has(m, #[trigger] strings(inc@)[q], a),
                forall|q: int| 0 <= q < k ==> !tag_has(m, #[trigger] strings(exc@)[q], a),
            decreases exc.len() - k,
        {
            if self.labelled(a, exc[k].as_str()) {
                assert(tag_has(m, strings(exc@)[k as int], a));
                return false;
            }
            k = k + 1;
        }
        true
    }

    /// Evaluates a query: for each folder, in order, the addresses of its images
    /// that carry every value of `tags` and no value of `itags`, in image order.
    /// With no inclusion values every image is a candidate.
    pub fn build_vector(&self, tags: Vec<String>, itags: Vec<String>) -> (r: Vec<Vec<Index>>)
        requires
            self.wf(),
        ensures
            r@.map_values(|v: Vec<Index>| v@) == self.query_result(strings(tags@), strings(itags@)),
    {
        let ghost inc = strings(tags@);
        let ghost exc = strings(itags@);
        let ghost m = self.taglist@;
        let mut out: Vec<Vec<Index>> = Vec::new();
        let mut f: usize = 0;
        while f < self.folders.len()
            invariant
                self.wf(),
                m == self.taglist@,
                inc == strings(tags@),
                exc == strings(itags@),
                f <= self.folders.len(),
                out@.len() == f,
                forall|g: int| 0 <= g < f ==> (#[trigger] out@[g])@ == select(m, inc, exc, g as usize, self.folders@[g].images@.len()),
            decreases self.folders.len() - f,
        {
            let mut v: Vec<Index> = Vec::new();
            let mut i: usize = 0;
            while i < self.folders[f].images.len()
                invariant
                    self.wf(),
                    m == self.taglist@,
                    inc == strings(tags@),
                    exc == strings(itags@),
                    f < self.folders.len(),
                    i <= self.folders@[f as int].images@.len(),
                    v@ == select(m, inc, exc, f, i as nat),
                decreases self.folders@[f as int].images@.len() - i,
            {
                let a = Index { folder: f, image: i };
                assert(self.valid(a));
                if self.passes_query(a, &tags, &itags) {
                    v.push(a);
                }
                i = i + 1;
            }
            out.push(v);
            f = f + 1;
        }
        assert(out@.map_values(|v: Vec<Index>| v@) =~= self.query_result(inc, exc));
        out
    }
}

/// The bulk-read output of one folder, as the sidecar returned it.
pub struct FolderRead {
    pub path: String,
    pub output: String,
}

/// Whether `c` separates path components.
pub open spec fn is_separator(c: char) -> bool {
    c == '/' || c == '\\'
}

/// The position of the first separator of `t` at or after `k`, or the length of `t`.
pub open spec fn separator_from(t: Seq<char>, k: int) -> int
    decreases t.len() - k,
{
    if k < 0 || k >= t.len() {
        t.len() as int
    } else if is_separator(t[k]) {
        k
    } else {
        separator_from(t, k + 1)
    }
}

/// The last 18 characters of a long path, from its first separator where it has one.
pub open spec fn label_tail(t: Seq<char>) -> Seq<char> {
    let k = separator_from(t, 0);
    if k < t.len() {
        t.subrange(k, t.len() as int)
    } else {
        t
    }
}

/// The label shown for a folder: a path longer than 20 characters is cut to
/// its last 18, starting at a component boundary where one falls among them,
/// after an ellipsis.
pub open spec fn label_of(p: Seq<char>) -> Seq<char> {
    if p.len() > 20 {
        seq!['.', '.', '.'] + label_tail(p.subrange(p.len() - 18, p.len() as int))
    } else {
        p
    }
}

/// The label shown for the folder at `path`.
pub fn folder_label(path: &str) -> (r: String)
    ensures
        r@ == label_of(path@),
{
    let n = path.unicode_len();
    if n > 20 {
        let tail = path.substring_char(n - 18, n);
        let mut k: usize = 0;
        while k < 18 && !(tail.get_char(k) == '/' || tail.get_char(k) == '\\')
            invariant
                tail@.len() == 18,
                k <= 18,
                separator_from(tail@, 0) == separator_from(tail@, k as int),
            decreases 18 - k,
        {
            k = k + 1;
        }
        let mut r = String::new();
        crate::text::push_char(&mut r, '.');
        crate::text::push_char(&mut r, '.');
        crate::text::push_char(&mut r, '.');
        if k < 18 {
            r.append(tail.substring_char(k, 18));
        } else {
            r.append(tail);
        }
        r
    } else {
        String::from_str(path)
    }
}

/// `f` is the folder opened at `path` whose bulk read gave `output`.
pub open spec fn folder_from(f: Folder, path: Seq<char>, output: Seq<char>) -> bool {
    &&& f.path@ == path
    &&& f.btn_path@ == label_of(path)
    &&& !f.collapsed
    &&& images_from(output, f.images@.map_values(|im: Image| im@))
}

impl Data {
    /// Whether `a` is the address of the image `path` in the folder `dir`.
    pub open spec fn locates(self, dir: Seq<char>, path: Seq<char>, a: Index) -> bool {
        self.valid(a) && self.folders@[a.folder as int].path@ == dir && self.img(a).file == path
    }

    /// The folders and images of `self` and `other` stand at the same addresses, under the
    /// same paths, and every image but the one at `a` is the same.
    pub open spec fn same_except(self, other: Data, a: Index) -> bool {
        &&& self.folders@.len() == other.folders@.len()
        &&& forall|f: int| 0 <= f < self.folders@.len() ==> {
            &&& (#[trigger] self.folders@[f]).path == other.folders@[f].path
            &&& self.folders@[f].btn_path == other.folders@[f].btn_path
            &&& self.folders@[f].collapsed == other.folders@[f].collapsed
            &&& self.folders@[f].images@.len() == other.folders@[f].images@.len()
        }
        &&& forall|b: Index| #[trigger] self.valid(b) && b != a ==> self.img(b) == other.img(b)
    }

    /// Sorts the folder paths to open and drops repeats.
    pub fn seperate_folders(paths: &Vec<String>) -> (r: Vec<String>)
        ensures
            strictly_sorted(strings(r@)),
            strings(r@).to_set() == strings(paths@).to_set(),
    {
        sorted_unique(paths)
    }

    /// Registers the folder at `path` with the images of its bulk-read `output`.
    /// Output that is not a JSON array registers the folder with no images.
    /// The index is left for `build_tags`.
    pub fn set_folder_data(&mut self, path: String, output: &str)
        requires
            old(self).images_wf(),
        ensures
            final(self).images_wf(),
            final(self).taglist == old(self).taglist,
            final(self).folders@.len() == old(self).folders@.len() + 1,
            forall|f: int| 0 <= f < old(self).folders@.len() ==> #[trigger] final(self).folders@[f]
                == old(self).folders@[f],
            folder_from(final(self).folders@.last(), path@, output@),
    {
        let btn_path = folder_label(path.as_str());
        let images = read_images(output);
        let folder = Folder { path, btn_path, collapsed: false, images };
        let ghost before = *self;
        self.folders.push(folder);
        proof {
            let ims = self.folders@.last().images@.map_values(|im: Image| im@);
            assert forall|a: Index| #[trigger] self.valid(a) implies self.img(a).wf() by {
                if a.folder < before.folders@.len() {
                    assert(before.valid(a));
                } else {
                    match crate::json::records(output@) {
                        Some(items) => {
                            assert(ims[a.image as int] == self.img(a));
                            assert(crate::json::image_from(crate::json::kept(items)[a.image as int], ims[a.image as int]));
                        },
                        None => {},
                    }
                }
            }
        }
    }

    /// The address of the image `path` in the folder `dir`: the first in catalog order.
    pub fn get_path_index(&self, dir: &str, path: &str) -> (r: Option<Index>)
        ensures
            r matches Some(a) ==> self.locates(dir@, path@, a) && forall|b: Index|
                #[trigger] index_lt(b, a) ==> !self.locates(dir@, path@, b),
            r is None ==> forall|b: Index| !#[trigger] self.locates(dir@, path@, b),
    {
        let mut f: usize = 0;
        while f < self.folders.len()
            invariant
                f <= self.folders.len(),
                forall|b: Index| b.folder < f ==> !#[trigger] self.locates(dir@, path@, b),
            decreases self.folders.len() - f,
        {
            if compare_text(self.folders[f].path.as_str(), dir) == 0 {
                let mut i: usize = 0;
                while i < self.folders[f].images.len()
                    invariant
                        f < self.folders.len(),
                        i <= self.folders@[f as int].images@.len(),
                        self.folders@[f as int].path@ == dir@,
                        forall|b: Index| b.folder < f ==> !#[trigger] self.locates(dir@, path@, b),
                        forall|b: Index| b.folder == f && b.image < i ==> !#[trigger] self.locates(dir@, path@, b),
                    decreases self.folders@[f as int].images@.len() - i,
                {
                    if compare_text(self.folders[f].images[i].file.as_str(), path) == 0 {
                        let a = Index { folder: f, image: i };
                        assert(self.locates(dir@, path@, a));
                        return Some(a);
                    }
                    i = i + 1;
                }
            }
            f = f + 1;
        }
        None
    }

    /// Whether a folder opened at `path` is registered.
    pub fn has_folder(&self, path: &str) -> (r: bool)
        ensures
            r == exists|f: int| 0 <= f < self.folders@.len() && (#[trigger] self.folders@[f]).path@ == path@,
    {
        let mut f: usize = 0;
        while f < self.folders.len()
            invariant
                f <= self.folders.len(),
                forall|g: int| 0 <= g < f ==> (#[trigger] self.folders@[g]).path@ != path@,
            decreases self.folders.len() - f,
        {
            if compare_text(self.folders[f].path.as_str(), path) == 0 {
                return true;
            }
            f = f + 1;
        }
        false
    }

    /// Opens folders from their bulk reads, in the order given, skipping a read
    /// whose folder is already registered or was read earlier in the same call,
    /// and rebuilds the index. Where `opened` names a file as (folder, path),
    /// returns its address, or the first address where it is not found; else `None`.
    pub fn open_folders(&mut self, reads: Vec<FolderRead>, opened: Option<(String, String)>) -> (r: Option<Index>)
        requires
            old(self).wf(),
        ensures
            final(self).wf(),
            final(self).folders_opened(*old(self), reads@),
            paths_distinct(old(self).folders@) ==> paths_distinct(final(self).folders@),
            opened is None ==> r is None,
            opened matches Some((dir, path)) ==> r matches Some(a) && (final(self).locates(dir@, path@, a)
                || (a == (Index { folder: 0, image: 0 }) && forall|b: Index|
                    !#[trigger] final(self).locates(dir@, path@, b))),
    {
        let ghost n0 = self.folders@.len();
        let ghost p0 = folder_paths(self.folders@);
        let mut k: usize = 0;
        while k < reads.len()
            invariant
                self.images_wf(),
                k <= reads@.len(),
                n0 == old(self).folders@.len(),
                p0 == folder_paths(old(self).folders@),
                self.folders@.len() == n0 + kept_reads(p0, reads@.subrange(0, k as int)).len(),
                forall|f: int| 0 <= f < n0 ==> #[trigger] self.folders@[f] == old(self).folders@[f],
                forall|q: int| 0 <= q < kept_reads(p0, reads@.subrange(0, k as int)).len() ==> folder_from(
                    #[trigger] self.folders@[n0 + q],
                    kept_reads(p0, reads@.subrange(0, k as int))[q].path@,
                    kept_reads(p0, reads@.subrange(0, k as int))[q].output@,
                ),
                paths_distinct(old(self).folders@) ==> paths_distinct(self.folders@),
            decreases reads@.len() - k,
        {
            let ghost kept = kept_reads(p0, reads@.subrange(0, k as int));
            let ghost rd = reads@[k as int];
            assert(reads@.subrange(0, k + 1).drop_last() =~= reads@.subrange(0, k as int));
            assert(reads@.subrange(0, k + 1).last() == rd);
            let known = self.has_folder(reads[k].path.as_str());
            proof {
                assert(known == (p0.contains(rd.path@) || read_paths(kept).contains(rd.path@))) by {
                    if known {
                        let f = choose|f: int| 0 <= f < self.folders@.len() && (#[trigger] self.folders@[f]).path@ == rd.path@;
                        if f < n0 {
                            assert(p0[f] == rd.path@);
                        } else {
                            let q = f - n0;
                            assert(n0 + q == f);
                            assert(folder_from(self.folders@[n0 + q], kept[q].path@, kept[q].output@));
                            assert(read_paths(kept)[q] == rd.path@);
                        }
                    }
                    if p0.contains(rd.path@) {
                        let f = choose|f: int| 0 <= f < p0.len() && p0[f] == rd.path@;
                        assert(self.folders@[f].path@ == rd.path@);
                    }
                    if read_paths(kept).contains(rd.path@) {
                        let q = choose|q: int| 0 <= q < read_paths(kept).len() && read_paths(kept)[q] == rd.path@;
                        assert(self.folders@[n0 + q].path@ == rd.path@);
                    }
                }
            }
            if !known {
                let ghost before = self.folders@;
                self.set_folder_data(reads[k].path.clone(), reads[k].output.as_str());
                proof {
                    let kept2 = kept_reads(p0, reads@.subrange(0, k + 1));
                    assert(kept2 == kept.push(rd));
                    assert forall|q: int| 0 <= q < kept2.len() implies folder_from(
                        #[trigger] self.folders@[n0 + q],
                        kept2[q].path@,
                        kept2[q].output@,
                    ) by {
                        if q < kept.len() {
                            assert(self.folders@[n0 + q] == before[n0 + q]);
                        }
                    }
                    if paths_distinct(old(self).folders@) {
                        assert forall|i: int, j: int| 0 <= i < j < self.folders@.len() implies
                            (#[trigger] self.folders@[i]).path@ != (#[trigger] self.folders@[j]).path@ by {
                            if j == self.folders@.len() - 1 {
                                assert(self.folders@[i] == before[i]);
                            } else {
                                assert(self.folders@[i] == before[i]);
                                assert(self.folders@[j] == before[j]);
                            }
                        }
                    }
                }
            }
            k = k + 1;
        }
        assert(reads@.subrange(0, k as int) =~= reads@);
        self.build_tags();
        match opened {
            Some((dir, path)) => match self.get_path_index(dir.as_str(), path.as_str()) {
                Some(a) => Some(a),
                None => Some(Index { folder: 0, image: 0 }),
            },
            None => None,
        }
    }
}

impl Data {
    /// `self` is `before` with the folders of the kept `reads` registered after
    /// its own, in order, each as its read says.
    pub open spec fn folders_opened(self, before: Data, reads: Seq<FolderRead>) -> bool {
        let kept = kept_reads(folder_paths(before.folders@), reads);
        &&& self.folders@.len() == before.folders@.len() + kept.len()
        &&& forall|f: int| 0 <= f < before.folders@.len() ==> #[trigger] self.folders@[f]
            == before.folders@[f]
        &&& forall|k: int| 0 <= k < kept.len() ==> folder_from(
            #[trigger] self.folders@[before.folders@.len() + k],
            kept[k].path@,
            kept[k].output@,
        )
    }
}

/// All of `items` name their file, so all are kept.
proof fn lemma_kept_all(items: Seq<Value>)
    requires
        forall|k: int| 0 <= k < items.len() ==> has_file(#[trigger] items[k]),
    ensures
        kept(items) == items,
    decreases items.len(),
{
    if items.len() > 0 {
        lemma_kept_all(items.drop_last());
        assert(has_file(items[items.len() - 1]));
        assert(items.drop_last().push(items.last()) =~= items);
    }
}

/// Opening two new folders where the bulk read of the first is not a JSON array:
/// the first is registered once, with no images, and the second is opened as its
/// own read says; where its read is an array of records that all name their file,
/// it holds one image per record, in record order.
pub proof fn lemma_bad_read_isolated(before: Data, after: Data, reads: Seq<FolderRead>)
    requires
        after.folders_opened(before, reads),
        reads.len() == 2,
        reads[0].path@ != reads[1].path@,
        !folder_paths(before.folders@).contains(reads[0].path@),
        !folder_paths(before.folders@).contains(reads[1].path@),
        records(reads[0].output@) is None,
    ensures
        ({
            let n = before.folders@.len() as int;
            &&& after.folders@.len() == n + 2
            &&& after.folders@[n].path@ == reads[0].path@
            &&& after.folders@[n].images@.len() == 0
            &&& forall|f: int| 0 <= f < after.folders@.len() && (#[trigger] after.folders@[f]).path@
                == reads[0].path@ ==> f == n
            &&& folder_from(after.folders@[n + 1], reads[1].path@, reads[1].output@)
            &&& match records(reads[1].output@) {
                Some(items) => (forall|k: int| 0 <= k < items.len() ==> has_file(#[trigger] items[k]))
                    ==> {
                    &&& after.folders@[n + 1].images@.len() == items.len()
                    &&& forall|k: int| 0 <= k < items.len() ==> (#[trigger] after.folders@[n
                        + 1].images@[k]).file@ == text_member(items[k], "SourceFile"@)
                },
                None => true,
            }
        }),
{
    let p0 = folder_paths(before.folders@);
    let n = before.folders@.len() as int;
    let r0 = seq![reads[0]];
    assert(reads.drop_last() =~= r0);
    assert(r0.drop_last() =~= Seq::<FolderRead>::empty());
    assert(kept_reads(p0, r0.drop_last()) == Seq::<FolderRead>::empty());
    assert(read_paths(Seq::<FolderRead>::empty()) =~= Seq::<Seq<char>>::empty());
    assert(r0.last() == reads[0]);
    assert(kept_reads(p0, r0) =~= Seq::<FolderRead>::empty().push(reads[0]));
    assert(kept_reads(p0, r0) =~= r0);
    assert(read_paths(r0) =~= seq![reads[0].path@]);
    assert(!read_paths(r0).contains(reads[1].path@)) by {
        if read_paths(r0).contains(reads[1].path@) {
            let w = choose|w: int| 0 <= w < read_paths(r0).len() && read_paths(r0)[w] == reads[1].path@;
        }
    }
    assert(kept_reads(p0, reads) =~= reads);
    assert(folder_from(after.folders@[n + 0], reads[0].path@, reads[0].output@));
    assert(folder_from(after.folders@[n + 1], reads[1].path@, reads[1].output@));
    assert(after.folders@[n + 0] == after.folders@[n]);
    assert forall|f: int| 0 <= f < after.folders@.len() && (#[trigger] after.folders@[f]).path@
        == reads[0].path@ implies f == n by {
        if f < n {
            assert(after.folders@[f] == before.folders@[f]);
            assert(p0[f] == reads[0].path@);
        }
    }
    match records(reads[1].output@) {
        Some(items) => {
            if forall|k: int| 0 <= k < items.len() ==> has_file(#[trigger] items[k]) {
                lemma_kept_all(items);
                let ims = after.folders@[n + 1].images@.map_values(|im: Image| im@);
                assert forall|k: int| 0 <= k < items.len() implies (#[trigger] after.folders@[n + 1].images@[k]).file@
                    == text_member(items[k], "SourceFile"@) by {
                    assert(image_from(kept(items)[k], ims[k]));
                }
            }
        },
        None => {},
    }
}

/// The paths of folders.
pub open spec fn folder_paths(fs: Seq<Folder>) -> Seq<Seq<char>> {
    fs.map_values(|f: Folder| f.path@)
}

/// The paths of folder reads.
pub open spec fn read_paths(rs: Seq<FolderRead>) -> Seq<Seq<char>> {
    rs.map_values(|r: FolderRead| r.path@)
}

/// No two folders share a path.
pub open spec fn paths_distinct(fs: Seq<Folder>) -> bool {
    forall|i: int, j: int| 0 <= i < j < fs.len() ==> (#[trigger] fs[i]).path@ != (#[trigger] fs[j]).path@
}

/// The reads that open a folder: in order, each read whose path is neither among
/// `paths` (already registered) nor the path of an earlier kept read.
pub open spec fn kept_reads(paths: Seq<Seq<char>>, reads: Seq<FolderRead>) -> Seq<FolderRead>
    decreases reads.len(),
{
    if reads.len() == 0 {
        seq![]
    } else {
        let prev = kept_reads(paths, reads.drop_last());
        let p = reads.last().path@;
        if paths.contains(p) || read_paths(prev).contains(p) {
            prev
        } else {
            prev.push(reads.last())
        }
    }
}

impl Data {
    /// Adds a tag, lower-cased, to the image at `img_index` and lists the image
    /// under it in the index. Returns the sidecar command that writes the image's
    /// new tag list, or `None` where the address names no image (nothing changes).
    pub fn add_tag(&mut self, img_index: &Index, tag: &str) -> (r: Option<String>)
        requires
            old(self).wf(),
        ensures
            final(self).wf(),
            old(self).valid(*img_index) ==> final(self).img(*img_index).tags.to_set() == old(self).img(
                *img_index,
            ).tags.to_set().insert(lower_of(tag@)),
            !old(self).valid(*img_index) ==> r is None && *final(self) == *old(self),
            old(self).valid(*img_index) ==> {
                let a = *img_index;
                let im = final(self).img(a);
                &&& final(self).tag_added(*old(self), a, lower_of(tag@))
                &&& r matches Some(c) && c@ == WRITE_FLAGS@ + "-ImageDescription="@ + list_text(im.tags)
                    + seq!['\n'] + im.file + EXECUTE_LINE@
            },
    {
        let a = *img_index;
        if !(a.folder < self.folders.len() && a.image < self.folders[a.folder].images.len()) {
            return None;
        }
        let ghost before = *self;
        let t = lowercase(tag);
        assert(self.valid(a));
        self.folders[a.folder].images[a.image].add_tag(tag);
        Self::add_taglist(&mut self.taglist, a, t.as_str());
        proof {
            assert(self.img(a).tags.to_set().contains(lower_of(tag@)));
            self.lemma_edit_keeps_wf(before, a, lower_of(tag@), true);
        }
        let img = &self.folders[a.folder].images[a.image];
        let list = build_string(&img.tags);
        Some(set_tags(img.file.as_str(), list.as_str()))
    }

    /// `self` is `before` with one image edited: an index entry for `x` was added
    /// (`added`) or, where the image no longer carries `x`, taken out.
    proof fn lemma_edit_keeps_wf(self, before: Data, a: Index, x: Seq<char>, added: bool)
        requires
            before.wf(),
            before.valid(a),
            self.same_except(before, a),
            self.img(a).wf(),
            self.img(a).artists.to_set() == before.img(a).artists.to_set().insert(x) || self.img(
                a,
            ).artists.to_set() == before.img(a).artists.to_set().remove(x) || self.img(a).artists
                == before.img(a).artists,
            self.img(a).tags.to_set() == before.img(a).tags.to_set().insert(x) || self.img(
                a,
            ).tags.to_set() == before.img(a).tags.to_set().remove(x) || self.img(a).tags
                == before.img(a).tags,
            added ==> self.img(a).has_label(x),
            !added ==> (self.img(a).has_label(x) ==> before.img(a).has_label(x)),
            buckets_ok(self.taglist@),
            forall|t: Seq<char>, b: Index| #[trigger] tag_has(self.taglist@, t, b) == (if added {
                tag_has(before.taglist@, t, b) || (t == x && b == a)
            } else {
                tag_has(before.taglist@, t, b) && !(t == x && b == a && !self.img(a).has_label(x))
            }),
        ensures
            self.wf(),
    {
        assert forall|t: Seq<char>| t != x implies self.img(a).has_label(t) == before.img(a).has_label(t) by {
            assert(self.img(a).artists.to_set().contains(t) == self.img(a).artists.contains(t));
            assert(before.img(a).artists.to_set().contains(t) == before.img(a).artists.contains(t));
            assert(self.img(a).tags.to_set().contains(t) == self.img(a).tags.contains(t));
            assert(before.img(a).tags.to_set().contains(t) == before.img(a).tags.contains(t));
        }
        assert forall|b: Index| #[trigger] self.valid(b) implies self.img(b).wf() by {
            assert(before.valid(b));
            if b != a {
                assert(self.img(b) == before.img(b));
            }
        }
        assert forall|t: Seq<char>, b: Index| #[trigger] tag_has(self.taglist@, t, b) implies
            self.valid(b) && self.img(b).has_label(t) by {
            if b != a && tag_has(before.taglist@, t, b) {
                assert(before.valid(b));
                assert(self.valid(b));
                assert(self.img(b) == before.img(b));
            }
            if b == a && t != x {
                assert(tag_has(before.taglist@, t, b));
            }
        }
        assert forall|t: Seq<char>, b: Index|
            self.valid(b) && #[trigger] self.img(b).has_label(t) implies tag_has(self.taglist@, t, b) by {
            assert(before.valid(b));
            if b != a {
                assert(self.img(b) == before.img(b));
            }
            if b == a && t != x {
                assert(before.img(a).has_label(t));
            }
        }
    }
}

impl Data {
    /// Removes a tag, lower-cased, from the image at `img_index`, and takes the
    /// image out of the index under it unless it still carries it as an artist.
    /// Returns the sidecar command that writes the image's new tag list, or
    /// `None` where the address names no image (nothing changes).
    pub fn del_tag(&mut self, img_index: &Index, tag: &str) -> (r: Option<String>)
        requires
            old(self).wf(),
        ensures
            final(self).wf(),
            old(self).valid(*img_index) ==> final(self).img(*img_index).tags.to_set() == old(self).img(
                *img_index,
            ).tags.to_set().remove(lower_of(tag@)),
            !old(self).valid(*img_index) ==> r is None && *final(self) == *old(self),
            old(self).valid(*img_index) ==> {
                let a = *img_index;
                let im = final(self).img(a);
                &&& final(self).tag_removed(*old(self), a, lower_of(tag@))
                &&& r matches Some(c) && c@ == WRITE_FLAGS@ + "-ImageDescription="@ + list_text(im.tags)
                    + seq!['\n'] + im.file + EXECUTE_LINE@
            },
    {
        let a = *img_index;
        if !(a.folder < self.folders.len() && a.image < self.folders[a.folder].images.len()) {
            return None;
        }
        let ghost before = *self;
        let t = lowercase(tag);
        assert(self.valid(a));
        self.folders[a.folder].images[a.image].remove_tag(tag);
        let still = contains_string(&self.folders[a.folder].images[a.image].artists, t.as_str())
            || contains_string(&self.folders[a.folder].images[a.image].tags, t.as_str());
        assert(still == self.img(a).has_label(t@));
        if !still {
            Self::rem_taglist(&mut self.taglist, a, t.as_str());
        }
        proof {
            assert(!self.img(a).tags.to_set().contains(lower_of(tag@)));
            self.lemma_edit_keeps_wf(before, a, lower_of(tag@), false);
        }
        let img = &self.folders[a.folder].images[a.image];
        let list = build_string(&img.tags);
        Some(set_tags(img.file.as_str(), list.as_str()))
    }

    /// Adds an artist to the image at `img_index` and lists the image under it in
    /// the index. Returns the sidecar command that writes the image's new artist
    /// list, or `None` where the address names no image (nothing changes).
    pub fn add_artist(&mut self, img_index: &Index, artist: &str) -> (r: Option<String>)
        requires
            old(self).wf(),
        ensures
            final(self).wf(),
            old(self).valid(*img_index) ==> final(self).img(*img_index).artists.to_set() == old(self).img(
                *img_index,
            ).artists.to_set().insert(artist@),
            !old(self).valid(*img_index) ==> r is None && *final(self) == *old(self),
            old(self).valid(*img_index) ==> {
                let a = *img_index;
                let im = final(self).img(a);
                &&& final(self).same_except(*old(self), a)
                &&& im == (ImageView { artists: im.artists, ..old(self).img(a) })
                &&& inserted_into(im.artists, old(self).img(a).artists, artist@)
                &&& forall|t: Seq<char>, b: Index| #[trigger] tag_has(final(self).taglist@, t, b) == (
                    tag_has(old(self).taglist@, t, b) || (t == artist@ && b == a))
                &&& r matches Some(c) && c@ == WRITE_FLAGS@ + "-Artist="@ + list_text(im.artists)
                    + seq!['\n'] + im.file + EXECUTE_LINE@
            },
    {
        let a = *img_index;
        if !(a.folder < self.folders.len() && a.image < self.folders[a.folder].images.len()) {
            return None;
        }
        let ghost before = *self;
        assert(self.valid(a));
        self.folders[a.folder].images[a.image].add_artist(artist);
        Self::add_taglist(&mut self.taglist, a, artist);
        proof {
            assert(self.img(a).artists.to_set().contains(artist@));
            self.lemma_edit_keeps_wf(before, a, artist@, true);
        }
        let img = &self.folders[a.folder].images[a.image];
        let list = build_string(&img.artists);
        Some(set_artist(img.file.as_str(), list.as_str()))
    }

    /// Removes an artist from the image at `img_index`, and takes the image out of
    /// the index under it unless it still carries it as a tag. Returns the sidecar
    /// command that writes the image's new artist list, or `None` where the
    /// address names no image (nothing changes).
    pub fn del_artist(&mut self, img_index: &Index, artist: &str) -> (r: Option<String>)
        requires
            old(self).wf(),
        ensures
            final(self).wf(),
            old(self).valid(*img_index) ==> final(self).img(*img_index).artists.to_set() == old(self).img(
                *img_index,
            ).artists.to_set().remove(artist@),
            !old(self).valid(*img_index) ==> r is None && *final(self) == *old(self),
            old(self).valid(*img_index) ==> {
                let a = *img_index;
                let im = final(self).img(a);
                &&& final(self).same_except(*old(self), a)
                &&& im == (ImageView { artists: im.artists, ..old(self).img(a) })
                &&& removed_from(im.artists, old(self).img(a).artists, artist@)
                &&& forall|t: Seq<char>, b: Index| #[trigger] tag_has(final(self).taglist@, t, b) == (
                    tag_has(old(self).taglist@, t, b) && !(t == artist@ && b == a && !im.has_label(t)))
                &&& r matches Some(c) && c@ == WRITE_FLAGS@ + "-Artist="@ + list_text(im.artists)
                    + seq!['\n'] + im.file + EXECUTE_LINE@
            },
    {
        let a = *img_index;
        if !(a.folder < self.folders.len() && a.image < self.folders[a.folder].images.len()) {
            return None;
        }
        let ghost before = *self;
        assert(self.valid(a));
        self.folders[a.folder].images[a.image].remove_artist(artist);
        let still = contains_string(&self.folders[a.folder].images[a.image].artists, artist)
            || contains_string(&self.folders[a.folder].images[a.image].tags, artist);
        assert(still == self.img(a).has_label(artist@));
        if !still {
            Self::rem_taglist(&mut self.taglist, a, artist);
        }
        proof {
            assert(!self.img(a).artists.to_set().contains(artist@));
            self.lemma_edit_keeps_wf(before, a, artist@, false);
        }
        let img = &self.folders[a.folder].images[a.image];
        let list = build_string(&img.artists);
        Some(set_artist(img.file.as_str(), list.as_str()))
    }

    /// After an edit of the image at `a` that kept its artists and tags, `self` is well formed.
    proof fn lemma_labels_kept(self, before: Data, a: Index)
        requires
            before.wf(),
            before.valid(a),
            self.same_except(before, a),
            self.img(a).wf(),
            self.img(a).artists == before.img(a).artists,
            self.img(a).tags == before.img(a).tags,
            self.taglist == before.taglist,
        ensures
            self.wf(),
    {
        assert forall|b: Index| #[trigger] self.valid(b) implies self.img(b).wf() by {
            assert(before.valid(b));
            if b != a {
                assert(self.img(b) == before.img(b));
            }
        }
        assert forall|t: Seq<char>, b: Index| #[trigger] tag_has(self.taglist@, t, b) implies
            self.valid(b) && self.img(b).has_label(t) by {
            assert(before.valid(b));
            assert(self.folders@[b.folder as int].images@.len() == before.folders@[b.folder as int].images@.len());
            assert(self.valid(b));
            if b != a {
                assert(self.img(b) == before.img(b));
            }
        }
        assert forall|t: Seq<char>, b: Index|
            self.valid(b) && #[trigger] self.img(b).has_label(t) implies tag_has(self.taglist@, t, b) by {
            assert(before.valid(b));
            if b != a {
                assert(self.img(b) == before.img(b));
            }
            assert(before.img(b).has_label(t));
        }
    }

    /// Adds a source link to the image at `img_index`. Returns the sidecar command
    /// that writes the image's new link list, or `None` where the address names no
    /// image (nothing changes).
    pub fn add_link(&mut self, img_index: &Index, link: &str) -> (r: Option<String>)
        requires
            old(self).wf(),
        ensures
            final(self).wf(),
            final(self).taglist == old(self).taglist,
            old(self).valid(*img_index) ==> final(self).img(*img_index).links.to_set() == old(self).img(
                *img_index,
            ).links.to_set().insert(link@),
            !old(self).valid(*img_index) ==> r is None && *final(self) == *old(self),
            old(self).valid(*img_index) ==> {
                let a = *img_index;
                let im = final(self).img(a);
                &&& final(self).same_except(*old(self), a)
                &&& im == (ImageView { links: im.links, ..old(self).img(a) })
                &&& inserted_into(im.links, old(self).img(a).links, link@)
                &&& r matches Some(c) && c@ == WRITE_FLAGS@ + "-PageName="@ + list_text(im.links)
                    + seq!['\n'] + im.file + EXECUTE_LINE@
            },
    {
        let a = *img_index;
        if !(a.folder < self.folders.len() && a.image < self.folders[a.folder].images.len()) {
            return None;
        }
        let ghost before = *self;
        assert(self.valid(a));
        self.folders[a.folder].images[a.image].add_link(link);
        proof {
            assert(self.img(a).links.to_set().contains(link@));
            self.lemma_labels_kept(before, a);
        }
        let img = &self.folders[a.folder].images[a.image];
        let list = build_string(&img.links);
        Some(set_link(img.file.as_str(), list.as_str()))
    }

    /// Removes a source link from the image at `img_index`. Returns the sidecar
    /// command that writes the image's new link list, or `None` where the address
    /// names no image (nothing changes).
    pub fn del_link(&mut self, img_index: &Index, link: &str) -> (r: Option<String>)
        requires
            old(self).wf(),
        ensures
            final(self).wf(),
            final(self).taglist == old(self).taglist,
            old(self).valid(*img_index) ==> final(self).img(*img_index).links.to_set() == old(self).img(
                *img_index,
            ).links.to_set().remove(link@),
            !old(self).valid(*img_index) ==> r is None && *final(self) == *old(self),
            old(self).valid(*img_index) ==> {
                let a = *img_index;
                let im = final(self).img(a);
                &&& final(self).same_except(*old(self), a)
                &&& im == (ImageView { links: im.links, ..old(self).img(a) })
                &&& removed_from(im.links, old(self).img(a).links, link@)
                &&& r matches Some(c) && c@ == WRITE_FLAGS@ + "-PageName="@ + list_text(im.links)
                    + seq!['\n'] + im.file + EXECUTE_LINE@
            },
    {
        let a = *img_index;
        if !(a.folder < self.folders.len() && a.image < self.folders[a.folder].images.len()) {
            return None;
        }
        let ghost before = *self;
        assert(self.valid(a));
        self.folders[a.folder].images[a.image].remove_link(link);
        proof {
            assert(!self.img(a).links.to_set().contains(link@));
            self.lemma_labels_kept(before, a);
        }
        let img = &self.folders[a.folder].images[a.image];
        let list = build_string(&img.links);
        Some(set_link(img.file.as_str(), list.as_str()))
    }

    /// Sets the notes of the image at `img_index`. Returns the sidecar command that
    /// writes them, quotes escaped, or `None` where the address names no image
    /// (nothing changes).
    pub fn set_notes(&mut self, img_index: &Index, notes: &str) -> (r: Option<String>)
        requires
            old(self).wf(),
        ensures
            final(self).wf(),
            final(self).taglist == old(self).taglist,
            !old(self).valid(*img_index) ==> r is None && *final(self) == *old(self),
            old(self).valid(*img_index) ==> {
                let a = *img_index;
                let im = final(self).img(a);
                &&& final(self).same_except(*old(self), a)
                &&& im == (ImageView { notes: notes@, ..old(self).img(a) })
                &&& r matches Some(c) && c@ == WRITE_FLAGS@ + "-UserComment="@ + (seq!['"'] + escaped(
                    notes@,
                ) + seq!['"']) + seq!['\n'] + im.file + EXECUTE_LINE@
            },
    {
        let a = *img_index;
        if !(a.folder < self.folders.len() && a.image < self.folders[a.folder].images.len()) {
            return None;
        }
        let ghost before = *self;
        assert(self.valid(a));
        self.folders[a.folder].images[a.image].notes = String::from_str(notes);
        proof {
            self.lemma_labels_kept(before, a);
        }
        let img = &self.folders[a.folder].images[a.image];
        let altered = escape_quotes(notes);
        Some(set_notes(img.file.as_str(), altered.as_str()))
    }
}

/// The first position of a folder opened at `path`.
pub open spec fn first_folder(folders: Seq<Folder>, path: Seq<char>, p: int) -> bool {
    0 <= p < folders.len() && folders[p].path@ == path && forall|q: int|
        0 <= q < p ==> (#[trigger] folders[q]).path@ != path
}

impl Data {
    /// Closes the first folder opened at `path`, if any, rebuilds the index and
    /// evaluates the query of `data_shared` again. Addresses in later folders move
    /// down by one folder.
    pub fn close_folder(&mut self, data_shared: &mut Shared, path: &str)
        requires
            old(self).wf(),
        ensures
            final(self).wf(),
            (exists|p: int| first_folder(old(self).folders@, path@, p)) ==> exists|p: int|
                first_folder(old(self).folders@, path@, p) && final(self).folders@ == old(
                    self,
                ).folders@.remove(p),
            !(exists|p: int| first_folder(old(self).folders@, path@, p)) ==> final(self).folders@
                == old(self).folders@,
            final(data_shared).search == old(data_shared).search,
            result_seqs(final(data_shared).results@) == final(self).query_result(
                inclusions(words(old(data_shared).search@)),
                exclusions(words(old(data_shared).search@)),
            ),
            final(data_shared).refocused(*old(data_shared), *final(self)),
    {
        let mut i: usize = 0;
        let mut found = false;
        while !found && i < self.folders.len()
            invariant
                i <= self.folders.len(),
                forall|q: int| 0 <= q < i ==> (#[trigger] self.folders@[q]).path@ != path@,
                found ==> first_folder(self.folders@, path@, i as int),
            decreases self.folders.len() - i + (if found { 0int } else { 1int }),
        {
            if compare_text(self.folders[i].path.as_str(), path) == 0 {
                found = true;
            } else {
                i = i + 1;
            }
        }
        if found {
            let ghost before = *self;
            self.folders.remove(i);
            proof {
                assert forall|a: Index| #[trigger] self.valid(a) implies self.img(a).wf() by {
                    let b = if a.folder < i { a } else { Index { folder: (a.folder + 1) as usize, image: a.image } };
                    assert(self.folders@[a.folder as int] == before.folders@[b.folder as int]);
                    assert(before.valid(b));
                }
            }
        } else {
            proof {
                assert forall|p: int| !first_folder(self.folders@, path@, p) by {
                    if first_folder(self.folders@, path@, p) {
                        assert(self.folders@[p].path@ != path@);
                    }
                }
            }
        }
        self.build_tags();
        data_shared.update_search(self);
    }
}

impl Data {
    /// `self` is `before` with the tag `x` added to the image at `a` and the index
    /// listing the image under `x`.
    pub open spec fn tag_added(self, before: Data, a: Index, x: Seq<char>) -> bool {
        let im = self.img(a);
        &&& self.same_except(before, a)
        &&& im == (ImageView { tags: im.tags, ..before.img(a) })
        &&& inserted_into(im.tags, before.img(a).tags, x)
        &&& forall|t: Seq<char>, b: Index| #[trigger] tag_has(self.taglist@, t, b) == (tag_has(
            before.taglist@,
            t,
            b,
        ) || (t == x && b == a))
    }

    /// `self` is `before` with the tag `x` taken from the image at `a`, and the
    /// image taken out of the index under `x` unless it still carries `x`.
    pub open spec fn tag_removed(self, before: Data, a: Index, x: Seq<char>) -> bool {
        let im = self.img(a);
        &&& self.same_except(before, a)
        &&& im == (ImageView { tags: im.tags, ..before.img(a) })
        &&& removed_from(im.tags, before.img(a).tags, x)
        &&& forall|t: Seq<char>, b: Index| #[trigger] tag_has(self.taglist@, t, b) == (tag_has(
            before.taglist@,
            t,
            b,
        ) && !(t == x && b == a && !im.has_label(t)))
    }
}

/// Adding a tag that an image lacks and then removing it gives back the image
/// and the whole index: the image leaves the tag's bucket unless it carries the
/// value as an artist.
pub proof fn lemma_tag_round_trip(d0: Data, d1: Data, d2: Data, a: Index, x: Seq<char>)
    requires
        d0.wf(),
        d0.valid(a),
        !d0.img(a).tags.contains(x),
        d1.wf(),
        d1.tag_added(d0, a, x),
        d2.tag_removed(d1, a, x),
    ensures
        d2.img(a) == d0.img(a),
        forall|b: Index| #[trigger] d0.valid(b) ==> d2.valid(b) && d2.img(b) == d0.img(b),
        forall|t: Seq<char>, b: Index| #[trigger] tag_has(d2.taglist@, t, b) == tag_has(d0.taglist@, t, b),
{
    let s0 = d0.img(a).tags;
    let s1 = d1.img(a).tags;
    let s2 = d2.img(a).tags;
    assert(d1.valid(a));
    let p = choose|p: int| 0 <= p <= s0.len() && s1 == s0.insert(p, x);
    assert(s1[p] == x);
    assert(s1.contains(x));
    let q = choose|q: int| 0 <= q < s1.len() && s1[q] == x && s2 == s1.remove(q);
    crate::text::lemma_sorted_position_unique(s1, p, q);
    assert(s2 =~= s0);
    assert(d2.img(a) == d0.img(a));
    assert forall|b: Index| #[trigger] d0.valid(b) implies d2.valid(b) && d2.img(b) == d0.img(b) by {
        assert(d1.folders@[b.folder as int].images@.len() == d0.folders@[b.folder as int].images@.len());
        assert(d1.valid(b));
        assert(d2.folders@[b.folder as int].images@.len() == d1.folders@[b.folder as int].images@.len());
        assert(d2.valid(b));
        if b != a {
            assert(d2.img(b) == d1.img(b));
            assert(d1.img(b) == d0.img(b));
        }
    }
    assert forall|t: Seq<char>, b: Index| #[trigger] tag_has(d2.taglist@, t, b) == tag_has(d0.taglist@, t, b) by {
        if t == x && b == a {
            if d2.img(a).has_label(x) {
                assert(d0.img(a).has_label(x));
            } else {
                assert(!d0.img(a).has_label(x));
            }
        }
    }
}

/// Every address of `select(.., f, n)` is in folder `f`, below `n` and passes the query;
/// every such address is there; and they come in increasing image order.
pub proof fn lemma_select(
    m: Map<Seq<char>, Vec<Index>>,
    inc: Seq<Seq<char>>,
    exc: Seq<Seq<char>>,
    f: usize,
    n: nat,
)
    requires
        n <= usize::MAX + 1,
    ensures
        forall|a: Index| #[trigger] select(m, inc, exc, f, n).contains(a) <==> (a.folder == f && a.image < n
            && passes(m, inc, exc, a)),
        forall|i: int, j: int| 0 <= i < j < select(m, inc, exc, f, n).len() ==> (#[trigger] select(m, inc, exc, f, n)[i]).image
            < (#[trigger] select(m, inc, exc, f, n)[j]).image,
        forall|i: int| 0 <= i < select(m, inc, exc, f, n).len() ==> (#[trigger] select(m, inc, exc, f, n)[i]).folder == f
            && select(m, inc, exc, f, n)[i].image < n,
    decreases n,
{
    if n > 0 {
        lemma_select(m, inc, exc, f, (n - 1) as nat);
        let prev = select(m, inc, exc, f, (n - 1) as nat);
        let a0 = Index { folder: f, image: (n - 1) as usize };
        let cur = select(m, inc, exc, f, n);
        assert forall|a: Index| #[trigger] cur.contains(a) <==> (a.folder == f && a.image < n && passes(m, inc, exc, a)) by {
            if passes(m, inc, exc, a0) {
                assert(cur == prev.push(a0));
                if cur.contains(a) && a != a0 {
                    let k = choose|k: int| 0 <= k < cur.len() && cur[k] == a;
                    assert(prev[k] == a);
                }
                if prev.contains(a) {
                    let k = choose|k: int| 0 <= k < prev.len() && prev[k] == a;
                    assert(cur[k] == a);
                }
                if a == a0 {
                    assert(cur[prev.len() as int] == a);
                }
            }
            if a.folder == f && a.image < n && a.image == n - 1 {
                assert(a == a0);
            }
        }
    }
}

/// With two inclusion values and no exclusion, the results are exactly the images
/// listed under both values, each in the list of its own folder, in image order.
pub proof fn lemma_query_and(d: Data, inc: Seq<Seq<char>>, t1: Seq<char>, t2: Seq<char>)
    requires
        d.wf(),
        inc == seq![t1, t2],
    ensures
        forall|a: Index| (exists|f: int| 0 <= f < d.folders@.len() && #[trigger] d.query_result(inc, seq![])[f].contains(a))
            <==> (tag_has(d.taglist@, t1, a) && tag_has(d.taglist@, t2, a)),
        forall|f: int, i: int, j: int| 0 <= f < d.folders@.len() && 0 <= i < j < d.query_result(inc, seq![])[f].len()
            ==> #[trigger] index_lt(d.query_result(inc, seq![])[f][i], #[trigger] d.query_result(inc, seq![])[f][j]),
{
    let exc: Seq<Seq<char>> = seq![];
    let r = d.query_result(inc, exc);
    assert forall|f: int| 0 <= f < d.folders@.len() implies ({
        let s = #[trigger] r[f];
        &&& forall|a: Index| s.contains(a) <==> (a.folder == f && a.image < d.folders@[f].images@.len() && passes(d.taglist@, inc, exc, a))
        &&& forall|i: int, j: int| 0 <= i < j < s.len() ==> index_lt(s[i], s[j])
    }) by {
        assert(d.folders@[f].images@.len() == d.folders@[f].images.len());
        assert(d.folders@.len() == d.folders.len());
        assert((f as usize) as int == f);
        assert(r[f] == select(d.taglist@, inc, exc, f as usize, d.folders@[f].images@.len()));
        lemma_select(d.taglist@, inc, exc, f as usize, d.folders@[f].images@.len());
    }
    assert forall|a: Index| (exists|f: int| 0 <= f < d.folders@.len() && #[trigger] r[f].contains(a))
        <==> (tag_has(d.taglist@, t1, a) && tag_has(d.taglist@, t2, a)) by {
        let both = tag_has(d.taglist@, t1, a) && tag_has(d.taglist@, t2, a);
        assert(passes(d.taglist@, inc, exc, a) == both) by {
            if both {
                assert forall|k: int| 0 <= k < inc.len() implies tag_has(d.taglist@, #[trigger] inc[k], a) by {
                    if k == 0 {} else {}
                }
            }
            if passes(d.taglist@, inc, exc, a) {
                assert(tag_has(d.taglist@, inc[0], a));
                assert(tag_has(d.taglist@, inc[1], a));
            }
        }
        if both {
            assert(d.valid(a));
            assert(r[a.folder as int].contains(a));
        }
    }
}

/// Excluding a value twice gives the same results as excluding it once.
pub proof fn lemma_exclusion_idempotent(d: Data, inc: Seq<Seq<char>>, exc: Seq<Seq<char>>, t: Seq<char>)
    ensures
        d.query_result(inc, exc.push(t).push(t)) == d.query_result(inc, exc.push(t)),
{
    let m = d.taglist@;
    assert forall|a: Index| #[trigger] passes(m, inc, exc.push(t).push(t), a) == passes(m, inc, exc.push(t), a) by {
        let e2 = exc.push(t).push(t);
        let e1 = exc.push(t);
        if passes(m, inc, e1, a) {
            assert forall|k: int| 0 <= k < e2.len() implies !tag_has(m, #[trigger] e2[k], a) by {
                if k < e1.len() {
                    assert(e2[k] == e1[k]);
                } else {
                    assert(e2[k] == e1[e1.len() - 1]);
                }
            }
        }
        if passes(m, inc, e2, a) {
            assert forall|k: int| 0 <= k < e1.len() implies !tag_has(m, #[trigger] e1[k], a) by {
                assert(e2[k] == e1[k]);
            }
        }
    }
    assert forall|f: int| 0 <= f < d.folders@.len() implies #[trigger] d.query_result(inc, exc.push(t).push(t))[f]
        == d.query_result(inc, exc.push(t))[f] by {
        lemma_select_same(m, inc, exc.push(t).push(t), inc, exc.push(t), f as usize, d.folders@[f].images@.len());
    }
    assert(d.query_result(inc, exc.push(t).push(t)) =~= d.query_result(inc, exc.push(t)));
}

/// Two queries that let the same addresses pass select the same addresses.
proof fn lemma_select_same(
    m: Map<Seq<char>, Vec<Index>>,
    i1: Seq<Seq<char>>,
    e1: Seq<Seq<char>>,
    i2: Seq<Seq<char>>,
    e2: Seq<Seq<char>>,
    f: usize,
    n: nat,
)
    requires
        forall|a: Index| #[trigger] passes(m, i1, e1, a) == passes(m, i2, e2, a),
    ensures
        select(m, i1, e1, f, n) == select(m, i2, e2, f, n),
    decreases n,
{
    if n > 0 {
        lemma_select_same(m, i1, e1, i2, e2, f, (n - 1) as nat);
        let a0 = Index { folder: f, image: (n - 1) as usize };
        assert(passes(m, i1, e1, a0) == passes(m, i2, e2, a0));
    }
}

/// Queries whose inclusion values and exclusion values are the same sets give the same results.
pub proof fn lemma_query_same_values(
    d: Data,
    i1: Seq<Seq<char>>,
    e1: Seq<Seq<char>>,
    i2: Seq<Seq<char>>,
    e2: Seq<Seq<char>>,
)
    requires
        forall|t: Seq<char>| i1.contains(t) == i2.contains(t),
        forall|t: Seq<char>| e1.contains(t) == e2.contains(t),
    ensures
        d.query_result(i1, e1) == d.query_result(i2, e2),
{
    let m = d.taglist@;
    assert forall|a: Index| #[trigger] passes(m, i1, e1, a) == passes(m, i2, e2, a) by {
        if passes(m, i1, e1, a) {
            assert forall|k: int| 0 <= k < i2.len() implies tag_has(m, #[trigger] i2[k], a) by {
                assert(i2.contains(i2[k]));
                let j = choose|j: int| 0 <= j < i1.len() && i1[j] == i2[k];
            }
            assert forall|k: int| 0 <= k < e2.len() implies !tag_has(m, #[trigger] e2[k], a) by {
                assert(e2.contains(e2[k]));
                let j = choose|j: int| 0 <= j < e1.len() && e1[j] == e2[k];
            }
        }
        if passes(m, i2, e2, a) {
            assert forall|k: int| 0 <= k < i1.len() implies tag_has(m, #[trigger] i1[k], a) by {
                assert(i1.contains(i1[k]));
                let j = choose|j: int| 0 <= j < i2.len() && i2[j] == i1[k];
            }
            assert forall|k: int| 0 <= k < e1.len() implies !tag_has(m, #[trigger] e1[k], a) by {
                assert(e1.contains(e1[k]));
                let j = choose|j: int| 0 <= j < e2.len() && e2[j] == e1[k];
            }
        }
    }
    assert forall|f: int| 0 <= f < d.folders@.len() implies #[trigger] d.query_result(i1, e1)[f]
        == d.query_result(i2, e2)[f] by {
        lemma_select_same(m, i1, e1, i2, e2, f as usize, d.folders@[f].images@.len());
    }
    assert(d.query_result(i1, e1) =~= d.query_result(i2, e2));
}

} // verus!
