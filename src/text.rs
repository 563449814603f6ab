use vstd::prelude::*;

verus! {

/// Lexicographic order on character sequences, by code point.
/// This is the order of `str`'s `Ord`: UTF-8 byte order equals code point order.
pub open spec fn text_lt(a: Seq<char>, b: Seq<char>) -> bool
    decreases a.len(),
{
    if a.len() == 0 {
        b.len() > 0
    } else if b.len() == 0 {
        false
    } else if a[0] != b[0] {
        (a[0] as int) < (b[0] as int)
    } else {
        text_lt(a.drop_first(), b.drop_first())
    }
}

/// No text sorts before itself.
pub proof fn lemma_text_lt_irreflexive(a: Seq<char>)
    ensures
        !text_lt(a, a),
    decreases a.len(),
{
    if a.len() > 0 {
        lemma_text_lt_irreflexive(a.drop_first());
    }
}

/// Of two different texts one sorts before the other.
pub proof fn lemma_text_lt_total(a: Seq<char>, b: Seq<char>)
    ensures
        a == b || text_lt(a, b) || text_lt(b, a),
    decreases a.len(),
{
    if a.len() > 0 && b.len() > 0 && a[0] == b[0] {
        lemma_text_lt_total(a.drop_first(), b.drop_first());
        if a.drop_first() == b.drop_first() {
            assert(a =~= seq![a[0]] + a.drop_first());
            assert(b =~= seq![b[0]] + b.drop_first());
        }
    } else if a.len() > 0 && b.len() > 0 {
        assert((a[0] as int) != (b[0] as int));
    } else if a.len() == 0 && b.len() == 0 {
        assert(a =~= b);
    }
}

/// Two texts never sort each before the other.
pub proof fn lemma_text_lt_asymmetric(a: Seq<char>, b: Seq<char>)
    ensures
        !(text_lt(a, b) && text_lt(b, a)),
    decreases a.len(),
{
    if a.len() > 0 && b.len() > 0 && a[0] == b[0] {
        lemma_text_lt_asymmetric(a.drop_first(), b.drop_first());
    }
}

/// Text order is transitive.
pub proof fn lemma_text_lt_transitive(a: Seq<char>, b: Seq<char>, c: Seq<char>)
    requires
        text_lt(a, b),
        text_lt(b, c),
    ensures
        text_lt(a, c),
    decreases a.len(),
{
    if a.len() > 0 && b.len() > 0 && c.len() > 0 && a[0] == b[0] && b[0] == c[0] {
        lemma_text_lt_transitive(a.drop_first(), b.drop_first(), c.drop_first());
    }
}

/// Compares two strings in `text_lt` order: -1, 0 or 1.
pub fn compare_text(a: &str, b: &str) -> (r: i8)
    ensures
        r == 0 <==> a@ == b@,
        r < 0 <==> text_lt(a@, b@),
        r > 0 <==> text_lt(b@, a@),
        -1 <= r <= 1,
{
    proof {
        lemma_text_lt_asymmetric(a@, b@);
        lemma_text_lt_irreflexive(a@);
    }
    let la = a.unicode_len();
    let lb = b.unicode_len();
    assert(a@.subrange(0, la as int) =~= a@);
    assert(b@.subrange(0, lb as int) =~= b@);
    let mut i: usize = 0;
    while i < la && i < lb
        invariant
            la == a@.len(),
            lb == b@.len(),
            i <= la,
            i <= lb,
            a@.subrange(0, i as int) == b@.subrange(0, i as int),
            text_lt(a@, b@) == text_lt(a@.subrange(i as int, la as int), b@.subrange(i as int, lb as int)),
            text_lt(b@, a@) == text_lt(b@.subrange(i as int, lb as int), a@.subrange(i as int, la as int)),
        decreases la - i,
    {
        let ca = a.get_char(i);
        let cb = b.get_char(i);
        let ghost sa = a@.subrange(i as int, la as int);
        let ghost sb = b@.subrange(i as int, lb as int);
        if ca != cb {
            assert(sa[0] == ca && sb[0] == cb);
            assert(a@ != b@) by {
                assert(a@[i as int] != b@[i as int]);
            }
            if (ca as u32) < (cb as u32) {
                return -1;
            } else {
                return 1;
            }
        }
        assert(sa.drop_first() =~= a@.subrange(i + 1, la as int));
        assert(sb.drop_first() =~= b@.subrange(i + 1, lb as int));
        assert(a@.subrange(0, i + 1) =~= a@.subrange(0, i as int).push(ca));
        assert(b@.subrange(0, i + 1) =~= b@.subrange(0, i as int).push(cb));
        i = i + 1;
    }
    let ghost sa = a@.subrange(i as int, la as int);
    let ghost sb = b@.subrange(i as int, lb as int);
    if la == lb {
        assert(a@ =~= a@.subrange(0, i as int));
        assert(b@ =~= b@.subrange(0, i as int));
        0
    } else if la < lb {
        assert(sa.len() == 0 && sb.len() > 0);
        assert(a@ != b@) by {
            assert(a@.len() != b@.len());
        }
        -1
    } else {
        assert(sb.len() == 0 && sa.len() > 0);
        assert(a@ != b@) by {
            assert(a@.len() != b@.len());
        }
        1
    }
}

/// The character sequences of a list of strings.
pub open spec fn strings(v: Seq<String>) -> Seq<Seq<char>> {
    v.map_values(|s: String| s@)
}

/// Every element sorts strictly before every later one: sorted, without repeats.
pub open spec fn strictly_sorted(s: Seq<Seq<char>>) -> bool {
    forall|i: int, j: int| 0 <= i < j < s.len() ==> text_lt(#[trigger] s[i], #[trigger] s[j])
}

/// In a strictly sorted list a value stands at one position at most.
pub proof fn lemma_sorted_position_unique(s: Seq<Seq<char>>, i: int, j: int)
    requires
        strictly_sorted(s),
        0 <= i < s.len(),
        0 <= j < s.len(),
        s[i] == s[j],
    ensures
        i == j,
{
    if i < j {
        lemma_text_lt_irreflexive(s[i]);
    } else if j < i {
        lemma_text_lt_irreflexive(s[i]);
    }
}

/// Two strictly sorted lists with the same elements are the same list.
pub proof fn lemma_sorted_set_unique(a: Seq<Seq<char>>, b: Seq<Seq<char>>)
    requires
        strictly_sorted(a),
        strictly_sorted(b),
        a.to_set() == b.to_set(),
    ensures
        a == b,
    decreases a.len(),
{
    if a.len() == 0 {
        if b.len() > 0 {
            assert(b.to_set().contains(b[0]));
        }
        assert(a =~= b);
    } else {
        assert(a.to_set().contains(a[0]));
        assert(b.to_set().contains(a[0]));
        let j = choose|j: int| 0 <= j < b.len() && b[j] == a[0];
        assert(b.to_set().contains(b[0]));
        assert(a.to_set().contains(b[0]));
        let i = choose|i: int| 0 <= i < a.len() && a[i] == b[0];
        if j > 0 {
            assert(text_lt(b[0], b[j]));
            if i > 0 {
                assert(text_lt(a[0], a[i]));
                lemma_text_lt_transitive(b[0], a[0], b[0]);
            }
            lemma_text_lt_irreflexive(b[0]);
        }
        assert(a[0] == b[0]);
        let a1 = a.drop_first();
        let b1 = b.drop_first();
        assert(strictly_sorted(a1)) by {
            assert forall|p: int, q: int| 0 <= p < q < a1.len() implies text_lt(#[trigger] a1[p], #[trigger] a1[q]) by {
                assert(a1[p] == a[p + 1] && a1[q] == a[q + 1]);
            }
        }
        assert(strictly_sorted(b1)) by {
            assert forall|p: int, q: int| 0 <= p < q < b1.len() implies text_lt(#[trigger] b1[p], #[trigger] b1[q]) by {
                assert(b1[p] == b[p + 1] && b1[q] == b[q + 1]);
            }
        }
        assert forall|e| a1.to_set().contains(e) <==> b1.to_set().contains(e) by {
            if a1.to_set().contains(e) {
                let p = choose|p: int| 0 <= p < a1.len() && a1[p] == e;
                assert(a[p + 1] == e);
                assert(text_lt(a[0], a[p + 1]));
                lemma_text_lt_irreflexive(e);
                assert(a.to_set().contains(e));
                let q = choose|q: int| 0 <= q < b.len() && b[q] == e;
                assert(q != 0);
                assert(b1[q - 1] == e);
            }
            if b1.to_set().contains(e) {
                let p = choose|p: int| 0 <= p < b1.len() && b1[p] == e;
                assert(b[p + 1] == e);
                assert(text_lt(b[0], b[p + 1]));
                lemma_text_lt_irreflexive(e);
                assert(b.to_set().contains(e));
                let q = choose|q: int| 0 <= q < a.len() && a[q] == e;
                assert(q != 0);
                assert(a1[q - 1] == e);
            }
        }
        assert(a1.to_set() =~= b1.to_set());
        lemma_sorted_set_unique(a1, b1);
        assert(a =~= seq![a[0]] + a1);
        assert(b =~= seq![b[0]] + b1);
    }
}

/// Adds `x` to the sorted list `v` at its place, unless it is already there.
/// Returns whether `v` changed.
pub fn insert_sorted(v: &mut Vec<String>, x: String) -> (r: bool)
    requires
        strictly_sorted(strings(old(v)@)),
    ensures
        r == !strings(old(v)@).contains(x@),
        strictly_sorted(strings(final(v)@)),
        r ==> exists|p: int|
            0 <= p <= old(v)@.len() && strings(final(v)@) == strings(old(v)@).insert(p, x@),
        !r ==> final(v)@ == old(v)@,
        strings(final(v)@).to_set() == strings(old(v)@).to_set().insert(x@),
{
    let ghost s = strings(v@);
    let mut i: usize = 0;
    let mut stop = false;
    while !stop && i < v.len()
        invariant
            v@ == old(v)@,
            s == strings(v@),
            strictly_sorted(s),
            i <= v.len(),
            forall|k: int| 0 <= k < i ==> text_lt(#[trigger] s[k], x@),
            stop ==> i < v.len() && text_lt(x@, s[i as int]),
        decreases v.len() - i + (if stop { 0int } else { 1int }),
    {
        let c = compare_text(v[i].as_str(), x.as_str());
        if c == 0 {
            assert(s[i as int] == x@);
            assert(s.to_set().insert(x@) =~= s.to_set());
            return false;
        }
        if c > 0 {
            stop = true;
        } else {
            i = i + 1;
        }
    }
    proof {
        assert forall|k: int| 0 <= k < s.len() implies s[k] != x@ by {
            if k < i {
                lemma_text_lt_irreflexive(x@);
            } else {
                lemma_text_lt_asymmetric(x@, s[i as int]);
                if k > i {
                    lemma_text_lt_asymmetric(s[k], x@);
                    lemma_text_lt_transitive(x@, s[i as int], s[k]);
                    lemma_text_lt_irreflexive(x@);
                }
            }
        }
    }
    let ghost xv = x@;
    v.insert(i, x);
    let ghost t = strings(v@);
    assert(t =~= s.insert(i as int, xv));
    proof {
        assert forall|a: int, b: int| 0 <= a < b < t.len() implies text_lt(#[trigger] t[a], #[trigger] t[b]) by {
            if b < i {
            } else if b == i {
            } else if a < i {
                // t[a] = s[a] < x < s[i] <= s[b - 1]
                lemma_text_lt_total(xv, s[i as int]);
                if b - 1 > i {
                    lemma_text_lt_transitive(xv, s[i as int], s[b - 1]);
                }
                lemma_text_lt_transitive(s[a], xv, s[b - 1]);
            } else if a == i {
                lemma_text_lt_total(xv, s[i as int]);
                if b - 1 > i {
                    lemma_text_lt_transitive(xv, s[i as int], s[b - 1]);
                }
            } else {
            }
        }
        assert(t.to_set() =~= s.to_set().insert(xv)) by {
            assert forall|e| t.to_set().contains(e) <==> s.to_set().insert(xv).contains(e) by {
                if t.to_set().contains(e) {
                    let k = choose|k: int| 0 <= k < t.len() && t[k] == e;
                    if k < i {
                        assert(s[k] == e);
                    } else if k > i {
                        assert(s[k - 1] == e);
                    }
                }
                if s.to_set().contains(e) {
                    let k = choose|k: int| 0 <= k < s.len() && s[k] == e;
                    if k < i {
                        assert(t[k] == e);
                    } else {
                        assert(t[k + 1] == e);
                    }
                }
                if e == xv {
                    assert(t[i as int] == e);
                }
            }
        }
    }
    true
}

/// Removes `x` from the sorted list `v` if it is there. Returns whether it was.
pub fn remove_sorted(v: &mut Vec<String>, x: &str) -> (r: bool)
    requires
        strictly_sorted(strings(old(v)@)),
    ensures
        r == strings(old(v)@).contains(x@),
        strictly_sorted(strings(final(v)@)),
        r ==> exists|p: int|
            0 <= p < old(v)@.len() && strings(old(v)@)[p] == x@ && strings(final(v)@) == strings(
                old(v)@,
            ).remove(p),
        !r ==> final(v)@ == old(v)@,
        strings(final(v)@).to_set() == strings(old(v)@).to_set().remove(x@),
{
    let ghost s = strings(v@);
    let mut i: usize = 0;
    while i < v.len()
        invariant
            v@ == old(v)@,
            s == strings(v@),
            strictly_sorted(s),
            i <= v.len(),
            forall|k: int| 0 <= k < i ==> #[trigger] s[k] != x@,
        decreases v.len() - i,
    {
        if compare_text(v[i].as_str(), x) == 0 {
            let ghost p = i as int;
            assert(s[p] == x@);
            assert(s.contains(x@));
            v.remove(i);
            let ghost t = strings(v@);
            assert(t =~= s.remove(p));
            proof {
                assert forall|a: int, b: int| 0 <= a < b < t.len() implies text_lt(#[trigger] t[a], #[trigger] t[b]) by {
                    if a < p && b >= p {
                        assert(t[b] == s[b + 1]);
                    } else if a >= p {
                        assert(t[a] == s[a + 1] && t[b] == s[b + 1]);
                    }
                }
                assert(t.to_set() =~= s.to_set().remove(x@)) by {
                    assert forall|e| t.to_set().contains(e) <==> s.to_set().remove(x@).contains(e) by {
                        if t.to_set().contains(e) {
                            let k = choose|k: int| 0 <= k < t.len() && t[k] == e;
                            if k < p {
                                assert(s[k] == e);
                                if e == x@ {
                                    lemma_sorted_position_unique(s, k, p);
                                }
                            } else {
                                assert(s[k + 1] == e);
                                if e == x@ {
                                    lemma_sorted_position_unique(s, k + 1, p);
                                }
                            }
                        }
                        if s.to_set().contains(e) && e != x@ {
                            let k = choose|k: int| 0 <= k < s.len() && s[k] == e;
                            if k < p {
                                assert(t[k] == e);
                            } else {
                                assert(t[k - 1] == e);
                            }
                        }
                    }
                }
            }
            return true;
        }
        i = i + 1;
    }
    assert(s.to_set().remove(x@) =~= s.to_set());
    false
}

/// What `str::to_lowercase` gives for a string: depends on its characters alone.
pub uninterp spec fn lower_of(s: Seq<char>) -> Seq<char>;

/// Relies on `str::to_lowercase` (std): the Unicode lower-case mapping of each character.
#[verifier::external_body]
pub(crate) fn lowercase(s: &str) -> (r: String)
    ensures
        r@ == lower_of(s@),
{
    s.to_lowercase()
}

/// Relies on `String::push` (std): appends one character.
#[verifier::external_body]
pub(crate) fn push_char(s: &mut String, c: char)
    ensures
        final(s)@ == old(s)@.push(c),
{
    s.push(c)
}

/// The Unicode `White_Space` characters, which `char::is_whitespace` accepts.
pub open spec fn is_space_char(c: char) -> bool {
    let n = c as u32;
    (9 <= n <= 13) || n == 32 || n == 0x85 || n == 0xa0 || n == 0x1680 || (0x2000 <= n <= 0x200a)
        || n == 0x2028 || n == 0x2029 || n == 0x202f || n == 0x205f || n == 0x3000
}

/// Whether `c` is Unicode white space.
pub fn is_space(c: char) -> (r: bool)
    ensures
        r == is_space_char(c),
{
    let n = c as u32;
    (9 <= n && n <= 13) || n == 32 || n == 0x85 || n == 0xa0 || n == 0x1680 || (0x2000 <= n && n
        <= 0x200a) || n == 0x2028 || n == 0x2029 || n == 0x202f || n == 0x205f || n == 0x3000
}

/// The white-space separated words of `s`, where `cur` is a word already begun.
pub open spec fn words_from(s: Seq<char>, cur: Seq<char>) -> Seq<Seq<char>>
    decreases s.len(),
{
    if s.len() == 0 {
        if cur.len() > 0 {
            seq![cur]
        } else {
            seq![]
        }
    } else if is_space_char(s[0]) {
        (if cur.len() > 0 {
            seq![cur]
        } else {
            seq![]
        }) + words_from(s.drop_first(), seq![])
    } else {
        words_from(s.drop_first(), cur.push(s[0]))
    }
}

/// The maximal runs of non-white-space characters of `s`, in order.
pub open spec fn words(s: Seq<char>) -> Seq<Seq<char>> {
    words_from(s, seq![])
}

/// Splits `s` at white space into its words.
pub fn split_words(s: &str) -> (r: Vec<String>)
    ensures
        strings(r@) == words(s@),
{
    let n = s.unicode_len();
    let mut out: Vec<String> = Vec::new();
    let mut cur = String::new();
    let mut i: usize = 0;
    assert(s@.subrange(0, n as int) =~= s@);
    while i < n
        invariant
            n == s@.len(),
            i <= n,
            strings(out@) + words_from(s@.subrange(i as int, n as int), cur@) == words(s@),
        decreases n - i,
    {
        let c = s.get_char(i);
        let ghost rest = s@.subrange(i as int, n as int);
        assert(rest.drop_first() =~= s@.subrange(i + 1, n as int));
        if is_space(c) {
            let ghost old_out = strings(out@);
            let ghost old_cur = cur@;
            if cur.unicode_len() > 0 {
                let ghost cv = cur@;
                out.push(cur);
                assert(strings(out@) =~= old_out + seq![cv]);
            } else {
                assert(strings(out@) =~= old_out + seq![]);
            }
            cur = String::new();
            assert(strings(out@) + words_from(s@.subrange(i + 1, n as int), cur@) =~= old_out
                + words_from(rest, old_cur));
        } else {
            push_char(&mut cur, c);
        }
        i = i + 1;
    }
    assert(s@.subrange(n as int, n as int).len() == 0);
    if cur.unicode_len() > 0 {
        let ghost old_out = strings(out@);
        let ghost cv = cur@;
        out.push(cur);
        assert(strings(out@) =~= old_out + seq![cv]);
    } else {
        assert(strings(out@) =~= strings(out@) + seq![]);
    }
    out
}

/// `s` with a backslash put before each double quote.
pub open spec fn escaped(s: Seq<char>) -> Seq<char>
    decreases s.len(),
{
    if s.len() == 0 {
        seq![]
    } else {
        escaped(s.drop_last()) + (if s.last() == '"' {
            seq!['\\', '"']
        } else {
            seq![s.last()]
        })
    }
}

/// Puts a backslash before each double quote of `s`.
pub fn escape_quotes(s: &str) -> (r: String)
    ensures
        r@ == escaped(s@),
{
    let n = s.unicode_len();
    let mut out = String::new();
    let mut i: usize = 0;
    while i < n
        invariant
            n == s@.len(),
            i <= n,
            out@ == escaped(s@.subrange(0, i as int)),
        decreases n - i,
    {
        let c = s.get_char(i);
        assert(s@.subrange(0, i + 1).drop_last() =~= s@.subrange(0, i as int));
        if c == '"' {
            push_char(&mut out, '\\');
            push_char(&mut out, '"');
            assert(out@ =~= escaped(s@.subrange(0, i as int)) + seq!['\\', '"']);
        } else {
            push_char(&mut out, c);
            assert(out@ =~= escaped(s@.subrange(0, i as int)) + seq![c]);
        }
        i = i + 1;
    }
    assert(s@.subrange(0, n as int) =~= s@);
    out
}

/// `s` with every occurrence of `pat`, found left to right without overlap, taken out.
pub open spec fn removed(s: Seq<char>, pat: Seq<char>) -> Seq<char>
    decreases s.len(),
{
    if pat.len() == 0 || s.len() == 0 {
        s
    } else if pat.len() <= s.len() && s.subrange(0, pat.len() as int) == pat {
        removed(s.subrange(pat.len() as int, s.len() as int), pat)
    } else {
        seq![s[0]] + removed(s.drop_first(), pat)
    }
}

/// `s` with every backslash-quote pair, found left to right, turned into a quote.
pub open spec fn unescaped(s: Seq<char>) -> Seq<char>
    decreases s.len(),
{
    if s.len() == 0 {
        s
    } else if s.len() >= 2 && s[0] == '\\' && s[1] == '"' {
        seq!['"'] + unescaped(s.subrange(2, s.len() as int))
    } else {
        seq![s[0]] + unescaped(s.drop_first())
    }
}

/// Whether `pat` stands in `s` at position `i`.
pub open spec fn occurs_at(s: Seq<char>, pat: Seq<char>, i: int) -> bool {
    0 <= i && i + pat.len() <= s.len() && s.subrange(i, i + pat.len()) == pat
}

/// Whether `pat` stands in `s` at position `i`; `n` and `m` are their lengths.
fn matches_at(s: &str, n: usize, pat: &str, m: usize, i: usize) -> (r: bool)
    requires
        n == s@.len(),
        m == pat@.len(),
        i <= n,
    ensures
        r == occurs_at(s@, pat@, i as int),
{
    if m > n - i {
        return false;
    }
    let mut j: usize = 0;
    while j < m
        invariant
            n == s@.len(),
            m == pat@.len(),
            i + m <= n,
            j <= m,
            s@.subrange(i as int, i + j) == pat@.subrange(0, j as int),
        decreases m - j,
    {
        if s.get_char(i + j) != pat.get_char(j) {
            assert(s@.subrange(i as int, i + m)[j as int] != pat@[j as int]);
            return false;
        }
        assert(s@.subrange(i as int, i + j + 1) =~= s@.subrange(i as int, i + j).push(s@[i + j]));
        assert(pat@.subrange(0, j + 1) =~= pat@.subrange(0, j as int).push(pat@[j as int]));
        j = j + 1;
    }
    assert(pat@.subrange(0, m as int) =~= pat@);
    true
}

/// Whether `pat` occurs in `s`.
pub fn contains_text(s: &str, pat: &str) -> (r: bool)
    ensures
        r == exists|i: int| occurs_at(s@, pat@, i),
{
    let n = s.unicode_len();
    let m = pat.unicode_len();
    let mut i: usize = 0;
    while i < n
        invariant
            n == s@.len(),
            m == pat@.len(),
            i <= n,
            forall|k: int| 0 <= k < i ==> !occurs_at(s@, pat@, k),
        decreases n - i,
    {
        if matches_at(s, n, pat, m, i) {
            return true;
        }
        i = i + 1;
    }
    if matches_at(s, n, pat, m, n) {
        return true;
    }
    assert forall|k: int| !occurs_at(s@, pat@, k) by {
        if 0 <= k && k + m <= n {
            assert(k < n || k == n);
        }
    }
    false
}

/// Takes every occurrence of `pat` out of `s`, left to right.
pub fn remove_text(s: &str, pat: &str) -> (r: String)
    ensures
        r@ == removed(s@, pat@),
{
    let n = s.unicode_len();
    let m = pat.unicode_len();
    if m == 0 {
        return String::from_str(s);
    }
    let mut out = String::new();
    let mut i: usize = 0;
    assert(s@.subrange(0, n as int) =~= s@);
    while i < n
        invariant
            n == s@.len(),
            m == pat@.len(),
            m > 0,
            i <= n,
            out@ + removed(s@.subrange(i as int, n as int), pat@) == removed(s@, pat@),
        decreases n - i,
    {
        let ghost rest = s@.subrange(i as int, n as int);
        let ghost before = out@;
        if matches_at(s, n, pat, m, i) {
            assert(rest.subrange(0, m as int) =~= s@.subrange(i as int, i + m));
            assert(rest.subrange(m as int, rest.len() as int) =~= s@.subrange(i + m, n as int));
            i = i + m;
        } else {
            let c = s.get_char(i);
            assert(!(m <= rest.len() && rest.subrange(0, m as int) == pat@)) by {
                if m <= rest.len() {
                    assert(rest.subrange(0, m as int) =~= s@.subrange(i as int, i + m));
                }
            }
            assert(rest.drop_first() =~= s@.subrange(i + 1, n as int));
            push_char(&mut out, c);
            assert(out@ + removed(s@.subrange(i + 1, n as int), pat@) =~= before + removed(rest, pat@));
            i = i + 1;
        }
    }
    assert(out@ + seq![] =~= out@);
    out
}

/// Turns every backslash-quote pair of `s`, left to right, into a quote.
pub fn unescape_quotes(s: &str) -> (r: String)
    ensures
        r@ == unescaped(s@),
{
    let n = s.unicode_len();
    let mut out = String::new();
    let mut i: usize = 0;
    assert(s@.subrange(0, n as int) =~= s@);
    while i < n
        invariant
            n == s@.len(),
            i <= n,
            out@ + unescaped(s@.subrange(i as int, n as int)) == unescaped(s@),
        decreases n - i,
    {
        let ghost rest = s@.subrange(i as int, n as int);
        let ghost before = out@;
        let c = s.get_char(i);
        if c == '\\' && i + 1 < n && s.get_char(i + 1) == '"' {
            assert(rest.subrange(2, rest.len() as int) =~= s@.subrange(i + 2, n as int));
            push_char(&mut out, '"');
            assert(out@ + unescaped(s@.subrange(i + 2, n as int)) =~= before + unescaped(rest));
            i = i + 2;
        } else {
            assert(rest.drop_first() =~= s@.subrange(i + 1, n as int));
            push_char(&mut out, c);
            assert(out@ + unescaped(s@.subrange(i + 1, n as int)) =~= before + unescaped(rest));
            i = i + 1;
        }
    }
    assert(out@ + seq![] =~= out@);
    out
}

/// `x` between double quotes.
pub open spec fn quoted(x: Seq<char>) -> Seq<char> {
    seq!['"'] + x + seq!['"']
}

/// The quoted items of `s`, separated by commas.
pub open spec fn joined(s: Seq<Seq<char>>) -> Seq<char>
    decreases s.len(),
{
    if s.len() == 0 {
        seq![]
    } else if s.len() == 1 {
        quoted(s[0])
    } else {
        joined(s.drop_last()) + seq![','] + quoted(s.last())
    }
}

/// The bracketed, comma-separated, double-quoted list form of `s`.
pub open spec fn list_text(s: Seq<Seq<char>>) -> Seq<char> {
    seq!['['] + joined(s) + seq![']']
}

/// Writes `items` as one bracketed, comma-separated, double-quoted list.
pub fn build_string(items: &Vec<String>) -> (r: String)
    ensures
        r@ == list_text(strings(items@)),
{
    let ghost s = strings(items@);
    let mut out = String::new();
    push_char(&mut out, '[');
    let mut i: usize = 0;
    while i < items.len()
        invariant
            s == strings(items@),
            i <= items.len(),
            out@ == seq!['['] + joined(s.subrange(0, i as int)),
        decreases items.len() - i,
    {
        let ghost before = out@;
        assert(s.subrange(0, i + 1).drop_last() =~= s.subrange(0, i as int));
        if i > 0 {
            push_char(&mut out, ',');
        }
        push_char(&mut out, '"');
        out.append(items[i].as_str());
        push_char(&mut out, '"');
        if i > 0 {
            assert(out@ =~= seq!['['] + joined(s.subrange(0, i + 1)));
        } else {
            assert(out@ =~= seq!['['] + joined(s.subrange(0, i + 1)));
        }
        i = i + 1;
    }
    assert(s.subrange(0, i as int) =~= s);
    push_char(&mut out, ']');
    out
}

/// Whether `t` is one of `v`'s strings.
pub fn contains_string(v: &Vec<String>, t: &str) -> (r: bool)
    ensures
        r == strings(v@).contains(t@),
{
    let mut i: usize = 0;
    while i < v.len()
        invariant
            i <= v.len(),
            forall|k: int| 0 <= k < i ==> strings(v@)[k] != t@,
        decreases v.len() - i,
    {
        if compare_text(v[i].as_str(), t) == 0 {
            assert(strings(v@)[i as int] == t@);
            return true;
        }
        i = i + 1;
    }
    false
}

/// Sorts `items` and drops repeats.
pub fn sorted_unique(items: &Vec<String>) -> (r: Vec<String>)
    ensures
        strictly_sorted(strings(r@)),
        strings(r@).to_set() == strings(items@).to_set(),
{
    let mut out: Vec<String> = Vec::new();
    let mut i: usize = 0;
    while i < items.len()
        invariant
            i <= items.len(),
            strictly_sorted(strings(out@)),
            strings(out@).to_set() == strings(items@).subrange(0, i as int).to_set(),
        decreases items.len() - i,
    {
        insert_sorted(&mut out, items[i].clone());
        assert(strings(items@).subrange(0, i + 1) =~= strings(items@).subrange(0, i as int).push(
            items@[i as int]@,
        ));
        proof {
            strings(items@).subrange(0, i as int).lemma_push_to_set_commute(items@[i as int]@);
        }
        i = i + 1;
    }
    assert(strings(items@).subrange(0, i as int) =~= strings(items@));
    out
}

/// A white-space run once it ends: two or more characters become one space.
pub open spec fn flushed(run: Seq<char>) -> Seq<char> {
    if run.len() >= 2 {
        seq![' ']
    } else {
        run
    }
}

/// `s` with each run of two or more white-space characters replaced by one space,
/// where `run` is a run of white space already begun.
pub open spec fn collapsed_from(s: Seq<char>, run: Seq<char>) -> Seq<char>
    decreases s.len(),
{
    if s.len() == 0 {
        flushed(run)
    } else if is_space_char(s[0]) {
        collapsed_from(s.drop_first(), run.push(s[0]))
    } else {
        flushed(run) + seq![s[0]] + collapsed_from(s.drop_first(), seq![])
    }
}

/// `s` with each run of two or more white-space characters replaced by one space.
pub open spec fn collapsed(s: Seq<char>) -> Seq<char> {
    collapsed_from(s, seq![])
}

/// Relies on `regex::Regex::replace_all` with the pattern `\s\s+` (`\s` is Unicode
/// `White_Space`, `+` greedy, matches leftmost-first without overlap) and the
/// replacement " ": every maximal run of two or more white-space characters becomes
/// one space. The pattern is valid, so `Regex::new` does not fail.
#[verifier::external_body]
pub(crate) fn collapse_spaces(s: &str) -> (r: String)
    ensures
        r@ == collapsed(s@),
{
    let re = regex::Regex::new(r"\s\s+").unwrap();
    re.replace_all(s, " ").to_string()
}

} // verus!
