//! Character-level text helpers with the semantics of `str`'s methods,
//! stated over `Seq<char>`.
use vstd::prelude::*;
use vstd::std_specs::iter::IteratorSpec;

verus! {

broadcast use {vstd::string::group_string_axioms, vstd::utf8::char_u32_cast, vstd::utf8::char_is_scalar};

/// The Unicode `White_Space` property, which `char::is_whitespace` tests.
pub open spec fn is_ws(c: char) -> bool {
    let u = c as u32;
    ||| 0x9 <= u <= 0xd
    ||| u == 0x20
    ||| u == 0x85
    ||| u == 0xa0
    ||| u == 0x1680
    ||| 0x2000 <= u <= 0x200a
    ||| u == 0x2028
    ||| u == 0x2029
    ||| u == 0x202f
    ||| u == 0x205f
    ||| u == 0x3000
}

/// Whether `c` is a whitespace character in the sense of `char::is_whitespace`.
pub fn is_whitespace(c: char) -> (b: bool)
    ensures
        b == is_ws(c),
{
    let u = c as u32;
    (0x9 <= u && u <= 0xd) || u == 0x20 || u == 0x85 || u == 0xa0 || u == 0x1680 || (0x2000
        <= u && u <= 0x200a) || u == 0x2028 || u == 0x2029 || u == 0x202f || u == 0x205f || u
        == 0x3000
}

/// The characters of `s`, in order.
pub fn chars_of(s: &str) -> (v: Vec<char>)
    ensures
        v@ == s@,
{
    let mut v: Vec<char> = Vec::new();
    let mut it = s.chars();
    loop
        invariant
            v@ + it.remaining() == s@,
            it.obeys_prophetic_iter_laws(),
            it.decrease() is Some,
        decreases it.decrease()->0,
    {
        match it.next() {
            Some(c) => {
                v.push(c);
            },
            None => {
                assert(v@ + it.remaining() == v@);
                return v;
            },
        }
    }
}

/// The `String` of the characters `v`: `collect` through `FromIterator<&char>`
/// for `String`, which appends each character in order.
#[verifier::external_body]
pub fn string_of(v: &[char]) -> (s: String)
    ensures
        s@ == v@,
{
    v.iter().collect()
}

/// The `String` of the characters `v`.
pub fn string_from(v: &Vec<char>) -> (s: String)
    ensures
        s@ == v@,
{
    string_of(v.as_slice())
}

/// The `String` of the characters `v[lo..hi]`.
pub fn string_in(v: &Vec<char>, lo: usize, hi: usize) -> (s: String)
    requires
        lo <= hi <= v@.len(),
    ensures
        s@ == v@.subrange(lo as int, hi as int),
{
    let part = sub_vec(v, lo, hi);
    string_of(part.as_slice())
}

} // verus!

verus! {

// ---------------------------------------------------------------------------
// trimming
// ---------------------------------------------------------------------------

/// `s` without its leading whitespace.
pub open spec fn trim_start(s: Seq<char>) -> Seq<char>
    decreases s.len(),
{
    if s.len() > 0 && is_ws(s[0]) {
        trim_start(s.drop_first())
    } else {
        s
    }
}

/// `s` without its trailing whitespace.
pub open spec fn trim_end(s: Seq<char>) -> Seq<char>
    decreases s.len(),
{
    if s.len() > 0 && is_ws(s.last()) {
        trim_end(s.drop_last())
    } else {
        s
    }
}

/// What `str::trim` gives back.
pub open spec fn trim(s: Seq<char>) -> Seq<char> {
    trim_end(trim_start(s))
}

/// Bounds of `trim(v[lo..hi])` inside `v`.
pub fn trim_range(v: &Vec<char>, lo: usize, hi: usize) -> (r: (usize, usize))
    requires
        lo <= hi <= v@.len(),
    ensures
        lo <= r.0 <= r.1 <= hi,
        v@.subrange(r.0 as int, r.1 as int) == trim(v@.subrange(lo as int, hi as int)),
{
    let mut a = lo;
    while a < hi && is_whitespace(v[a])
        invariant
            lo <= a <= hi <= v@.len(),
            trim_start(v@.subrange(lo as int, hi as int)) == trim_start(
                v@.subrange(a as int, hi as int),
            ),
        decreases hi - a,
    {
        assert(v@.subrange(a as int, hi as int).drop_first() =~= v@.subrange(
            a + 1,
            hi as int,
        ));
        a = a + 1;
    }
    let mut b = hi;
    while b > a && is_whitespace(v[b - 1])
        invariant
            lo <= a <= b <= hi <= v@.len(),
            trim_start(v@.subrange(lo as int, hi as int)) == v@.subrange(a as int, hi as int),
            trim(v@.subrange(lo as int, hi as int)) == trim_end(v@.subrange(a as int, b as int)),
        decreases b - a,
    {
        assert(v@.subrange(a as int, b as int).drop_last() =~= v@.subrange(
            a as int,
            b - 1,
        ));
        b = b - 1;
    }
    (a, b)
}

// ---------------------------------------------------------------------------
// searching
// ---------------------------------------------------------------------------

/// Whether `p` occurs in `s` at position `i`.
pub open spec fn matches_at(s: Seq<char>, p: Seq<char>, i: int) -> bool {
    0 <= i && i + p.len() <= s.len() && s.subrange(i, i + p.len()) == p
}

/// The first position at or after `i` where `p` occurs in `s`.
pub open spec fn find_from(s: Seq<char>, p: Seq<char>, i: int) -> Option<int>
    decreases s.len() - i,
{
    if i < 0 || i + p.len() > s.len() {
        None
    } else if matches_at(s, p, i) {
        Some(i)
    } else if i >= s.len() {
        None
    } else {
        find_from(s, p, i + 1)
    }
}

/// What `str::find` gives back, counted in characters.
pub open spec fn find(s: Seq<char>, p: Seq<char>) -> Option<int> {
    find_from(s, p, 0)
}

/// What `str::contains` gives back.
pub open spec fn contains(s: Seq<char>, p: Seq<char>) -> bool {
    find(s, p) is Some
}

/// The position that `find_from` reports is the first occurrence at or after `i`.
pub proof fn lemma_find_from(s: Seq<char>, p: Seq<char>, i: int)
    requires
        0 <= i,
    ensures
        find_from(s, p, i) matches Some(k) ==> i <= k && k + p.len() <= s.len() && matches_at(
            s,
            p,
            k,
        ) && (forall|j: int| i <= j < k ==> !matches_at(s, p, j)),
        find_from(s, p, i) is None ==> forall|j: int| i <= j ==> !matches_at(s, p, j),
    decreases s.len() - i,
{
    if i + p.len() > s.len() {
    } else if matches_at(s, p, i) {
    } else if i >= s.len() {
        assert forall|j: int| i <= j implies !matches_at(s, p, j) by {
            if j == i {
            } else {
            }
        }
    } else {
        lemma_find_from(s, p, i + 1);
    }
}

/// Whether `p` occurs in `s[lo..hi]` at `i` (an index of `s`).
fn matches_here(s: &Vec<char>, hi: usize, p: &Vec<char>, i: usize) -> (b: bool)
    requires
        i <= hi <= s@.len(),
    ensures
        b == (i + p@.len() <= hi && s@.subrange(i as int, i + p@.len()) == p@),
{
    if p.len() > hi - i {
        return false;
    }
    let mut k: usize = 0;
    while k < p.len()
        invariant
            i + p@.len() <= hi <= s@.len(),
            k <= p@.len(),
            forall|j: int| 0 <= j < k ==> s@[i + j] == p@[j],
        decreases p@.len() - k,
    {
        if s[i + k] != p[k] {
            assert(s@.subrange(i as int, i + p@.len())[k as int] != p@[k as int]);
            return false;
        }
        k = k + 1;
    }
    assert(s@.subrange(i as int, i + p@.len()) =~= p@);
    true
}

/// `find(s[lo..hi], p)`, as a position relative to `lo`.
pub fn find_in(s: &Vec<char>, lo: usize, hi: usize, p: &Vec<char>) -> (r: Option<usize>)
    requires
        lo <= hi <= s@.len(),
    ensures
        r matches Some(k) ==> find(s@.subrange(lo as int, hi as int), p@) == Some(k as int),
        r is None ==> find(s@.subrange(lo as int, hi as int), p@) is None,
{
    let ghost t = s@.subrange(lo as int, hi as int);
    let mut i = lo;
    loop
        invariant
            lo <= i <= hi <= s@.len(),
            t == s@.subrange(lo as int, hi as int),
            find(t, p@) == find_from(t, p@, i - lo),
        decreases hi - i,
    {
        let m = matches_here(s, hi, p, i);
        proof {
            if i + p@.len() <= hi {
                assert(t.subrange(i - lo, i - lo + p@.len()) =~= s@.subrange(
                    i as int,
                    i + p@.len(),
                ));
            }
        }
        if m {
            return Some(i - lo);
        }
        if i >= hi {
            return None;
        }
        i = i + 1;
    }
}

} // verus!

verus! {

/// If `p` occurs at `k` and nowhere before, `find` reports `k`.
pub proof fn lemma_find_first(s: Seq<char>, p: Seq<char>, k: int)
    requires
        matches_at(s, p, k),
        forall|j: int| 0 <= j < k ==> !matches_at(s, p, j),
    ensures
        find(s, p) == Some(k),
{
    lemma_find_from(s, p, 0);
}

/// If `p` occurs nowhere, `find` reports nothing.
pub proof fn lemma_find_none(s: Seq<char>, p: Seq<char>)
    requires
        forall|j: int| 0 <= j ==> !matches_at(s, p, j),
    ensures
        find(s, p) is None,
{
    lemma_find_from(s, p, 0);
}

// ---------------------------------------------------------------------------
// lines
// ---------------------------------------------------------------------------

/// `l` without one trailing carriage return.
pub open spec fn strip_cr(l: Seq<char>) -> Seq<char> {
    if l.len() > 0 && l.last() == '\r' {
        l.drop_last()
    } else {
        l
    }
}

/// What `str::lines` yields: the pieces between line feeds, each without a
/// `\r` right before its line feed; a final line feed ends the last line
/// without starting an empty one.
pub open spec fn lines(s: Seq<char>) -> Seq<Seq<char>>
    decreases s.len(),
{
    if s.len() == 0 {
        Seq::empty()
    } else {
        match find(s, seq!['\n']) {
            Some(i) => {
                proof {
                    lemma_find_from(s, seq!['\n'], 0);
                }
                seq![strip_cr(s.take(i))] + lines(s.skip(i + 1))
            },
            None => seq![s],
        }
    }
}

/// The lines of `v`, as ranges `[start, end)` of `v`.
pub fn line_ranges(v: &Vec<char>) -> (r: Vec<(usize, usize)>)
    ensures
        r@.len() == lines(v@).len(),
        forall|k: int| 0 <= k < r@.len() ==> (#[trigger] r@[k]).0 <= r@[k].1 <= v@.len(),
        forall|k: int|
            0 <= k < r@.len() ==> #[trigger] lines(v@)[k] == v@.subrange(
                r@[k].0 as int,
                r@[k].1 as int,
            ),
{
    let ghost nl = seq!['\n'];
    let ghost mut done: Seq<Seq<char>> = Seq::empty();
    let mut r: Vec<(usize, usize)> = Vec::new();
    let mut start: usize = 0;
    let mut i: usize = 0;
    assert(v@.skip(0) =~= v@);
    while i < v.len()
        invariant
            start <= i <= v@.len(),
            nl == seq!['\n'],
            forall|j: int| start <= j < i ==> v@[j] != '\n',
            lines(v@) == done + lines(v@.skip(start as int)),
            r@.len() == done.len(),
            forall|k: int| 0 <= k < r@.len() ==> (#[trigger] r@[k]).0 <= r@[k].1 <= v@.len(),
            forall|k: int|
                0 <= k < r@.len() ==> #[trigger] done[k] == v@.subrange(
                    r@[k].0 as int,
                    r@[k].1 as int,
                ),
        decreases v@.len() - i,
    {
        if v[i] == '\n' {
            let ghost t = v@.skip(start as int);
            proof {
                assert forall|j: int| 0 <= j < i - start implies !matches_at(t, nl, j) by {
                    assert(t.subrange(j, j + 1)[0] == v@[start + j]);
                }
                assert(t.subrange(i - start, i - start + 1) =~= nl);
                lemma_find_first(t, nl, i - start);
                assert(t.skip(i - start + 1) =~= v@.skip(i + 1));
                assert(t.take(i - start) =~= v@.subrange(start as int, i as int));
            }
            let end = if i > start && v[i - 1] == '\r' {
                i - 1
            } else {
                i
            };
            proof {
                let l = v@.subrange(start as int, i as int);
                if i > start && v@[i - 1] == '\r' {
                    assert(l.drop_last() =~= v@.subrange(start as int, end as int));
                } else {
                    assert(l =~= v@.subrange(start as int, end as int));
                }
                let l0 = v@.subrange(start as int, end as int);
                assert(lines(t) == seq![l0] + lines(v@.skip(i + 1)));
                assert(done + lines(t) =~= done.push(l0) + lines(v@.skip(i + 1)));
            }
            let ghost prev = done;
            proof {
                done = done.push(v@.subrange(start as int, end as int));
            }
            r.push((start, end));
            assert forall|k: int| 0 <= k < r@.len() implies #[trigger] done[k] == v@.subrange(
                r@[k].0 as int,
                r@[k].1 as int,
            ) by {
                if k < prev.len() {
                    assert(done[k] == prev[k]);
                }
            }
            start = i + 1;
        }
        i = i + 1;
    }
    if start < v.len() {
        let ghost t = v@.skip(start as int);
        proof {
            assert forall|j: int| 0 <= j implies !matches_at(t, nl, j) by {
                if 0 <= j && j + 1 <= t.len() {
                    assert(t.subrange(j, j + 1)[0] == v@[start + j]);
                }
            }
            lemma_find_none(t, nl);
            assert(t =~= v@.subrange(start as int, v@.len() as int));
            assert(lines(t) == seq![t]);
            assert(lines(v@) =~= done.push(t));
        }
        let ghost prev = done;
        proof {
            done = done.push(v@.skip(start as int));
        }
        r.push((start, v.len()));
        assert forall|k: int| 0 <= k < r@.len() implies #[trigger] done[k] == v@.subrange(
            r@[k].0 as int,
            r@[k].1 as int,
        ) by {
            if k < prev.len() {
                assert(done[k] == prev[k]);
            }
        }
    } else {
        assert(v@.skip(start as int).len() == 0);
        assert(lines(v@) =~= done);
    }
    assert(lines(v@) == done);
    assert forall|k: int| 0 <= k < r@.len() implies (#[trigger] r@[k]).0 <= r@[k].1 <= v@.len()
        && lines(v@)[k] == v@.subrange(r@[k].0 as int, r@[k].1 as int) by {
        assert(done[k] == v@.subrange(r@[k].0 as int, r@[k].1 as int));
    }
    r
}

} // verus!

verus! {

// ---------------------------------------------------------------------------
// splitting
// ---------------------------------------------------------------------------

/// Number of leading characters of `s` that are not whitespace.
pub open spec fn word_len(s: Seq<char>) -> nat
    decreases s.len(),
{
    if s.len() == 0 || is_ws(s[0]) {
        0
    } else {
        1 + word_len(s.drop_first())
    }
}

pub proof fn lemma_word_len_bound(s: Seq<char>)
    ensures
        word_len(s) <= s.len(),
        s.len() > 0 && !is_ws(s[0]) ==> word_len(s) >= 1,
    decreases s.len(),
{
    if s.len() > 0 && !is_ws(s[0]) {
        lemma_word_len_bound(s.drop_first());
    }
}

/// What `str::split_whitespace` yields: the maximal runs of non-whitespace characters.
pub open spec fn words(s: Seq<char>) -> Seq<Seq<char>>
    decreases s.len(),
{
    if s.len() == 0 {
        Seq::empty()
    } else if is_ws(s[0]) {
        words(s.drop_first())
    } else {
        let n = word_len(s);
        proof {
            lemma_word_len_bound(s);
        }
        seq![s.take(n as int)] + words(s.skip(n as int))
    }
}

/// The views of a sequence of strings.
pub open spec fn views(v: Seq<String>) -> Seq<Seq<char>> {
    v.map_values(|s: String| s@)
}

/// `split_whitespace` of `v[lo..hi]`, as owned strings.
pub fn words_in(v: &Vec<char>, lo: usize, hi: usize) -> (r: Vec<String>)
    requires
        lo <= hi <= v@.len(),
    ensures
        views(r@) == words(v@.subrange(lo as int, hi as int)),
{
    let mut r: Vec<String> = Vec::new();
    let mut i = lo;
    while i < hi
        invariant
            lo <= i <= hi <= v@.len(),
            words(v@.subrange(lo as int, hi as int)) == views(r@) + words(
                v@.subrange(i as int, hi as int),
            ),
        decreases hi - i,
    {
        let ghost t = v@.subrange(i as int, hi as int);
        if is_whitespace(v[i]) {
            assert(t.drop_first() =~= v@.subrange(i + 1, hi as int));
            i = i + 1;
        } else {
            let mut j = i;
            while j < hi && !is_whitespace(v[j])
                invariant
                    i <= j <= hi <= v@.len(),
                    t == v@.subrange(i as int, hi as int),
                    word_len(t) == (j - i) + word_len(v@.subrange(j as int, hi as int)),
                decreases hi - j,
            {
                assert(v@.subrange(j as int, hi as int).drop_first() =~= v@.subrange(
                    j + 1,
                    hi as int,
                ));
                j = j + 1;
            }
            assert(word_len(t) == j - i);
            let w = string_in(v, i, j);
            proof {
                assert(t.take(j - i) =~= w@);
                assert(t.skip(j - i) =~= v@.subrange(j as int, hi as int));
                assert(views(r@.push(w)) =~= views(r@).push(w@));
                assert(views(r@) + words(t) =~= views(r@).push(w@) + words(
                    v@.subrange(j as int, hi as int),
                ));
            }
            r.push(w);
            i = j;
        }
    }
    assert(v@.subrange(i as int, hi as int).len() == 0);
    assert(views(r@) + Seq::<Seq<char>>::empty() =~= views(r@));
    r
}

/// What `str::split` with a non-empty string pattern yields.
pub open spec fn split_on(s: Seq<char>, p: Seq<char>) -> Seq<Seq<char>>
    decreases s.len(),
{
    if p.len() == 0 {
        seq![s]
    } else {
        match find(s, p) {
            Some(i) => {
                proof {
                    lemma_find_from(s, p, 0);
                }
                seq![s.take(i)] + split_on(s.skip(i + p.len()), p)
            },
            None => seq![s],
        }
    }
}

/// `split` of `v[lo..hi]` on the non-empty pattern `p`, as ranges of `v`.
pub fn split_ranges(v: &Vec<char>, lo: usize, hi: usize, p: &Vec<char>) -> (r: Vec<(usize, usize)>)
    requires
        lo <= hi <= v@.len(),
        p@.len() > 0,
    ensures
        r@.len() == split_on(v@.subrange(lo as int, hi as int), p@).len(),
        forall|k: int| 0 <= k < r@.len() ==> (#[trigger] r@[k]).0 <= r@[k].1 <= v@.len(),
        forall|k: int|
            0 <= k < r@.len() ==> #[trigger] split_on(v@.subrange(lo as int, hi as int), p@)[k]
                == v@.subrange(r@[k].0 as int, r@[k].1 as int),
{
    let ghost whole = split_on(v@.subrange(lo as int, hi as int), p@);
    let ghost mut done: Seq<Seq<char>> = Seq::empty();
    let mut r: Vec<(usize, usize)> = Vec::new();
    let mut i = lo;
    loop
        invariant
            lo <= i <= hi <= v@.len(),
            p@.len() > 0,
            whole == split_on(v@.subrange(lo as int, hi as int), p@),
            whole == done + split_on(v@.subrange(i as int, hi as int), p@),
            r@.len() == done.len(),
            forall|k: int| 0 <= k < r@.len() ==> (#[trigger] r@[k]).0 <= r@[k].1 <= v@.len(),
            forall|k: int|
                0 <= k < r@.len() ==> #[trigger] done[k] == v@.subrange(
                    r@[k].0 as int,
                    r@[k].1 as int,
                ),
        decreases hi - i,
    {
        let ghost t = v@.subrange(i as int, hi as int);
        let ghost prev = done;
        match find_in(v, i, hi, p) {
            Some(k) => {
                proof {
                    lemma_find_from(t, p@, 0);
                    assert(t.take(k as int) =~= v@.subrange(i as int, i + k));
                    assert(t.skip(k + p@.len()) =~= v@.subrange(i + k + p@.len(), hi as int));
                    assert(done + split_on(t, p@) =~= done.push(t.take(k as int)) + split_on(
                        t.skip(k + p@.len()),
                        p@,
                    ));
                    done = done.push(t.take(k as int));
                }
                r.push((i, i + k));
                assert forall|j: int| 0 <= j < r@.len() implies #[trigger] done[j]
                    == v@.subrange(r@[j].0 as int, r@[j].1 as int) by {
                    if j < prev.len() {
                        assert(done[j] == prev[j]);
                    }
                }
                i = i + k + p.len();
            },
            None => {
                proof {
                    assert(split_on(t, p@) == seq![t]);
                    assert(whole =~= done.push(t));
                    done = done.push(t);
                }
                r.push((i, hi));
                assert forall|j: int| 0 <= j < r@.len() implies #[trigger] done[j]
                    == v@.subrange(r@[j].0 as int, r@[j].1 as int) by {
                    if j < prev.len() {
                        assert(done[j] == prev[j]);
                    }
                }
                assert forall|j: int| 0 <= j < r@.len() implies #[trigger] whole[j]
                    == v@.subrange(r@[j].0 as int, r@[j].1 as int) by {
                    assert(done[j] == v@.subrange(r@[j].0 as int, r@[j].1 as int));
                }
                return r;
            },
        }
    }
}

// ---------------------------------------------------------------------------
// ordering of strings
// ---------------------------------------------------------------------------

/// `a < b` in the order of `str`: lexicographic by code point (the same as by UTF-8 bytes).
pub open spec fn lex_lt(a: Seq<char>, b: Seq<char>) -> bool
    decreases a.len(),
{
    if a.len() == 0 {
        b.len() > 0
    } else if b.len() == 0 {
        false
    } else if (a[0] as u32) < (b[0] as u32) {
        true
    } else if (a[0] as u32) > (b[0] as u32) {
        false
    } else {
        lex_lt(a.drop_first(), b.drop_first())
    }
}

pub proof fn lemma_lex_irreflexive(a: Seq<char>)
    ensures
        !lex_lt(a, a),
    decreases a.len(),
{
    if a.len() > 0 {
        lemma_lex_irreflexive(a.drop_first());
    }
}

pub proof fn lemma_lex_transitive(a: Seq<char>, b: Seq<char>, c: Seq<char>)
    requires
        lex_lt(a, b),
        lex_lt(b, c),
    ensures
        lex_lt(a, c),
    decreases a.len(),
{
    if a.len() > 0 && b.len() > 0 && c.len() > 0 {
        if (a[0] as u32) == (b[0] as u32) && (b[0] as u32) == (c[0] as u32) {
            lemma_lex_transitive(a.drop_first(), b.drop_first(), c.drop_first());
        }
    }
}

/// Characters with the same code are the same character.
pub proof fn lemma_char_code_injective(c: char, d: char)
    requires
        c as u32 == d as u32,
    ensures
        c == d,
{
    vstd::utf8::char_u32_cast(c, c as u32);
    vstd::utf8::char_u32_cast(d, d as u32);
}

pub proof fn lemma_lex_total(a: Seq<char>, b: Seq<char>)
    ensures
        lex_lt(a, b) || lex_lt(b, a) || a == b,
    decreases a.len(),
{
    if a.len() > 0 && b.len() > 0 {
        if (a[0] as u32) == (b[0] as u32) {
            lemma_char_code_injective(a[0], b[0]);
            lemma_lex_total(a.drop_first(), b.drop_first());
            if a.drop_first() == b.drop_first() {
                assert(a =~= seq![a[0]] + a.drop_first());
                assert(b =~= seq![b[0]] + b.drop_first());
            }
        }
    } else if a.len() == 0 && b.len() == 0 {
        assert(a =~= b);
    }
}

pub proof fn lemma_lex_asymmetric(a: Seq<char>, b: Seq<char>)
    ensures
        !(lex_lt(a, b) && lex_lt(b, a)),
{
    if lex_lt(a, b) && lex_lt(b, a) {
        lemma_lex_transitive(a, b, a);
        lemma_lex_irreflexive(a);
    }
}

/// Three-way comparison of `a` and `b` in the order of `str`: negative, zero or positive.
pub fn compare_chars(a: &Vec<char>, b: &Vec<char>) -> (r: i8)
    ensures
        r < 0 <==> lex_lt(a@, b@),
        r == 0 <==> a@ == b@,
        r > 0 <==> lex_lt(b@, a@),
{
    let mut i: usize = 0;
    assert(a@.skip(0) =~= a@);
    assert(b@.skip(0) =~= b@);
    assert(a@.take(0) =~= b@.take(0));
    while i < a.len() && i < b.len() && a[i] == b[i]
        invariant
            i <= a@.len(),
            i <= b@.len(),
            a@.take(i as int) == b@.take(i as int),
            lex_lt(a@, b@) == lex_lt(a@.skip(i as int), b@.skip(i as int)),
            lex_lt(b@, a@) == lex_lt(b@.skip(i as int), a@.skip(i as int)),
        decreases a@.len() - i,
    {
        assert(a@.skip(i as int).drop_first() =~= a@.skip(i + 1));
        assert(b@.skip(i as int).drop_first() =~= b@.skip(i + 1));
        assert(a@.take(i + 1) =~= a@.take(i as int).push(a@[i as int]));
        assert(b@.take(i + 1) =~= b@.take(i as int).push(b@[i as int]));
        i = i + 1;
    }
    proof {
        lemma_lex_asymmetric(a@, b@);
        lemma_lex_irreflexive(a@);
    }
    if i < a.len() && i < b.len() {
        assert(a@[i as int] != b@[i as int]);
        proof {
            if a@[i as int] as u32 == b@[i as int] as u32 {
                lemma_char_code_injective(a@[i as int], b@[i as int]);
            }
            assert(a@.skip(i as int)[0] == a@[i as int]);
            assert(b@.skip(i as int)[0] == b@[i as int]);
        }
        if (a[i] as u32) < (b[i] as u32) {
            -1
        } else {
            1
        }
    } else if i < a.len() {
        assert(a@.len() != b@.len());
        assert(b@.skip(i as int).len() == 0);
        1
    } else if i < b.len() {
        assert(a@.len() != b@.len());
        assert(a@.skip(i as int).len() == 0);
        -1
    } else {
        assert(a@ =~= a@.take(i as int));
        assert(b@ =~= b@.take(i as int));
        0
    }
}

} // verus!

verus! {

// ---------------------------------------------------------------------------
// case mapping
// ---------------------------------------------------------------------------

/// What `str::to_lowercase` gives back for a string with the characters `s`.
pub uninterp spec fn lowercase(s: Seq<char>) -> Seq<char>;

/// `str::to_lowercase`: the lowercase mapping of the Unicode standard (a
/// final capital sigma maps by its context). Its result is named, not described:
/// nothing is claimed of it but that it depends on `s` alone and that the
/// empty string stays empty.
#[verifier::external_body]
pub fn to_lowercase(s: &str) -> (r: String)
    ensures
        r@ == lowercase(s@),
        s@.len() == 0 ==> r@.len() == 0,
{
    s.to_lowercase()
}

// ---------------------------------------------------------------------------
// decimal numbers
// ---------------------------------------------------------------------------

/// The character of the decimal digit `d`.
pub open spec fn digit_char(d: nat) -> char {
    if d == 0 {
        '0'
    } else if d == 1 {
        '1'
    } else if d == 2 {
        '2'
    } else if d == 3 {
        '3'
    } else if d == 4 {
        '4'
    } else if d == 5 {
        '5'
    } else if d == 6 {
        '6'
    } else if d == 7 {
        '7'
    } else if d == 8 {
        '8'
    } else {
        '9'
    }
}

/// The decimal notation of `n`, without leading zeros (what `{}` prints for an integer).
pub open spec fn decimal(n: nat) -> Seq<char>
    decreases n,
{
    if n < 10 {
        seq![digit_char(n)]
    } else {
        decimal(n / 10).push(digit_char(n % 10))
    }
}

pub fn digit(d: u64) -> (c: char)
    requires
        d < 10,
    ensures
        c == digit_char(d as nat),
{
    if d == 0 {
        '0'
    } else if d == 1 {
        '1'
    } else if d == 2 {
        '2'
    } else if d == 3 {
        '3'
    } else if d == 4 {
        '4'
    } else if d == 5 {
        '5'
    } else if d == 6 {
        '6'
    } else if d == 7 {
        '7'
    } else if d == 8 {
        '8'
    } else {
        '9'
    }
}

/// Appends the decimal notation of `n` to `out`.
pub fn push_decimal(out: &mut Vec<char>, n: u64)
    ensures
        final(out)@ == old(out)@ + decimal(n as nat),
    decreases n,
{
    if n >= 10 {
        push_decimal(out, n / 10);
    }
    out.push(digit(n % 10));
    proof {
        if n >= 10 {
            assert(old(out)@ + decimal(n as nat) =~= old(out)@ + decimal((n / 10) as nat) + seq![
                digit_char((n % 10) as nat),
            ]);
        }
    }
}

} // verus!

verus! {

/// `split_whitespace` of `v[lo..hi]`, as ranges of `v`.
pub fn word_ranges(v: &Vec<char>, lo: usize, hi: usize) -> (r: Vec<(usize, usize)>)
    requires
        lo <= hi <= v@.len(),
    ensures
        r@.len() == words(v@.subrange(lo as int, hi as int)).len(),
        forall|k: int| 0 <= k < r@.len() ==> (#[trigger] r@[k]).0 <= r@[k].1 <= v@.len(),
        forall|k: int|
            0 <= k < r@.len() ==> #[trigger] words(v@.subrange(lo as int, hi as int))[k]
                == v@.subrange(r@[k].0 as int, r@[k].1 as int),
{
    let ghost whole = words(v@.subrange(lo as int, hi as int));
    let ghost mut done: Seq<Seq<char>> = Seq::empty();
    let mut r: Vec<(usize, usize)> = Vec::new();
    let mut i = lo;
    while i < hi
        invariant
            lo <= i <= hi <= v@.len(),
            whole == done + words(v@.subrange(i as int, hi as int)),
            r@.len() == done.len(),
            forall|k: int| 0 <= k < r@.len() ==> (#[trigger] r@[k]).0 <= r@[k].1 <= v@.len(),
            forall|k: int|
                0 <= k < r@.len() ==> #[trigger] done[k] == v@.subrange(
                    r@[k].0 as int,
                    r@[k].1 as int,
                ),
        decreases hi - i,
    {
        let ghost t = v@.subrange(i as int, hi as int);
        if is_whitespace(v[i]) {
            assert(t.drop_first() =~= v@.subrange(i + 1, hi as int));
            i = i + 1;
        } else {
            let mut j = i;
            while j < hi && !is_whitespace(v[j])
                invariant
                    i <= j <= hi <= v@.len(),
                    t == v@.subrange(i as int, hi as int),
                    word_len(t) == (j - i) + word_len(v@.subrange(j as int, hi as int)),
                decreases hi - j,
            {
                assert(v@.subrange(j as int, hi as int).drop_first() =~= v@.subrange(
                    j + 1,
                    hi as int,
                ));
                j = j + 1;
            }
            assert(word_len(t) == j - i);
            let ghost prev = done;
            proof {
                assert(t.take(j - i) =~= v@.subrange(i as int, j as int));
                assert(t.skip(j - i) =~= v@.subrange(j as int, hi as int));
                assert(done + words(t) =~= done.push(v@.subrange(i as int, j as int)) + words(
                    v@.subrange(j as int, hi as int),
                ));
                done = done.push(v@.subrange(i as int, j as int));
            }
            r.push((i, j));
            assert forall|k: int| 0 <= k < r@.len() implies #[trigger] done[k] == v@.subrange(
                r@[k].0 as int,
                r@[k].1 as int,
            ) by {
                if k < prev.len() {
                    assert(done[k] == prev[k]);
                }
            }
            i = j;
        }
    }
    assert(v@.subrange(i as int, hi as int).len() == 0);
    assert(whole =~= done);
    r
}

} // verus!

verus! {

/// A copy of `v[a..b]`.
pub fn sub_vec(v: &Vec<char>, a: usize, b: usize) -> (r: Vec<char>)
    requires
        a <= b <= v@.len(),
    ensures
        r@ == v@.subrange(a as int, b as int),
{
    let mut r: Vec<char> = Vec::new();
    let mut i = a;
    while i < b
        invariant
            a <= i <= b <= v@.len(),
            r@ == v@.subrange(a as int, i as int),
        decreases b - i,
    {
        r.push(v[i]);
        assert(r@ =~= v@.subrange(a as int, i + 1));
        i = i + 1;
    }
    r
}

} // verus!

verus! {

/// Appends the characters of `s` to `out`.
pub fn push_str(out: &mut Vec<char>, s: &str)
    ensures
        final(out)@ == old(out)@ + s@,
{
    let mut c = chars_of(s);
    out.append(&mut c);
}

} // verus!

verus! {

/// `String::push`: appends `c`.
#[verifier::external_body]
pub fn push_char(s: &mut String, c: char)
    ensures
        final(s)@ == old(s)@.push(c),
{
    s.push(c)
}

/// `String::pop`: removes the last character, if there is one.
#[verifier::external_body]
pub fn pop_char(s: &mut String)
    ensures
        final(s)@ == (if old(s)@.len() > 0 {
            old(s)@.drop_last()
        } else {
            old(s)@
        }),
{
    s.pop();
}

} // verus!
