//! What holds of the library across several operations.
use vstd::prelude::*;
use crate::app::{
    cache_names, cached_groups, count_reason, filter_key, filter_of_key, is_size_order, key_result, refiltered,
    tab_after, tab_before, ActivePane, App, DetailTab, FilterCategory, KeyCode, KeyEvent, UiState,
};
use crate::listing::{is_listing, lemma_precedes_order, precedes};
use crate::package::{
    category_base, category_name, groups_of, in_location, is_kept, kept_paths, location_files,
    sorted, used_locations, FileGroup, InstallReason, Package,
};
use crate::size::{
    bytes_text, decimal_literal, digit_run, digit_value, float_literal, is_digit, num, size_bytes,
    FloatLiteral,
};
use crate::text::{
    contains, decimal, digit_char, find, is_ws, lemma_find_from, lex_lt, lowercase, matches_at, views,
    word_len, words,
};

verus! {

/// Two sequences of positions, both strictly ordered by `precedes` under
/// `f` and holding the same positions, are equal.
proof fn lemma_sorted_unique(pkgs: Seq<Package>, f: FilterCategory, s1: Seq<usize>, s2: Seq<usize>)
    requires
        forall|a: int, b: int|
            0 <= a < b < s1.len() ==> precedes(pkgs, f, #[trigger] s1[a] as int, #[trigger] s1[b] as int),
        forall|a: int, b: int|
            0 <= a < b < s2.len() ==> precedes(pkgs, f, #[trigger] s2[a] as int, #[trigger] s2[b] as int),
        forall|x: usize| s1.contains(x) <==> s2.contains(x),
    ensures
        s1 == s2,
    decreases s1.len(),
{
    if s1.len() == 0 {
        if s2.len() > 0 {
            assert(s2.contains(s2[0]));
        }
        assert(s1 =~= s2);
    } else {
        assert(s1.contains(s1[0]));
        assert(s2.contains(s1[0]));
        assert(s2.contains(s2[0]));
        assert(s1.contains(s2[0]));
        let i = choose|i: int| 0 <= i < s1.len() && s1[i] == s2[0];
        let j = choose|j: int| 0 <= j < s2.len() && s2[j] == s1[0];
        if i > 0 && j > 0 {
            assert(precedes(pkgs, f, s1[0] as int, s1[i] as int));
            assert(precedes(pkgs, f, s2[0] as int, s2[j] as int));
            lemma_precedes_order(pkgs, f, s1[0] as int, s2[0] as int, 0);
        }
        assert(s1[0] == s2[0]);
        let t1 = s1.drop_first();
        let t2 = s2.drop_first();
        assert forall|a: int, b: int| 0 <= a < b < t1.len() implies precedes(
            pkgs,
            f,
            #[trigger] t1[a] as int,
            #[trigger] t1[b] as int,
        ) by {
            assert(t1[a] == s1[a + 1] && t1[b] == s1[b + 1]);
        }
        assert forall|a: int, b: int| 0 <= a < b < t2.len() implies precedes(
            pkgs,
            f,
            #[trigger] t2[a] as int,
            #[trigger] t2[b] as int,
        ) by {
            assert(t2[a] == s2[a + 1] && t2[b] == s2[b + 1]);
        }
        lemma_precedes_order(pkgs, f, s1[0] as int, s1[0] as int, 0);
        assert forall|x: usize| t1.contains(x) <==> t2.contains(x) by {
            if t1.contains(x) {
                let w = choose|w: int| 0 <= w < t1.len() && t1[w] == x;
                assert(s1[w + 1] == x);
                assert(precedes(pkgs, f, s1[0] as int, s1[w + 1] as int));
                assert(s1.contains(x));
                assert(s2.contains(x));
                let v = choose|v: int| 0 <= v < s2.len() && s2[v] == x;
                assert(v != 0);
                assert(t2[v - 1] == x);
            }
            if t2.contains(x) {
                let w = choose|w: int| 0 <= w < t2.len() && t2[w] == x;
                assert(s2[w + 1] == x);
                assert(precedes(pkgs, f, s2[0] as int, s2[w + 1] as int));
                assert(s2.contains(x));
                assert(s1.contains(x));
                let v = choose|v: int| 0 <= v < s1.len() && s1[v] == x;
                assert(v != 0);
                assert(t1[v - 1] == x);
            }
        }
        lemma_sorted_unique(pkgs, f, t1, t2);
        assert(s1 =~= s2) by {
            assert forall|k: int| 0 <= k < s1.len() implies s1[k] == s2[k] by {
                if k > 0 {
                    assert(s1[k] == t1[k - 1] && s2[k] == t2[k - 1]);
                }
            }
        }
    }
}

/// The list that a filter and a search show is determined by the packages,
/// the filter and the search: two lists that both meet `is_listing` are one.
pub proof fn law_listing_unique(
    pkgs: Seq<Package>,
    f: FilterCategory,
    query: Seq<char>,
    r1: Seq<usize>,
    r2: Seq<usize>,
)
    requires
        is_listing(pkgs, f, query, r1),
        is_listing(pkgs, f, query, r2),
    ensures
        r1 == r2,
{
    assert forall|x: usize| r1.contains(x) <==> r2.contains(x) by {
        if r1.contains(x) {
            let k = choose|k: int| 0 <= k < r1.len() && r1[k] == x;
            assert(r1[k] < pkgs.len());
            assert(pkgs[x as int] == pkgs[r1[k] as int]);
            assert(r2.contains((x as int) as usize));
        }
        if r2.contains(x) {
            let k = choose|k: int| 0 <= k < r2.len() && r2[k] == x;
            assert(r2[k] < pkgs.len());
            assert(pkgs[x as int] == pkgs[r2[k] as int]);
            assert(r1.contains((x as int) as usize));
        }
    }
    lemma_sorted_unique(pkgs, f, r1, r2);
}

/// Recomputing the list twice in a row changes nothing the second time.
pub proof fn law_refilter_idempotent(pkgs: Seq<Package>, u: UiState, v: UiState, w: UiState)
    requires
        refiltered(pkgs, u, v),
        refiltered(pkgs, v, w),
    ensures
        w == v,
{
    law_listing_unique(pkgs, u.filter, u.query, v.filtered, w.filtered);
}

/// Each filter has its own shortcut key, and that key names the filter.
pub proof fn law_shortcut_names_filter(f: FilterCategory, g: FilterCategory)
    ensures
        filter_of_key(filter_key(f)) == f,
        filter_key(f) == filter_key(g) ==> f == g,
{
}

/// Pressing the shortcut key of filter `f` while browsing selects `f`, lists
/// what `f` shows under the current search with its first entry selected;
/// pressing it again changes nothing.
pub proof fn law_filter_shortcut(
    pkgs: Seq<Package>,
    u: UiState,
    f: FilterCategory,
    control: bool,
    v: UiState,
    w: UiState,
)
    requires
        !u.searching,
        key_result(pkgs, u, KeyEvent { code: KeyCode::Char(filter_key(f)), control }, v),
        key_result(pkgs, v, KeyEvent { code: KeyCode::Char(filter_key(f)), control }, w),
    ensures
        v.filter == f,
        is_listing(pkgs, f, u.query, v.filtered),
        v.selected == (if v.filtered.len() == 0 {
            None
        } else {
            Some(0usize)
        }),
        v.scroll == 0,
        w == v,
{
    law_refilter_idempotent(pkgs, UiState { filter: f, ..u }, v, w);
}

/// The detail tabs go round (Info, Files, Deps, Info): the previous tab
/// undoes the next, and three steps come back.
pub proof fn law_tab_cycle(t: DetailTab)
    ensures
        tab_before(tab_after(t)) == t,
        tab_after(tab_before(t)) == t,
        tab_after(tab_after(tab_after(t))) == t,
        tab_after(t) != t,
{
}

/// In the detail pane, Right then Left comes back to the same tab, scrolled
/// to the top.
pub proof fn law_right_then_left(
    pkgs: Seq<Package>,
    u: UiState,
    right: KeyEvent,
    left: KeyEvent,
    v: UiState,
    w: UiState,
)
    requires
        !u.searching,
        u.pane == ActivePane::Detail,
        right.code == KeyCode::Right,
        left.code == KeyCode::Left,
        key_result(pkgs, u, right, v),
        key_result(pkgs, v, left, w),
    ensures
        w == (UiState { scroll: 0, ..u }),
{
    law_tab_cycle(u.tab);
}

/// While browsing, Tab twice (switching panes) or `d` twice (the
/// dashboard) leaves the state as it was.
pub proof fn law_toggle_twice(pkgs: Seq<Package>, u: UiState, key: KeyEvent, v: UiState, w: UiState)
    requires
        !u.searching,
        key.code == KeyCode::Tab || key.code == KeyCode::Char('d'),
        key_result(pkgs, u, key, v),
        key_result(pkgs, v, key, w),
    ensures
        w == u,
{
}

/// Control-C always quits; `q` quits while browsing, and while searching it
/// is typed into the search instead.
pub proof fn law_quit(pkgs: Seq<Package>, u: UiState, key: KeyEvent, v: UiState)
    requires
        key_result(pkgs, u, key, v),
    ensures
        key.control && key.code == KeyCode::Char('c') ==> v.quit,
        !u.searching && key.code == KeyCode::Char('q') ==> v.quit,
        u.searching && !key.control && key.code == KeyCode::Char('q') ==> v.query == u.query.push('q')
            && v.quit == u.quit,
{
}

/// While searching, typing a character and deleting it restores the search;
/// the list is then what that search shows, which is the list it started
/// from when that list was current.
pub proof fn law_type_then_delete(
    pkgs: Seq<Package>,
    u: UiState,
    c: char,
    control: bool,
    backspace: KeyEvent,
    v: UiState,
    w: UiState,
)
    requires
        u.searching,
        !(control && c == 'c'),
        backspace.code == KeyCode::Backspace,
        key_result(pkgs, u, KeyEvent { code: KeyCode::Char(c), control }, v),
        key_result(pkgs, v, backspace, w),
    ensures
        w.searching,
        w.query == u.query,
        w.filter == u.filter,
        is_listing(pkgs, u.filter, u.query, w.filtered),
        is_listing(pkgs, u.filter, u.query, u.filtered) ==> w.filtered == u.filtered,
{
    assert(u.query.push(c).drop_last() =~= u.query);
    if is_listing(pkgs, u.filter, u.query, u.filtered) {
        law_listing_unique(pkgs, u.filter, u.query, u.filtered, w.filtered);
    }
}

/// Esc ends a search and clears it; the list is then what the filter shows
/// with no search.
pub proof fn law_escape(pkgs: Seq<Package>, u: UiState, key: KeyEvent, v: UiState)
    requires
        u.searching,
        key.code == KeyCode::Esc,
        key_result(pkgs, u, key, v),
    ensures
        !v.searching,
        v.query == Seq::<char>::empty(),
        v.filter == u.filter,
        is_listing(pkgs, u.filter, Seq::empty(), v.filtered),
{
}

/// In the list pane, Down then Up comes back to the entry it started from
/// when that entry is not the last one.
pub proof fn law_down_then_up(
    pkgs: Seq<Package>,
    u: UiState,
    down: KeyEvent,
    up: KeyEvent,
    v: UiState,
    w: UiState,
)
    requires
        !u.searching,
        u.pane == ActivePane::List,
        u.scroll == 0,
        u.filtered.len() <= usize::MAX,
        u.selected matches Some(s) && s + 1 < u.filtered.len(),
        down.code == KeyCode::Down,
        up.code == KeyCode::Up,
        key_result(pkgs, u, down, v),
        key_result(pkgs, v, up, w),
    ensures
        w == u,
{
    let s = u.selected->0;
    assert(v == (UiState { scroll: 0, selected: Some((s + 1) as usize), ..u }));
    assert(w == (UiState { scroll: 0, selected: Some(s), ..u }));
}

/// Explicitly installed packages and dependencies together are no more than
/// all packages.
pub proof fn law_reason_counts(pkgs: Seq<Package>)
    ensures
        count_reason(pkgs, InstallReason::Explicit) + count_reason(pkgs, InstallReason::Dependency)
            <= pkgs.len(),
    decreases pkgs.len(),
{
    if pkgs.len() > 0 {
        law_reason_counts(pkgs.drop_last());
    }
}

/// The order of `top_largest` is the list that the Largest filter shows
/// under a search that lowercases to nothing.
pub proof fn law_top_largest_is_largest_list(
    pkgs: Seq<Package>,
    order: Seq<usize>,
    query: Seq<char>,
    r: Seq<usize>,
)
    requires
        is_size_order(pkgs, order),
        is_listing(pkgs, FilterCategory::Largest, query, r),
        lowercase(query).len() == 0,
    ensures
        order == r,
{
    assert forall|x: usize| order.contains(x) <==> r.contains(x) by {
        if order.contains(x) {
            let k = choose|k: int| 0 <= k < order.len() && order[k] == x;
            assert(order[k] < pkgs.len());
            assert(crate::listing::listed(pkgs[x as int], FilterCategory::Largest, query));
            assert(r.contains((x as int) as usize));
        }
        if r.contains(x) {
            let k = choose|k: int| 0 <= k < r.len() && r[k] == x;
            assert(r[k] < pkgs.len());
        }
    }
    lemma_sorted_unique(pkgs, FilterCategory::Largest, order, r);
}

/// Under the All filter and a search that lowercases to nothing, the list
/// is every package, in order.
pub proof fn law_all_lists_everything(pkgs: Seq<Package>, query: Seq<char>)
    requires
        pkgs.len() <= usize::MAX,
        lowercase(query).len() == 0,
    ensures
        is_listing(pkgs, FilterCategory::All, query, Seq::new(pkgs.len(), |i: int| i as usize)),
{
    let r = Seq::new(pkgs.len(), |i: int| i as usize);
    assert forall|k: int| 0 <= k < r.len() implies (#[trigger] r[k]) < pkgs.len() && crate::listing::listed(
        pkgs[r[k] as int],
        FilterCategory::All,
        query,
    ) by {
        assert(r[k] as int == k);
    }
    assert forall|a: int, b: int| 0 <= a < b < r.len() implies precedes(
        pkgs,
        FilterCategory::All,
        #[trigger] r[a] as int,
        #[trigger] r[b] as int,
    ) by {
        assert(r[a] as int == a && r[b] as int == b);
    }
    assert forall|i: int| 0 <= i < pkgs.len() && crate::listing::listed(#[trigger] pkgs[i], FilterCategory::All, query)
        implies r.contains(i as usize) by {
        assert(r[i] == i as usize);
    }
}

/// Once the files of a package are cached, they are not asked for again.
pub proof fn law_cached_not_reloaded(a: App, name: Seq<char>)
    requires
        cache_names(a.cached_files@).contains(name),
    ensures
        a.files_to_load() != Some(name),
{
}

/// What the cache gives back for a name is what was stored under it:
/// storing the groups of a name not cached yet makes them that name's
/// groups, and leaves every other name's groups as they were.
pub proof fn law_cache_read_after_write(
    c: Seq<(String, Vec<FileGroup>)>,
    entry: (String, Vec<FileGroup>),
    other: Seq<char>,
)
    requires
        !cache_names(c).contains(entry.0@),
    ensures
        cached_groups(c.push(entry), entry.0@) == Some(entry.1),
        other != entry.0@ ==> cached_groups(c.push(entry), other) == cached_groups(c, other),
    decreases c.len(),
{
    if c.len() > 0 {
        assert(cache_names(c)[0] == c[0].0@);
        assert(c.push(entry)[0] == c[0]);
        assert(c.push(entry).drop_first() =~= c.drop_first().push(entry));
        assert(!cache_names(c.drop_first()).contains(entry.0@)) by {
            if cache_names(c.drop_first()).contains(entry.0@) {
                let w = choose|w: int| 0 <= w < c.len() - 1 && cache_names(c.drop_first())[w] == entry.0@;
                assert(cache_names(c)[w + 1] == entry.0@);
            }
        }
        law_cache_read_after_write(c.drop_first(), entry, other);
    } else {
        assert(c.push(entry).drop_first() =~= c);
    }
}

/// The decimal notation of `n` is a non-empty run of digits worth `n`.
proof fn lemma_decimal_digits(n: nat)
    ensures
        decimal(n).len() >= 1,
        forall|i: int| 0 <= i < decimal(n).len() ==> is_digit(#[trigger] decimal(n)[i]),
        num(decimal(n)) == n,
    decreases n,
{
    lemma_digit_char_value(n % 10);
    if n < 10 {
        assert(decimal(n).drop_last() =~= Seq::<char>::empty());
        assert(num(decimal(n).drop_last()) == 0);
    } else {
        lemma_decimal_digits(n / 10);
        let d = decimal(n);
        assert(d.drop_last() =~= decimal(n / 10));
        assert(num(d.drop_last()) == n / 10);
        assert(d.last() == digit_char(n % 10));
        assert forall|i: int| 0 <= i < d.len() implies is_digit(#[trigger] d[i]) by {
            if i < d.len() - 1 {
                assert(d[i] == decimal(n / 10)[i]);
            }
        }
    }
}

/// The digit character of `k` is a digit worth `k`.
proof fn lemma_digit_char_value(k: nat)
    requires
        k < 10,
    ensures
        is_digit(digit_char(k)),
        digit_value(digit_char(k)) == k,
{
}

/// A run of digits followed by `s` starts with a word as long as the run
/// and `s`'s own leading word.
proof fn lemma_word_len_digits(d: Seq<char>, s: Seq<char>)
    requires
        forall|i: int| 0 <= i < d.len() ==> is_digit(#[trigger] d[i]),
    ensures
        word_len(d + s) == d.len() + word_len(s),
        digit_run(d + s) == d.len() + digit_run(s),
    decreases d.len(),
{
    if d.len() > 0 {
        assert(is_digit(d[0]));
        assert((d + s)[0] == d[0]);
        assert((d + s).drop_first() =~= d.drop_first() + s);
        assert forall|i: int| 0 <= i < d.drop_first().len() implies is_digit(#[trigger] d.drop_first()[i]) by {
            assert(d.drop_first()[i] == d[i + 1]);
        }
        lemma_word_len_digits(d.drop_first(), s);
    } else {
        assert(d + s =~= s);
    }
}

/// Sizes under 1 KiB read back exactly: what `parse_size_to_bytes` reads
/// from what `format_bytes` prints for `b` is `b`.
pub proof fn law_small_size_reads_back(b: u64)
    requires
        b < 1024,
    ensures
        size_bytes(bytes_text(b)) == b,
{
    reveal_strlit(" B");
    reveal_strlit("B");
    reveal_strlit("inf");
    reveal_strlit("infinity");
    reveal_strlit("nan");
    let d = decimal(b as nat);
    lemma_decimal_digits(b as nat);
    let unit = " B"@;
    let t = d + unit;
    assert(bytes_text(b) == t);
    // the two words: the digits, and the unit
    lemma_word_len_digits(d, unit);
    assert(is_ws(' '));
    assert(word_len(unit) == 0);
    assert(is_digit(d[0]));
    assert(t[0] == d[0]);
    assert(t.take(d.len() as int) =~= d);
    assert(t.skip(d.len() as int) =~= unit);
    let b_word = "B"@;
    assert(unit.drop_first() =~= b_word);
    assert(b_word.drop_first() =~= Seq::<char>::empty());
    assert(word_len(b_word.drop_first()) == 0);
    assert(!is_ws(b_word[0]));
    assert(word_len(b_word) == 1);
    assert(b_word.take(1) =~= b_word);
    assert(b_word.skip(1) =~= Seq::<char>::empty());
    assert(words(b_word.skip(1)) =~= Seq::<Seq<char>>::empty());
    assert(words(b_word) =~= seq![b_word]);
    assert(words(unit) =~= seq![b_word]);
    assert(words(t) =~= seq![d, b_word]);
    // the number: digits without point or exponent
    lemma_word_len_digits(d, Seq::<char>::empty());
    assert(d + Seq::<char>::empty() =~= d);
    assert(digit_run(d) == d.len());
    assert(d.skip(d.len() as int) =~= Seq::<char>::empty());
    assert(d.take(d.len() as int) =~= d);
    assert(decimal_literal(false, d) == Some(
        FloatLiteral::Finite { negative: false, digits: d, point: d.len() as int },
    ));
    lemma_digit_not_letter(d[0]);
    assert(float_literal(d) == Some(
        FloatLiteral::Finite { negative: false, digits: d, point: d.len() as int },
    ));
    assert(d + crate::size::zeros(0) =~= d);
    assert(d + Seq::<char>::empty() =~= d);
    assert(crate::size::unit_factor(b_word) == Some(1nat));
    assert(crate::size::integer_digits(d, d.len() as int) == d);
    assert(crate::size::fraction_digits(d, d.len() as int) == Seq::<char>::empty());
    assert(crate::size::pow10(0) == 1);
    assert(num(d) * 1 / 1 == b as nat);
    let bl = crate::size::bit_len(b as nat);
    crate::size::lemma_bit_len(b as nat);
    crate::size::lemma_two_pow_big();
    if bl > 53 {
        crate::size::lemma_two_pow_monotonic(53, (bl - 1) as nat);
    }
    let t = (54 - bl) as nat;
    crate::size::lemma_two_pow_positive(t);
    assert(crate::size::two_pow(t) == 2 * crate::size::two_pow((t - 1) as nat));
    crate::size::lemma_two_pow_positive((t - 1) as nat);
    vstd::arithmetic::div_mod::lemma_mod_multiples_vanish(b as int, 0, crate::size::two_pow(t) as int);
    vstd::arithmetic::div_mod::lemma_small_mod(0, crate::size::two_pow(t));
    assert((b as nat) * crate::size::two_pow(t) == crate::size::two_pow(t) * (b as nat)) by (nonlinear_arith);
    assert(((b as nat) * crate::size::two_pow(t)) / 1 == (b as nat) * crate::size::two_pow(t));
    assert(crate::size::nearest_floor(b as nat, 1) == b);
    assert(crate::size::rounded_floor(d, d.len() as int, 1) == b);
}

/// A digit is no letter, in either case.
proof fn lemma_digit_not_letter(c: char)
    requires
        is_digit(c),
    ensures
        crate::size::fold_case(c) == c as u32,
        crate::size::fold_case(c) != crate::size::fold_case('i'),
        crate::size::fold_case(c) != crate::size::fold_case('n'),
{
}

/// The paths of a location in a concatenation are those of each part.
proof fn lemma_location_files_add(x: Seq<Seq<char>>, y: Seq<Seq<char>>, o: u8)
    ensures
        location_files(x + y, o) == location_files(x, o) + location_files(y, o),
{
    let g = |f: Seq<char>| crate::text::trim(f);
    assert((x + y).map_values(g) =~= x.map_values(g) + y.map_values(g));
    assert(kept_paths(x + y) == (x.map_values(g) + y.map_values(g)).filter(is_kept()));
    Seq::filter_distributes_over_add(x.map_values(g), y.map_values(g), is_kept());
    assert(kept_paths(x + y) == kept_paths(x) + kept_paths(y));
    Seq::filter_distributes_over_add(kept_paths(x), kept_paths(y), in_location(o));
}

/// Two lists of the same paths, in any order, hold the same paths of each
/// location.
proof fn lemma_location_files_permuted(f1: Seq<Seq<char>>, f2: Seq<Seq<char>>, o: u8)
    requires
        f1.to_multiset() == f2.to_multiset(),
    ensures
        location_files(f1, o).to_multiset() == location_files(f2, o).to_multiset(),
    decreases f1.len(),
{
    broadcast use vstd::seq_lib::group_to_multiset_ensures, vstd::multiset::group_multiset_axioms;

    assert(f1.to_multiset().len() == f1.len());
    assert(f2.to_multiset().len() == f2.len());
    if f1.len() == 0 {
        assert(f2.len() == 0);
        assert(f1 =~= f2);
    } else {
        let a = f1.last();
        let f1r = f1.drop_last();
        assert(f1r.push(a) =~= f1);
        assert(f1.to_multiset().count(a) > 0);
        assert(f2.contains(a));
        let i = choose|i: int| 0 <= i < f2.len() && f2[i] == a;
        let x = f2.take(i);
        let y = f2.skip(i + 1);
        assert(f2.remove(i) =~= x + y);
        assert(f2 =~= x + seq![a] + y);
        assert(f1r.to_multiset() =~= (x + y).to_multiset()) by {
            assert(f1.to_multiset() =~= f1r.to_multiset().insert(a));
            assert(f2.remove(i).to_multiset() =~= f2.to_multiset().remove(a));
        }
        lemma_location_files_permuted(f1r, x + y, o);
        lemma_location_files_add(f1r, seq![a], o);
        lemma_location_files_add(x, y, o);
        lemma_location_files_add(x + seq![a], y, o);
        lemma_location_files_add(x, seq![a], o);
        vstd::seq_lib::lemma_multiset_commutative(location_files(f1r, o), location_files(seq![a], o));
        vstd::seq_lib::lemma_multiset_commutative(location_files(x, o), location_files(y, o));
        vstd::seq_lib::lemma_multiset_commutative(
            location_files(x, o) + location_files(seq![a], o),
            location_files(y, o),
        );
        vstd::seq_lib::lemma_multiset_commutative(location_files(x, o), location_files(seq![a], o));
        let mx = location_files(x, o).to_multiset();
        let my = location_files(y, o).to_multiset();
        let ma = location_files(seq![a], o).to_multiset();
        assert(f1r + seq![a] =~= f1);
        assert((x + seq![a]) + y =~= f2);
        assert(location_files(f1, o).to_multiset() == location_files(f1r, o).to_multiset().add(ma));
        assert(location_files(f1r, o).to_multiset() == mx.add(my));
        assert(location_files(f2, o) == location_files(x, o) + location_files(seq![a], o)
            + location_files(y, o));
        assert(location_files(f2, o).to_multiset() == mx.add(ma).add(my));
        assert(mx.add(ma).add(my) =~= mx.add(my).add(ma));
    }
}

/// Two lists of the same paths use the same locations.
proof fn lemma_used_locations_permuted(f1: Seq<Seq<char>>, f2: Seq<Seq<char>>, o: nat)
    requires
        f1.to_multiset() == f2.to_multiset(),
    ensures
        used_locations(f1, o) == used_locations(f2, o),
    decreases 11 - o,
{
    broadcast use vstd::seq_lib::group_to_multiset_ensures;

    if o < 11 {
        lemma_location_files_permuted(f1, f2, o as u8);
        assert(location_files(f1, o as u8).len() == location_files(f1, o as u8).to_multiset().len());
        assert(location_files(f2, o as u8).len() == location_files(f2, o as u8).to_multiset().len());
        lemma_used_locations_permuted(f1, f2, o + 1);
    }
}

/// Two sorted sequences of the same strings are equal.
proof fn lemma_sorted_same(s1: Seq<Seq<char>>, s2: Seq<Seq<char>>)
    requires
        sorted(s1),
        sorted(s2),
        s1.to_multiset() == s2.to_multiset(),
    ensures
        s1 == s2,
    decreases s1.len(),
{
    broadcast use vstd::seq_lib::group_to_multiset_ensures, vstd::multiset::group_multiset_axioms;

    assert(s1.to_multiset().len() == s1.len());
    assert(s2.to_multiset().len() == s2.len());
    if s1.len() == 0 {
        assert(s2.len() == 0);
        assert(s1 =~= s2);
    } else {
        assert(s2.len() == s1.len());
        assert(s1.to_multiset().count(s1[0]) > 0);
        assert(s2.to_multiset().count(s2[0]) > 0);
        assert(s2.contains(s1[0]));
        assert(s1.contains(s2[0]));
        let i = choose|i: int| 0 <= i < s2.len() && s2[i] == s1[0];
        let j = choose|j: int| 0 <= j < s1.len() && s1[j] == s2[0];
        crate::text::lemma_lex_total(s1[0], s2[0]);
        if s1[0] != s2[0] {
            if i > 0 {
                assert(!lex_lt(s2[i], s2[0]));
            }
            if j > 0 {
                assert(!lex_lt(s1[j], s1[0]));
            }
            crate::text::lemma_lex_irreflexive(s1[0]);
            crate::text::lemma_lex_irreflexive(s2[0]);
        }
        let t1 = s1.drop_first();
        let t2 = s2.drop_first();
        assert(s1.remove(0) =~= t1);
        assert(s2.remove(0) =~= t2);
        assert(t1.to_multiset() =~= t2.to_multiset());
        assert(sorted(t1)) by {
            assert forall|a: int, b: int| 0 <= a < b < t1.len() implies !lex_lt(
                #[trigger] t1[b],
                #[trigger] t1[a],
            ) by {
                assert(t1[a] == s1[a + 1] && t1[b] == s1[b + 1]);
            }
        }
        assert(sorted(t2)) by {
            assert forall|a: int, b: int| 0 <= a < b < t2.len() implies !lex_lt(
                #[trigger] t2[b],
                #[trigger] t2[a],
            ) by {
                assert(t2[a] == s2[a + 1] && t2[b] == s2[b + 1]);
            }
        }
        lemma_sorted_same(t1, t2);
        assert forall|k: int| 0 <= k < s1.len() implies s1[k] == s2[k] by {
            if k > 0 {
                assert(s1[k] == t1[k - 1] && s2[k] == t2[k - 1]);
            }
        }
        assert(s1 =~= s2);
    }
}

/// The groups do not depend on the order of the paths: two lists of the
/// same paths, in any order, give groups with the same names, directories
/// and files, in the same order.
pub proof fn law_group_files_order_free(
    f1: Seq<Seq<char>>,
    f2: Seq<Seq<char>>,
    r1: Seq<FileGroup>,
    r2: Seq<FileGroup>,
)
    requires
        f1.to_multiset() == f2.to_multiset(),
        groups_of(f1, r1),
        groups_of(f2, r2),
    ensures
        r1.len() == r2.len(),
        forall|k: int|
            0 <= k < r1.len() ==> {
                &&& (#[trigger] r1[k]).category@ == r2[k].category@
                &&& r1[k].base_path@ == r2[k].base_path@
                &&& views(r1[k].files@) == views(r2[k].files@)
            },
{
    lemma_used_locations_permuted(f1, f2, 0);
    assert forall|k: int| 0 <= k < r1.len() implies {
        &&& (#[trigger] r1[k]).category@ == r2[k].category@
        &&& r1[k].base_path@ == r2[k].base_path@
        &&& views(r1[k].files@) == views(r2[k].files@)
    } by {
        let o = used_locations(f1, 0)[k];
        assert(r2[k].category@ == category_name(o));
        lemma_location_files_permuted(f1, f2, o);
        lemma_sorted_same(views(r1[k].files@), views(r2[k].files@));
    }
}

/// A run of characters that are no whitespace, followed by `s`, starts
/// with a word as long as the run and `s`'s own leading word.
proof fn lemma_word_len_plain(d: Seq<char>, s: Seq<char>)
    requires
        forall|i: int| 0 <= i < d.len() ==> !is_ws(#[trigger] d[i]),
    ensures
        word_len(d + s) == d.len() + word_len(s),
    decreases d.len(),
{
    if d.len() > 0 {
        assert((d + s)[0] == d[0]);
        assert((d + s).drop_first() =~= d.drop_first() + s);
        assert forall|i: int| 0 <= i < d.drop_first().len() implies !is_ws(#[trigger] d.drop_first()[i]) by {
            assert(d.drop_first()[i] == d[i + 1]);
        }
        lemma_word_len_plain(d.drop_first(), s);
    } else {
        assert(d + s =~= s);
    }
}

/// A number, a space and a unit are two words.
proof fn lemma_two_words(w: Seq<char>, u: Seq<char>)
    requires
        w.len() >= 1,
        u.len() >= 1,
        forall|i: int| 0 <= i < w.len() ==> !is_ws(#[trigger] w[i]),
        forall|i: int| 0 <= i < u.len() ==> !is_ws(#[trigger] u[i]),
    ensures
        words(w + (seq![' '] + u)) == seq![w, u],
{
    let rest = seq![' '] + u;
    let t = w + rest;
    assert(is_ws(' '));
    assert(rest[0] == ' ');
    assert(word_len(rest) == 0);
    lemma_word_len_plain(w, rest);
    assert(t[0] == w[0]);
    assert(t.take(w.len() as int) =~= w);
    assert(t.skip(w.len() as int) =~= rest);
    assert(rest.drop_first() =~= u);
    lemma_word_len_plain(u, Seq::<char>::empty());
    assert(u + Seq::<char>::empty() =~= u);
    assert(word_len(Seq::<char>::empty()) == 0);
    assert(u[0] == u[0]);
    assert(u.take(u.len() as int) =~= u);
    assert(u.skip(u.len() as int) =~= Seq::<char>::empty());
    assert(words(Seq::<char>::empty()) =~= Seq::<Seq<char>>::empty());
    assert(words(u) =~= seq![u]);
    assert(words(rest) =~= seq![u]);
    assert(words(t) =~= seq![w, u]);
}

/// The floor of the nearest `f64` lies within two of the number's floor,
/// below `2^54`.
proof fn lemma_nearest_near(p: nat, q: nat)
    requires
        q > 0,
        p / q < 0x40_0000_0000_0000,
    ensures
        p / q <= crate::size::nearest_floor(p, q) + 1,
        crate::size::nearest_floor(p, q) <= p / q + 2,
{
    let n = p / q;
    crate::size::lemma_two_pow_big();
    if n >= 0x20_0000_0000_0000 {
        let bl = crate::size::bit_len(n);
        crate::size::lemma_bit_len(n);
        if bl < 54 {
            crate::size::lemma_two_pow_monotonic(bl, 53);
        }
        if bl > 54 {
            crate::size::lemma_two_pow_monotonic(54, (bl - 1) as nat);
        }
        assert(bl == 54);
        assert(crate::size::two_pow(1) == 2) by {
            reveal_with_fuel(crate::size::two_pow, 2);
        }
        let k = n / 2;
        assert(k * 2 <= n <= k * 2 + 1);
        assert(crate::size::two_pow(0) == 1);
        let r0 = crate::size::nearest_floor(p, q);
        assert(r0 == k * 2 || r0 == (k + 1) * 2);
    } else {
        let r0 = crate::size::nearest_floor(p, q);
        assert(r0 == n || r0 == n + 1);
    }
}

/// Two digits worth `v`.
proof fn lemma_two_digits(v: nat)
    requires
        v < 100,
    ensures
        num(seq![digit_char(v / 10), digit_char(v % 10)]) == v,
        is_digit(digit_char(v / 10)),
        is_digit(digit_char(v % 10)),
{
    lemma_digit_char_value(v / 10);
    lemma_digit_char_value(v % 10);
    let t = seq![digit_char(v / 10), digit_char(v % 10)];
    assert(t.drop_last() =~= seq![digit_char(v / 10)]);
    assert(t.drop_last().drop_last() =~= Seq::<char>::empty());
    assert(num(t.drop_last().drop_last()) == 0);
    assert(num(t.drop_last()) == v / 10);
    assert(num(t) == (v / 10) * 10 + v % 10);
}

/// What `format_bytes` prints for `b` at or above 1 KiB, in the unit of
/// `m = 2^shift` bytes, reads back within `m / 200 + 2` bytes of `b`.
proof fn lemma_reads_back_scaled(b: u64, shift: nat, unit: Seq<char>, m: nat)
    requires
        b < 0x20_0000_0000_0000,
        10 <= shift <= 30,
        m == crate::size::two_pow(shift),
        crate::size::unit_factor(unit) == Some(m),
        unit.len() >= 1,
        forall|i: int| 0 <= i < unit.len() ==> !is_ws(#[trigger] unit[i]),
    ensures
        ({
            let r = size_bytes(crate::size::two_decimals(b, shift) + (seq![' '] + unit));
            &&& 200 * r <= 200 * b + m + 400
            &&& 200 * b <= 200 * r + m + 400
        }),
{
    reveal_strlit("inf");
    reveal_strlit("infinity");
    reveal_strlit("nan");
    crate::size::lemma_two_pow_big();
    crate::size::lemma_two_pow_positive(shift);
    crate::size::lemma_two_pow_monotonic(shift, 30);
    assert(crate::size::two_pow(30) == 0x4000_0000) by {
        reveal_with_fuel(crate::size::two_pow, 31);
    }
    // the printed number
    assert(crate::size::f64_shift(b as nat) == 0);
    assert(crate::size::two_pow(0) == 1);
    assert(crate::size::f64_value(b as nat) == b);
    let x = (b as nat) * 100;
    let h = crate::size::div_round_even(x, m);
    let q0 = x / m;
    let r0 = x % m;
    lemma_fundamental_div_mod_nat(x, m);
    assert(2 * h * m <= 200 * b + m && 200 * b <= 2 * h * m + m) by (nonlinear_arith)
        requires
            x == m * q0 + r0,
            0 <= r0 < m,
            h == q0 || h == q0 + 1,
            h == q0 + 1 ==> 2 * r0 >= m,
            h == q0 ==> 2 * r0 <= m,
            x == (b as nat) * 100,
    ;
    let dd = decimal(h / 100);
    lemma_decimal_digits(h / 100);
    let v = h % 100;
    lemma_two_digits(v);
    assert(v % 10 == h % 10) by {
        lemma_fundamental_div_mod_nat(h, 100);
        vstd::arithmetic::div_mod::lemma_mod_multiples_vanish(10 * (h / 100) as int, v as int, 10);
        assert(10 * (10 * (h / 100)) + v == h);
    }
    let e = seq![digit_char(v / 10), digit_char(v % 10)];
    let w0 = dd + seq!['.', digit_char(v / 10), digit_char(v % 10)];
    assert(crate::size::two_decimals(b, shift) == w0);
    // two words
    assert forall|i: int| 0 <= i < w0.len() implies !is_ws(#[trigger] w0[i]) by {
        if i < dd.len() {
            assert(is_digit(dd[i]));
        } else if i == dd.len() {
            assert(w0[i] == '.');
        } else if i == dd.len() + 1 {
            assert(w0[i] == digit_char(v / 10));
        } else {
            assert(w0[i] == digit_char(v % 10));
        }
    }
    lemma_two_words(w0, unit);
    // the number word
    let tail = seq!['.', digit_char(v / 10), digit_char(v % 10)];
    assert(w0 == dd + tail);
    lemma_word_len_digits(dd, tail);
    assert(digit_run(tail) == 0);
    let ln = dd.len();
    assert(w0.skip(ln as int) =~= tail);
    assert(w0.skip(ln as int + 1) =~= e);
    lemma_word_len_digits(e, Seq::<char>::empty());
    assert(e + Seq::<char>::empty() =~= e);
    assert forall|i: int| 0 <= i < e.len() implies is_digit(#[trigger] e[i]) by {}
    assert(digit_run(Seq::<char>::empty()) == 0);
    assert(digit_run(e) == 2);
    assert(w0.skip(ln as int + 3) =~= Seq::<char>::empty());
    assert(w0.take(ln as int) =~= dd);
    assert(w0.subrange(ln as int + 1, ln as int + 3) =~= e);
    assert(crate::size::mantissa(w0) == dd + e);
    assert(crate::size::after_mantissa(w0).len() == 0);
    assert(decimal_literal(false, w0) == Some(
        FloatLiteral::Finite { negative: false, digits: dd + e, point: ln as int },
    ));
    lemma_digit_not_letter(w0[0]);
    assert(float_literal(w0) == Some(
        FloatLiteral::Finite { negative: false, digits: dd + e, point: ln as int },
    ));
    // the value read
    let de = dd + e;
    assert(crate::size::integer_digits(de, ln as int) =~= dd);
    assert(crate::size::fraction_digits(de, ln as int) =~= e);
    crate::size::lemma_num_concat(dd, e);
    assert(crate::size::pow10(2) == 100) by {
        reveal_with_fuel(crate::size::pow10, 3);
    }
    lemma_fundamental_div_mod_nat(h, 100);
    assert(num(dd + e) == h);
    let p = h * m;
    assert(p / 100 < 0x40_0000_0000_0000) by (nonlinear_arith)
        requires
            2 * h * m <= 200 * b + m,
            b < 0x20_0000_0000_0000,
            m <= 0x4000_0000,
            p == h * m,
    ;
    lemma_nearest_near(p, 100);
    let n = p / 100;
    lemma_fundamental_div_mod_nat(p, 100);
    let r = crate::size::nearest_floor(p, 100);
    assert(r <= 0x40_0000_0000_0002);
    assert(crate::size::rounded_floor(de, ln as int, m) == r);
    assert(size_bytes(w0 + (seq![' '] + unit)) == r);
    assert(200 * r <= 200 * b + m + 400 && 200 * b <= 200 * r + m + 400) by (nonlinear_arith)
        requires
            2 * h * m <= 200 * b + m,
            200 * b <= 2 * h * m + m,
            p == h * m,
            p == 100 * n + p % 100,
            0 <= p % 100 < 100,
            n <= r + 1,
            r <= n + 2,
    ;
}

/// `x == m * (x / m) + x % m` with the remainder below `m`.
proof fn lemma_fundamental_div_mod_nat(x: nat, m: nat)
    requires
        m > 0,
    ensures
        x == m * (x / m) + x % m,
        x % m < m,
{
    vstd::arithmetic::div_mod::lemma_fundamental_div_mod(x as int, m as int);
}

/// A printed size reads back: exactly below 1 KiB, and otherwise within half
/// of the last printed decimal of its unit and two bytes: with `u` the unit
/// (1 KiB, 1 MiB or 1 GiB), what `parse_size_to_bytes` reads from what
/// `format_bytes` prints for `b` is within `u / 200 + 2` of `b`.
pub proof fn law_size_reads_back(b: u64)
    requires
        b < 0x20_0000_0000_0000,
    ensures
        ({
            let r = size_bytes(bytes_text(b));
            let u: nat = if b >= 0x4000_0000 {
                0x4000_0000
            } else if b >= 0x10_0000 {
                0x10_0000
            } else if b >= 0x400 {
                0x400
            } else {
                1
            };
            &&& b < 1024 ==> r == b
            &&& 200 * r <= 200 * b + u + 400
            &&& 200 * b <= 200 * r + u + 400
        }),
{
    reveal_strlit("B");
    reveal_strlit("TiB");
    reveal_strlit(" KiB");
    reveal_strlit("KiB");
    reveal_strlit(" MiB");
    reveal_strlit("MiB");
    reveal_strlit(" GiB");
    reveal_strlit("GiB");
    if b < 1024 {
        law_small_size_reads_back(b);
    } else if b < 0x10_0000 {
        assert(crate::size::two_pow(10) == 0x400) by {
            reveal_with_fuel(crate::size::two_pow, 11);
        }
        assert(" KiB"@ =~= seq![' '] + "KiB"@);
        lemma_reads_back_scaled(b, 10, "KiB"@, 0x400);
    } else if b < 0x4000_0000 {
        assert(crate::size::two_pow(20) == 0x10_0000) by {
            reveal_with_fuel(crate::size::two_pow, 21);
        }
        assert(" MiB"@ =~= seq![' '] + "MiB"@);
        assert("MiB"@[0] != "KiB"@[0] && "MiB"@[0] != "B"@[0]);
        lemma_reads_back_scaled(b, 20, "MiB"@, 0x10_0000);
    } else {
        assert(crate::size::two_pow(30) == 0x4000_0000) by {
            reveal_with_fuel(crate::size::two_pow, 31);
        }
        assert(" GiB"@ =~= seq![' '] + "GiB"@);
        assert("GiB"@[0] != "KiB"@[0] && "GiB"@[0] != "MiB"@[0] && "GiB"@[0] != "B"@[0]);
        lemma_reads_back_scaled(b, 30, "GiB"@, 0x4000_0000);
    }
}

/// Text within text is within the outer text: `contains` is transitive.
proof fn lemma_contains_transitive(s: Seq<char>, mid: Seq<char>, p: Seq<char>)
    requires
        contains(s, mid),
        contains(mid, p),
    ensures
        contains(s, p),
{
    lemma_find_from(s, mid, 0);
    lemma_find_from(mid, p, 0);
    let k2 = find(s, mid)->0;
    let k1 = find(mid, p)->0;
    assert(s.subrange(k2 + k1, k2 + k1 + p.len()) =~= p) by {
        assert forall|j: int| 0 <= j < p.len() implies s.subrange(k2 + k1, k2 + k1 + p.len())[j]
            == p[j] by {
            assert(mid.subrange(k1, k1 + p.len())[j] == mid[k1 + j]);
            assert(s.subrange(k2, k2 + mid.len())[k1 + j] == s[k2 + k1 + j]);
        }
    }
    assert(matches_at(s, p, k2 + k1));
    lemma_find_from(s, p, 0);
}

/// Typing more into the search can only narrow the list: when the longer
/// search, lowercased, contains the shorter one, lowercased, every package
/// that the longer search lists under a filter, the shorter one lists too
/// (so deleting a character never loses a match).
pub proof fn law_search_narrows(
    pkgs: Seq<Package>,
    f: FilterCategory,
    short: Seq<char>,
    long: Seq<char>,
    r_short: Seq<usize>,
    r_long: Seq<usize>,
)
    requires
        contains(lowercase(long), lowercase(short)),
        is_listing(pkgs, f, short, r_short),
        is_listing(pkgs, f, long, r_long),
    ensures
        forall|x: usize| r_long.contains(x) ==> r_short.contains(x),
{
    let ls = lowercase(short);
    let ll = lowercase(long);
    lemma_find_from(ll, ls, 0);
    assert forall|x: usize| r_long.contains(x) implies r_short.contains(x) by {
        let k = choose|k: int| 0 <= k < r_long.len() && r_long[k] == x;
        assert(r_long[k] < pkgs.len());
        let p = pkgs[x as int];
        assert(crate::listing::listed(p, f, long));
        if ll.len() > 0 {
            if contains(lowercase(p.name@), ll) {
                lemma_contains_transitive(lowercase(p.name@), ll, ls);
            } else {
                lemma_contains_transitive(lowercase(p.description@), ll, ls);
            }
        }
        assert(crate::listing::listed(p, f, short));
        assert(r_short.contains((x as int) as usize));
    }
}

// ---------------------------------------------------------------------------
// what each field and each section is read from
// ---------------------------------------------------------------------------

/// Each field of a package read from `pacman -Qi` comes from the pacman
/// field that bears its name: the text fields verbatim, the list fields as
/// the words of their field (nothing for "None"), the size in bytes from
/// "Installed Size", the reason from "Install Reason".
pub proof fn law_fields_by_name(p: Package, f: crate::pacman::Fields)
    requires
        crate::pacman::built_from(p, f),
    ensures
        p.name@ == crate::pacman::lookup(f, "Name"@),
        p.version@ == crate::pacman::lookup(f, "Version"@),
        p.description@ == crate::pacman::lookup(f, "Description"@),
        p.architecture@ == crate::pacman::lookup(f, "Architecture"@),
        p.url@ == crate::pacman::lookup(f, "URL"@),
        views(p.licenses@) == crate::pacman::list_value(crate::pacman::lookup(f, "Licenses"@)),
        views(p.groups@) == crate::pacman::list_value(crate::pacman::lookup(f, "Groups"@)),
        views(p.provides@) == crate::pacman::list_value(crate::pacman::lookup(f, "Provides"@)),
        views(p.depends@) == crate::pacman::list_value(crate::pacman::lookup(f, "Depends On"@)),
        views(p.required_by@) == crate::pacman::list_value(crate::pacman::lookup(f, "Required By"@)),
        views(p.optional_for@) == crate::pacman::list_value(crate::pacman::lookup(f, "Optional For"@)),
        views(p.conflicts@) == crate::pacman::list_value(crate::pacman::lookup(f, "Conflicts With"@)),
        views(p.replaces@) == crate::pacman::list_value(crate::pacman::lookup(f, "Replaces"@)),
        p.installed_size@ == crate::pacman::lookup(f, "Installed Size"@),
        p.installed_size_bytes == size_bytes(crate::pacman::lookup(f, "Installed Size"@)),
        p.packager@ == crate::pacman::lookup(f, "Packager"@),
        p.build_date@ == crate::pacman::lookup(f, "Build Date"@),
        p.install_date@ == crate::pacman::lookup(f, "Install Date"@),
        p.validated_by@ == crate::pacman::lookup(f, "Validated By"@),
        crate::pacman::lookup(f, "Replaces"@) == "None"@ ==> p.replaces@.len() == 0,
        crate::pacman::lookup(f, "Conflicts With"@) == "None"@ ==> p.conflicts@.len() == 0,
{
}

/// The months in calendar order, as pacman abbreviates them.
pub open spec fn calendar() -> Seq<Seq<char>> {
    seq![
        "Jan"@,
        "Feb"@,
        "Mar"@,
        "Apr"@,
        "May"@,
        "Jun"@,
        "Jul"@,
        "Aug"@,
        "Sep"@,
        "Oct"@,
        "Nov"@,
        "Dec"@,
    ]
}

/// The `i`-th month of the calendar (counting from 0) reads as month
/// `i + 1`, so a later month reads as a greater number.
pub proof fn law_months_in_calendar_order(i: int, j: int)
    requires
        0 <= i < j < 12,
    ensures
        crate::dates::month_value(calendar()[i]) == Some((i + 1) as nat),
        crate::dates::month_value(calendar()[j]) == Some((j + 1) as nat),
        crate::dates::month_value(calendar()[i])->0 < crate::dates::month_value(calendar()[j])->0,
{
    reveal_strlit("Jan");
    reveal_strlit("Feb");
    reveal_strlit("Mar");
    reveal_strlit("Apr");
    reveal_strlit("May");
    reveal_strlit("Jun");
    reveal_strlit("Jul");
    reveal_strlit("Aug");
    reveal_strlit("Sep");
    reveal_strlit("Oct");
    reveal_strlit("Nov");
    reveal_strlit("Dec");
    let c = calendar();
    assert forall|a: int, b: int| 0 <= a < b < 12 implies c[a] != c[b] by {
        if c[a] == c[b] {
            assert(c[a][0] == c[b][0] && c[a][1] == c[b][1] && c[a][2] == c[b][2]);
        }
    }
    assert forall|k: int| 0 <= k < 12 implies crate::dates::month_value(#[trigger] c[k]) == Some(
        (k + 1) as nat,
    ) by {
        if k >= 1 {
            assert(c[k] != c[0]);
        }
        if k >= 2 {
            assert(c[k] != c[1]);
        }
        if k >= 3 {
            assert(c[k] != c[2]);
        }
        if k >= 4 {
            assert(c[k] != c[3]);
        }
        if k >= 5 {
            assert(c[k] != c[4]);
        }
        if k >= 6 {
            assert(c[k] != c[5]);
        }
        if k >= 7 {
            assert(c[k] != c[6]);
        }
        if k >= 8 {
            assert(c[k] != c[7]);
        }
        if k >= 9 {
            assert(c[k] != c[8]);
        }
        if k >= 10 {
            assert(c[k] != c[9]);
        }
        if k >= 11 {
            assert(c[k] != c[10]);
        }
    }
    assert(crate::dates::month_value(c[i]) == Some((i + 1) as nat));
    assert(crate::dates::month_value(c[j]) == Some((j + 1) as nat));
}

/// Later moments give greater numbers: the number of a moment grows with
/// the year, then the month, the day, the hour, the minute and the second,
/// for parts in their ranges.
pub proof fn law_instant_in_time_order(
    y1: nat,
    mo1: nat,
    d1: nat,
    h1: nat,
    mi1: nat,
    s1: nat,
    y2: nat,
    mo2: nat,
    d2: nat,
    h2: nat,
    mi2: nat,
    s2: nat,
)
    requires
        1 <= mo1 <= 12,
        1 <= mo2 <= 12,
        d1 < 32,
        d2 < 32,
        h1 < 24,
        h2 < 24,
        mi1 < 60,
        mi2 < 60,
        s1 < 60,
        s2 < 60,
        y1 < y2 || (y1 == y2 && (mo1 < mo2 || (mo1 == mo2 && (d1 < d2 || (d1 == d2 && (h1 < h2
            || (h1 == h2 && (mi1 < mi2 || (mi1 == mi2 && s1 < s2))))))))),
    ensures
        crate::dates::instant(y1, mo1, d1, h1, mi1, s1) < crate::dates::instant(
            y2,
            mo2,
            d2,
            h2,
            mi2,
            s2,
        ),
{
    let a1 = y1 * 13 + mo1;
    let a2 = y2 * 13 + mo2;
    assert(a1 < a2 || (a1 == a2 && mo1 == mo2 && y1 == y2) || (y1 == y2 && mo1 == mo2)) by (nonlinear_arith)
        requires
            a1 == y1 * 13 + mo1,
            a2 == y2 * 13 + mo2,
            1 <= mo1 <= 12,
            1 <= mo2 <= 12,
            y1 < y2 || (y1 == y2 && (mo1 < mo2 || mo1 == mo2)),
    ;
    let b1 = a1 * 32 + d1;
    let b2 = a2 * 32 + d2;
    let c1 = b1 * 24 + h1;
    let c2 = b2 * 24 + h2;
    let e1 = c1 * 60 + mi1;
    let e2 = c2 * 60 + mi2;
    let t1 = e1 * 60 + s1;
    let t2 = e2 * 60 + s2;
    assert(t1 < t2) by (nonlinear_arith)
        requires
            b1 == a1 * 32 + d1,
            b2 == a2 * 32 + d2,
            c1 == b1 * 24 + h1,
            c2 == b2 * 24 + h2,
            e1 == c1 * 60 + mi1,
            e2 == c2 * 60 + mi2,
            t1 == e1 * 60 + s1,
            t2 == e2 * 60 + s2,
            d1 < 32,
            d2 < 32,
            h1 < 24,
            h2 < 24,
            mi1 < 60,
            mi2 < 60,
            s1 < 60,
            s2 < 60,
            a1 < a2 || (a1 == a2 && (d1 < d2 || (d1 == d2 && (h1 < h2 || (h1 == h2 && (mi1 < mi2
                || (mi1 == mi2 && s1 < s2))))))),
    ;
}

/// Loading marks the packages from the two name lists independently: a
/// package whose name is on the orphan list is an orphan whatever the
/// foreign list says, one whose name is on the foreign list is foreign
/// whatever the orphan list says, and a package on neither list keeps its
/// source and its orphan mark.
pub proof fn law_marks_independent(
    input: Seq<Package>,
    out: Seq<Package>,
    perm: Seq<int>,
    aur: Seq<Seq<char>>,
    orphans: Seq<Seq<char>>,
)
    requires
        crate::app::sorted_by_name(input, out, perm, aur, orphans),
    ensures
        forall|k: int| 0 <= k < out.len() ==> {
            &&& (#[trigger] out[k]).name == input[perm[k]].name
            &&& (orphans.contains(out[k].name@) ==> out[k].is_orphan)
            &&& (aur.contains(out[k].name@) ==> out[k].source == crate::package::PackageSource::AUR)
            &&& (!orphans.contains(out[k].name@) ==> out[k].is_orphan == input[perm[k]].is_orphan)
            &&& (!aur.contains(out[k].name@) ==> out[k].source == input[perm[k]].source)
        },
{
}

/// The scroll of the detail pane steps by one: in the detail pane, Down
/// then Up (or `j` then `k`) comes back to the same scroll below the top of
/// its range, and Up then Down comes back to it above 0.
pub proof fn law_detail_scroll_steps(
    pkgs: Seq<Package>,
    u: UiState,
    first: KeyEvent,
    second: KeyEvent,
    v: UiState,
    w: UiState,
)
    requires
        !u.searching,
        u.pane == ActivePane::Detail,
        key_result(pkgs, u, first, v),
        key_result(pkgs, v, second, w),
        (first.code == KeyCode::Down || first.code == KeyCode::Char('j')) && (second.code
            == KeyCode::Up || second.code == KeyCode::Char('k')) && u.scroll < u16::MAX || (
        first.code == KeyCode::Up || first.code == KeyCode::Char('k')) && (second.code
            == KeyCode::Down || second.code == KeyCode::Char('j')) && u.scroll > 0,
    ensures
        w == u,
        v.selected == u.selected,
        v.scroll != u.scroll,
{
}

/// A section of lines: at some line, the title; after it, one indented line
/// per item, or "None" when there are none.
pub open spec fn shows_section(
    lines: Seq<Seq<(Seq<char>, crate::view::Tone)>>,
    title: Seq<char>,
    items: Seq<Seq<char>>,
) -> bool {
    exists|i: int|
        0 <= i && i + 1 + items.len() <= lines.len() && #[trigger] lines[i] == seq![
            (title, crate::view::Tone::Category),
        ] && (items.len() == 0 ==> i + 1 < lines.len() && lines[i + 1] == seq![
            ("  None"@, crate::view::Tone::Muted),
        ]) && forall|k: int|
            0 <= k < items.len() ==> lines[i + 1 + k] == seq![
                ("  "@, crate::view::Tone::Plain),
                (#[trigger] items[k], crate::view::Tone::Value),
            ]
}

/// A section between any lines shows its items under its title.
proof fn lemma_section_shown(
    pre: Seq<Seq<(Seq<char>, crate::view::Tone)>>,
    title: Seq<char>,
    items: Seq<Seq<char>>,
    post: Seq<Seq<(Seq<char>, crate::view::Tone)>>,
)
    ensures
        shows_section(pre + crate::view::section_view(title, items) + post, title, items),
{
    let sec = crate::view::section_view(title, items);
    let lines = pre + sec + post;
    let i = pre.len() as int;
    assert(lines[i] == sec[0]);
    if items.len() == 0 {
        assert(lines[i + 1] == sec[1]);
    }
    assert forall|k: int| 0 <= k < items.len() implies lines[i + 1 + k] == seq![
        ("  "@, crate::view::Tone::Plain),
        (#[trigger] items[k], crate::view::Tone::Value),
    ] by {
        assert(lines[i + 1 + k] == sec[1 + k]);
        assert(sec[1 + k] == crate::view::item_lines(items, crate::view::Tone::Value)[k]);
    }
}

/// Each section of the Deps tab lists the relation that its title names:
/// "Depends On" the dependencies, "Optional Dependencies" the optional
/// ones, "Required By" the packages that require it, "Optional For" those
/// it is optional for, then "Provides", "Conflicts With" and "Replaces".
pub proof fn law_deps_sections_by_name(p: Package)
    ensures
        shows_section(crate::view::deps_view(p), "▸ Depends On"@, views(p.depends@)),
        shows_section(
            crate::view::deps_view(p),
            "▸ Optional Dependencies"@,
            views(p.optional_deps@),
        ),
        shows_section(crate::view::deps_view(p), "▸ Required By"@, views(p.required_by@)),
        shows_section(crate::view::deps_view(p), "▸ Optional For"@, views(p.optional_for@)),
        shows_section(crate::view::deps_view(p), "▸ Provides"@, views(p.provides@)),
        shows_section(crate::view::deps_view(p), "▸ Conflicts With"@, views(p.conflicts@)),
        shows_section(crate::view::deps_view(p), "▸ Replaces"@, views(p.replaces@)),
{
    let a = crate::view::section_view("▸ Depends On"@, views(p.depends@));
    let b = crate::view::section_view("▸ Optional Dependencies"@, views(p.optional_deps@));
    let c = crate::view::section_view("▸ Required By"@, views(p.required_by@));
    let d = crate::view::section_view("▸ Optional For"@, views(p.optional_for@));
    let e = crate::view::section_view("▸ Provides"@, views(p.provides@));
    let f = crate::view::section_view("▸ Conflicts With"@, views(p.conflicts@));
    let g = crate::view::section_view("▸ Replaces"@, views(p.replaces@));
    let all = crate::view::deps_view(p);
    let none = Seq::<Seq<(Seq<char>, crate::view::Tone)>>::empty();
    assert(all =~= none + a + (b + c + d + e + f + g));
    lemma_section_shown(none, "▸ Depends On"@, views(p.depends@), b + c + d + e + f + g);
    assert(all =~= a + b + (c + d + e + f + g));
    lemma_section_shown(a, "▸ Optional Dependencies"@, views(p.optional_deps@), c + d + e + f + g);
    assert(all =~= (a + b) + c + (d + e + f + g));
    lemma_section_shown(a + b, "▸ Required By"@, views(p.required_by@), d + e + f + g);
    assert(all =~= (a + b + c) + d + (e + f + g));
    lemma_section_shown(a + b + c, "▸ Optional For"@, views(p.optional_for@), e + f + g);
    assert(all =~= (a + b + c + d) + e + (f + g));
    lemma_section_shown(a + b + c + d, "▸ Provides"@, views(p.provides@), f + g);
    assert(all =~= (a + b + c + d + e) + f + g);
    lemma_section_shown(a + b + c + d + e, "▸ Conflicts With"@, views(p.conflicts@), g);
    assert(all =~= (a + b + c + d + e + f) + g + none);
    lemma_section_shown(a + b + c + d + e + f, "▸ Replaces"@, views(p.replaces@), none);
}

/// Of two install dates in pacman's day-first form on a 24-hour clock
/// ("Tue 02 Jan 2024 11:00:00"), the later one reads as the greater
/// moment: later year, or the same year and a later month in the
/// calendar, or the same month and a later day, hour, minute or second.
pub proof fn law_later_date_greater_key(
    t1: Seq<char>,
    t2: Seq<char>,
    wd1: Seq<char>,
    wd2: Seq<char>,
    d1: Seq<char>,
    d2: Seq<char>,
    i1: int,
    i2: int,
    y1: Seq<char>,
    y2: Seq<char>,
    c1: Seq<char>,
    c2: Seq<char>,
)
    requires
        0 <= i1 < 12,
        0 <= i2 < 12,
        words(t1) == seq![wd1, d1, calendar()[i1], y1, c1],
        words(t2) == seq![wd2, d2, calendar()[i2], y2, c2],
        crate::dates::day_value(d1) matches Some(x) && x < 32,
        crate::dates::day_value(d2) matches Some(x) && x < 32,
        crate::dates::year_value(y1) is Some,
        crate::dates::year_value(y2) is Some,
        crate::dates::clock_value(c1) matches Some(c) && c.0 < 24 && c.1 < 60 && c.2 < 60,
        crate::dates::clock_value(c2) matches Some(c) && c.0 < 24 && c.1 < 60 && c.2 < 60,
        ({
            let ya = crate::dates::year_value(y1)->0;
            let yb = crate::dates::year_value(y2)->0;
            let da = crate::dates::day_value(d1)->0;
            let db = crate::dates::day_value(d2)->0;
            let ca = crate::dates::clock_value(c1)->0;
            let cb = crate::dates::clock_value(c2)->0;
            ya < yb || (ya == yb && (i1 < i2 || (i1 == i2 && (da < db || (da == db && (ca.0 < cb.0
                || (ca.0 == cb.0 && (ca.1 < cb.1 || (ca.1 == cb.1 && ca.2 < cb.2))))))))) 
        }),
    ensures
        crate::dates::install_key(t1) is Some,
        crate::dates::install_key(t2) is Some,
        crate::dates::install_key(t1)->0 < crate::dates::install_key(t2)->0,
{
    if i1 < i2 {
        law_months_in_calendar_order(i1, i2);
    } else if i2 < i1 {
        law_months_in_calendar_order(i2, i1);
    } else if i1 < 11 {
        law_months_in_calendar_order(i1, 11);
    } else {
        law_months_in_calendar_order(0, i1);
    }
    let ca = crate::dates::clock_value(c1)->0;
    let cb = crate::dates::clock_value(c2)->0;
    law_instant_in_time_order(
        crate::dates::year_value(y1)->0,
        (i1 + 1) as nat,
        crate::dates::day_value(d1)->0,
        ca.0,
        ca.1,
        ca.2,
        crate::dates::year_value(y2)->0,
        (i2 + 1) as nat,
        crate::dates::day_value(d2)->0,
        cb.0,
        cb.1,
        cb.2,
    );
    assert(crate::dates::hour24(ca.0, None) == ca.0);
    assert(crate::dates::hour24(cb.0, None) == cb.0);
}

/// The Recent list puts later installs first: of two listed packages whose
/// install dates can be read, the earlier in the list was installed no
/// earlier, and a package whose date cannot be read never comes before
/// one whose date can.
pub proof fn law_recent_latest_first(
    pkgs: Seq<Package>,
    query: Seq<char>,
    r: Seq<usize>,
    a: int,
    b: int,
)
    requires
        is_listing(pkgs, FilterCategory::Recent, query, r),
        0 <= a < b < r.len(),
    ensures
        ({
            let ka = crate::dates::install_key(pkgs[r[a] as int].install_date@);
            let kb = crate::dates::install_key(pkgs[r[b] as int].install_date@);
            &&& (ka is Some && kb is Some ==> ka->0 >= kb->0)
            &&& (ka is None ==> kb is None)
        }),
{
    assert(precedes(pkgs, FilterCategory::Recent, r[a] as int, r[b] as int));
}

/// The Largest list puts bigger packages first: of two listed packages, the
/// earlier in the list is no smaller.
pub proof fn law_largest_biggest_first(
    pkgs: Seq<Package>,
    query: Seq<char>,
    r: Seq<usize>,
    a: int,
    b: int,
)
    requires
        is_listing(pkgs, FilterCategory::Largest, query, r),
        0 <= a < b < r.len(),
    ensures
        pkgs[r[a] as int].installed_size_bytes >= pkgs[r[b] as int].installed_size_bytes,
{
    assert(precedes(pkgs, FilterCategory::Largest, r[a] as int, r[b] as int));
}

} // verus!
