//! The moment that an install date as pacman prints it denotes, as a number
//! that grows with time.
use vstd::prelude::*;
use crate::size::{digit_value, is_digit, lemma_num_bound, num, pow10};
use crate::text::{chars_of, compare_chars, views, words, words_in};

verus! {

/// All characters of `s` are decimal digits.
pub open spec fn all_digits(s: Seq<char>) -> bool {
    forall|i: int| 0 <= i < s.len() ==> is_digit(#[trigger] s[i])
}

/// A day of the month: one or two digits.
pub open spec fn day_value(s: Seq<char>) -> Option<nat> {
    if 1 <= s.len() <= 2 && all_digits(s) {
        Some(num(s))
    } else {
        None
    }
}

/// A year: four digits.
pub open spec fn year_value(s: Seq<char>) -> Option<nat> {
    if s.len() == 4 && all_digits(s) {
        Some(num(s))
    } else {
        None
    }
}

/// A month by its English abbreviation, 1 for January.
pub open spec fn month_value(s: Seq<char>) -> Option<nat> {
    if s == "Jan"@ {
        Some(1)
    } else if s == "Feb"@ {
        Some(2)
    } else if s == "Mar"@ {
        Some(3)
    } else if s == "Apr"@ {
        Some(4)
    } else if s == "May"@ {
        Some(5)
    } else if s == "Jun"@ {
        Some(6)
    } else if s == "Jul"@ {
        Some(7)
    } else if s == "Aug"@ {
        Some(8)
    } else if s == "Sep"@ {
        Some(9)
    } else if s == "Oct"@ {
        Some(10)
    } else if s == "Nov"@ {
        Some(11)
    } else if s == "Dec"@ {
        Some(12)
    } else {
        None
    }
}

/// A time of day `HH:MM:SS`: hours, minutes and seconds.
pub open spec fn clock_value(s: Seq<char>) -> Option<(nat, nat, nat)> {
    if s.len() == 8 && s[2] == ':' && s[5] == ':' && all_digits(s.take(2)) && all_digits(
        s.subrange(3, 5),
    ) && all_digits(s.skip(6)) {
        Some((num(s.take(2)), num(s.subrange(3, 5)), num(s.skip(6))))
    } else {
        None
    }
}

/// The hour on a 24-hour clock: `h` on a 12-hour clock when `marker` is
/// "AM" or "PM", else `h` itself.
pub open spec fn hour24(h: nat, marker: Option<Seq<char>>) -> nat {
    if marker == Some("PM"@) {
        h % 12 + 12
    } else if marker == Some("AM"@) {
        h % 12
    } else {
        h
    }
}

/// A number for the moment given by its parts, greater for later moments.
pub open spec fn instant(year: nat, month: nat, day: nat, hour: nat, minute: nat, second: nat) -> nat {
    ((((year * 13 + month) * 32 + day) * 24 + hour) * 60 + minute) * 60 + second
}

/// The moment that the install date `t` denotes, where it has either form
/// pacman prints: "Tue 02 Jan 2024 11:00:00 AM UTC" (the day first, the
/// hour on a 12- or 24-hour clock) or "Tue Jan  2 11:00:00 2024". The time
/// zone is left out: pacman prints every date in the same one. `None` for
/// any other text.
pub open spec fn install_key(t: Seq<char>) -> Option<nat> {
    let w = words(t);
    if w.len() >= 5 && day_value(w[1]) is Some && month_value(w[2]) is Some && year_value(w[3]) is Some
        && clock_value(w[4]) is Some {
        let c = clock_value(w[4])->0;
        let marker = if w.len() >= 6 {
            Some(w[5])
        } else {
            None
        };
        Some(
            instant(
                year_value(w[3])->0,
                month_value(w[2])->0,
                day_value(w[1])->0,
                hour24(c.0, marker),
                c.1,
                c.2,
            ),
        )
    } else if w.len() >= 5 && month_value(w[1]) is Some && day_value(w[2]) is Some && clock_value(
        w[3],
    ) is Some && year_value(w[4]) is Some {
        let c = clock_value(w[3])->0;
        Some(
            instant(
                year_value(w[4])->0,
                month_value(w[1])->0,
                day_value(w[2])->0,
                c.0,
                c.1,
                c.2,
            ),
        )
    } else {
        None
    }
}

/// Whether `v[lo..hi]` are all digits.
fn digits_in(v: &Vec<char>, lo: usize, hi: usize) -> (b: bool)
    requires
        lo <= hi <= v@.len(),
    ensures
        b == all_digits(v@.subrange(lo as int, hi as int)),
{
    let mut k = lo;
    while k < hi
        invariant
            lo <= k <= hi <= v@.len(),
            forall|i: int| lo <= i < k ==> is_digit(#[trigger] v@[i]),
        decreases hi - k,
    {
        let u = v[k] as u32;
        if !(48 <= u && u <= 57) {
            assert(v@.subrange(lo as int, hi as int)[k - lo] == v@[k as int]);
            return false;
        }
        k = k + 1;
    }
    assert forall|i: int| 0 <= i < hi - lo implies is_digit(#[trigger] v@.subrange(lo as int, hi as int)[i]) by {
        assert(v@.subrange(lo as int, hi as int)[i] == v@[lo + i]);
    }
    true
}

/// `num(v[lo..hi])` for at most four digits.
fn small_num(v: &Vec<char>, lo: usize, hi: usize) -> (r: u64)
    requires
        lo <= hi <= v@.len(),
        hi - lo <= 4,
        all_digits(v@.subrange(lo as int, hi as int)),
    ensures
        r == num(v@.subrange(lo as int, hi as int)),
        r < 10000,
{
    let mut r: u64 = 0;
    let mut k = lo;
    assert(v@.subrange(lo as int, lo as int) =~= Seq::<char>::empty());
    while k < hi
        invariant
            lo <= k <= hi <= v@.len(),
            hi - lo <= 4,
            all_digits(v@.subrange(lo as int, hi as int)),
            r == num(v@.subrange(lo as int, k as int)),
            r < 10000,
        decreases hi - k,
    {
        proof {
            assert(v@.subrange(lo as int, hi as int)[k - lo] == v@[k as int]);
            let s = v@.subrange(lo as int, k + 1);
            assert(s.drop_last() =~= v@.subrange(lo as int, k as int));
            assert(s.last() == v@[k as int]);
            assert forall|i: int| 0 <= i < s.len() implies is_digit(#[trigger] s[i]) by {
                assert(s[i] == v@.subrange(lo as int, hi as int)[i]);
            }
            lemma_num_bound(s);
            crate::size::lemma_pow10_monotonic(s.len(), 4);
            reveal_with_fuel(pow10, 5);
        }
        r = r * 10 + (v[k] as u32 - 48) as u64;
        k = k + 1;
    }
    r
}

/// Whether the characters `u` are those of `word`.
fn is_word(u: &Vec<char>, word: &str) -> (b: bool)
    ensures
        b == (u@ == word@),
{
    let w = chars_of(word);
    compare_chars(u, &w) == 0
}

fn day_of(u: &Vec<char>) -> (r: Option<u64>)
    ensures
        r matches Some(x) ==> day_value(u@) == Some(x as nat),
        r is None ==> day_value(u@) is None,
        r matches Some(x) ==> x < 100,
{
    assert(u@.subrange(0, u@.len() as int) =~= u@);
    if 1 <= u.len() && u.len() <= 2 && digits_in(u, 0, u.len()) {
        let x = small_num(u, 0, u.len());
        proof {
            lemma_num_bound(u@);
            reveal_with_fuel(pow10, 3);
        }
        Some(x)
    } else {
        None
    }
}

fn year_of(u: &Vec<char>) -> (r: Option<u64>)
    ensures
        r matches Some(x) ==> year_value(u@) == Some(x as nat),
        r is None ==> year_value(u@) is None,
        r matches Some(x) ==> x < 10000,
{
    assert(u@.subrange(0, u@.len() as int) =~= u@);
    if u.len() == 4 && digits_in(u, 0, 4) {
        Some(small_num(u, 0, 4))
    } else {
        None
    }
}

fn month_of(u: &Vec<char>) -> (r: Option<u64>)
    ensures
        r matches Some(x) ==> month_value(u@) == Some(x as nat),
        r is None ==> month_value(u@) is None,
        r matches Some(x) ==> x <= 12,
{
    if is_word(u, "Jan") {
        Some(1)
    } else if is_word(u, "Feb") {
        Some(2)
    } else if is_word(u, "Mar") {
        Some(3)
    } else if is_word(u, "Apr") {
        Some(4)
    } else if is_word(u, "May") {
        Some(5)
    } else if is_word(u, "Jun") {
        Some(6)
    } else if is_word(u, "Jul") {
        Some(7)
    } else if is_word(u, "Aug") {
        Some(8)
    } else if is_word(u, "Sep") {
        Some(9)
    } else if is_word(u, "Oct") {
        Some(10)
    } else if is_word(u, "Nov") {
        Some(11)
    } else if is_word(u, "Dec") {
        Some(12)
    } else {
        None
    }
}

fn clock_of(u: &Vec<char>) -> (r: Option<(u64, u64, u64)>)
    ensures
        r matches Some(x) ==> clock_value(u@) == Some((x.0 as nat, x.1 as nat, x.2 as nat)),
        r is None ==> clock_value(u@) is None,
        r matches Some(x) ==> x.0 < 100 && x.1 < 100 && x.2 < 100,
{
    if u.len() == 8 && u[2] == ':' && u[5] == ':' && digits_in(u, 0, 2) && digits_in(u, 3, 5)
        && digits_in(u, 6, 8) {
        let h = small_num(u, 0, 2);
        let mi = small_num(u, 3, 5);
        let se = small_num(u, 6, 8);
        proof {
            assert(u@.take(2) =~= u@.subrange(0, 2));
            assert(u@.skip(6) =~= u@.subrange(6, 8));
            reveal_with_fuel(pow10, 3);
            lemma_num_bound(u@.subrange(0, 2));
            lemma_num_bound(u@.subrange(3, 5));
            lemma_num_bound(u@.subrange(6, 8));
        }
        Some((h, mi, se))
    } else {
        proof {
            if u@.len() == 8 {
                assert(u@.take(2) =~= u@.subrange(0, 2));
                assert(u@.skip(6) =~= u@.subrange(6, 8));
            }
        }
        None
    }
}

/// `instant` for machine integers.
fn instant_exec(year: u64, month: u64, day: u64, hour: u64, minute: u64, second: u64) -> (r: u64)
    requires
        year < 10000,
        month <= 12,
        day < 100,
        hour < 112,
        minute < 100,
        second < 100,
    ensures
        r == instant(year as nat, month as nat, day as nat, hour as nat, minute as nat, second as nat),
{
    assert(((((year * 13 + month) * 32 + day) * 24 + hour) * 60 + minute) * 60 + second
        < 0x1_0000_0000_0000) by (nonlinear_arith)
        requires
            year < 10000,
            month <= 12,
            day < 100,
            hour < 112,
            minute < 100,
            second < 100,
    ;
    ((((year * 13 + month) * 32 + day) * 24 + hour) * 60 + minute) * 60 + second
}

/// A machine key as a number.
pub open spec fn key_view(o: Option<u64>) -> Option<nat> {
    match o {
        Some(x) => Some(x as nat),
        None => None,
    }
}

/// `install_key(t)`.
pub fn install_key_of(t: &str) -> (r: Option<u64>)
    ensures
        key_view(r) == install_key(t@),
        r matches Some(x) ==> install_key(t@) == Some(x as nat),
        r is None ==> install_key(t@) is None,
{
    let v = chars_of(t);
    let ws = words_in(&v, 0, v.len());
    assert(v@.subrange(0, v@.len() as int) =~= v@);
    let ghost w = words(t@);
    if ws.len() < 5 {
        return None;
    }
    let w1 = chars_of(ws[1].as_str());
    let w2 = chars_of(ws[2].as_str());
    let w3 = chars_of(ws[3].as_str());
    let w4 = chars_of(ws[4].as_str());
    proof {
        assert(views(ws@)[1] == w[1] && views(ws@)[2] == w[2]);
        assert(views(ws@)[3] == w[3] && views(ws@)[4] == w[4]);
    }
    match (day_of(&w1), month_of(&w2), year_of(&w3), clock_of(&w4)) {
        (Some(d), Some(mo), Some(y), Some(c)) => {
            let h = if ws.len() >= 6 {
                let w5 = chars_of(ws[5].as_str());
                proof {
                    assert(views(ws@)[5] == w[5]);
                    reveal_strlit("PM");
                    reveal_strlit("AM");
                }
                if is_word(&w5, "PM") {
                    c.0 % 12 + 12
                } else if is_word(&w5, "AM") {
                    c.0 % 12
                } else {
                    c.0
                }
            } else {
                c.0
            };
            return Some(instant_exec(y, mo, d, h, c.1, c.2));
        },
        _ => {},
    }
    match (month_of(&w1), day_of(&w2), clock_of(&w3), year_of(&w4)) {
        (Some(mo), Some(d), Some(c), Some(y)) => Some(instant_exec(y, mo, d, c.0, c.1, c.2)),
        _ => None,
    }
}

} // verus!
