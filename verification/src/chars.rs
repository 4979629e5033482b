//! Character sequences: white space, trimming, splitting, prefixes and decimal numbers.
use vstd::prelude::*;

verus! {

/// The characters with the Unicode `White_Space` property.
pub open spec fn is_ws(c: char) -> bool {
    ||| '\u{9}' <= c <= '\u{d}'
    ||| c == ' '
    ||| c == '\u{85}'
    ||| c == '\u{a0}'
    ||| c == '\u{1680}'
    ||| '\u{2000}' <= c <= '\u{200a}'
    ||| c == '\u{2028}'
    ||| c == '\u{2029}'
    ||| c == '\u{202f}'
    ||| c == '\u{205f}'
    ||| c == '\u{3000}'
}

/// Whether `c` is white space.
pub fn is_whitespace(c: char) -> (r: bool)
    ensures
        r == is_ws(c),
{
    ('\u{9}' <= c && c <= '\u{d}') || c == ' ' || c == '\u{85}' || c == '\u{a0}' || c == '\u{1680}'
        || ('\u{2000}' <= c && c <= '\u{200a}') || c == '\u{2028}' || c == '\u{2029}' || c == '\u{202f}'
        || c == '\u{205f}' || c == '\u{3000}'
}

/// `s` without its leading white space.
pub open spec fn trim_start(s: Seq<char>) -> Seq<char>
    decreases s.len(),
{
    if s.len() > 0 && is_ws(s[0]) {
        trim_start(s.drop_first())
    } else {
        s
    }
}

/// `s` without its trailing white space.
pub open spec fn trim_end(s: Seq<char>) -> Seq<char>
    decreases s.len(),
{
    if s.len() > 0 && is_ws(s.last()) {
        trim_end(s.drop_last())
    } else {
        s
    }
}

/// `s` without leading and trailing white space.
pub open spec fn trim(s: Seq<char>) -> Seq<char> {
    trim_end(trim_start(s))
}

/// The pieces of `s` between occurrences of `sep`; there is always at least one.
pub open spec fn split(s: Seq<char>, sep: char) -> Seq<Seq<char>>
    decreases s.len(),
{
    if s.len() == 0 {
        seq![Seq::empty()]
    } else {
        let prev = split(s.drop_last(), sep);
        if s.last() == sep {
            prev.push(Seq::empty())
        } else {
            prev.update(prev.len() - 1, prev.last().push(s.last()))
        }
    }
}

/// The views of a list of character vectors.
pub open spec fn views(v: Seq<Vec<char>>) -> Seq<Seq<char>> {
    v.map_values(|x: Vec<char>| x@)
}

pub proof fn lemma_split_nonempty(s: Seq<char>, sep: char)
    ensures
        split(s, sep).len() >= 1,
    decreases s.len(),
{
    if s.len() > 0 {
        lemma_split_nonempty(s.drop_last(), sep);
    }
}

/// Splitting never gives more pieces than characters plus one.
pub proof fn lemma_split_len(s: Seq<char>, sep: char)
    ensures
        split(s, sep).len() <= s.len() + 1,
    decreases s.len(),
{
    if s.len() > 0 {
        lemma_split_len(s.drop_last(), sep);
        lemma_split_nonempty(s.drop_last(), sep);
    }
}

/// The characters of `s` from `from` up to `to`.
pub fn slice_chars(s: &[char], from: usize, to: usize) -> (r: Vec<char>)
    requires
        from <= to <= s@.len(),
    ensures
        r@ == s@.subrange(from as int, to as int),
{
    let mut r: Vec<char> = Vec::new();
    let mut i: usize = from;
    while i < to
        invariant
            from <= i <= to,
            to <= s@.len(),
            r@ == s@.subrange(from as int, i as int),
        decreases to - i,
    {
        r.push(s[i]);
        i = i + 1;
        proof { assert(r@ =~= s@.subrange(from as int, i as int)); }
    }
    r
}

/// Position of the first character of `s` that is not white space, or the length.
fn first_non_ws(s: &[char]) -> (i: usize)
    ensures
        i <= s@.len(),
        trim_start(s@) == s@.subrange(i as int, s@.len() as int),
{
    let mut i: usize = 0;
    proof { assert(s@.subrange(0, s@.len() as int) =~= s@); }
    while i < s.len() && is_whitespace(s[i])
        invariant
            0 <= i <= s@.len(),
            trim_start(s@) == trim_start(s@.subrange(i as int, s@.len() as int)),
        decreases s@.len() - i,
    {
        proof {
            let t = s@.subrange(i as int, s@.len() as int);
            assert(t.drop_first() =~= s@.subrange(i + 1, s@.len() as int));
        }
        i = i + 1;
    }
    proof {
        let t = s@.subrange(i as int, s@.len() as int);
        if t.len() > 0 {
            assert(t[0] == s@[i as int]);
        }
        assert(s@.subrange(0, s@.len() as int) =~= s@);
    }
    i
}

/// `s` without leading and trailing white space.
pub fn trim_chars(s: &[char]) -> (r: Vec<char>)
    ensures
        r@ == trim(s@),
{
    let a = first_non_ws(s);
    let mut b: usize = s.len();
    while b > a && is_whitespace(s[b - 1])
        invariant
            a <= b <= s@.len(),
            trim_end(s@.subrange(a as int, s@.len() as int)) == trim_end(s@.subrange(a as int, b as int)),
        decreases b,
    {
        proof {
            let t = s@.subrange(a as int, b as int);
            assert(t.drop_last() =~= s@.subrange(a as int, b - 1));
            assert(t.last() == s@[b - 1]);
        }
        b = b - 1;
    }
    proof {
        let t = s@.subrange(a as int, b as int);
        if t.len() > 0 {
            assert(t.last() == s@[b - 1]);
        }
    }
    slice_chars(s, a, b)
}

/// The pieces of `s` between occurrences of `sep`.
pub fn split_chars(s: &[char], sep: char) -> (r: Vec<Vec<char>>)
    ensures
        views(r@) == split(s@, sep),
{
    let mut r: Vec<Vec<char>> = Vec::new();
    let mut cur: Vec<char> = Vec::new();
    let mut i: usize = 0;
    proof { assert(s@.subrange(0, 0) =~= Seq::<char>::empty()); }
    while i < s.len()
        invariant
            0 <= i <= s@.len(),
            views(r@).push(cur@) == split(s@.subrange(0, i as int), sep),
        decreases s@.len() - i,
    {
        let ghost prev = split(s@.subrange(0, i as int), sep);
        proof {
            let t = s@.subrange(0, i + 1);
            assert(t.drop_last() =~= s@.subrange(0, i as int));
            assert(t.last() == s@[i as int]);
        }
        if s[i] == sep {
            let mut done: Vec<char> = Vec::new();
            std::mem::swap(&mut done, &mut cur);
            r.push(done);
            proof {
                assert(views(r@).push(cur@) =~= prev.push(Seq::empty()));
            }
        } else {
            let ghost r0 = views(r@);
            cur.push(s[i]);
            proof {
                assert(views(r@).push(cur@) =~= prev.update(prev.len() - 1, prev.last().push(s@[i as int])));
            }
        }
        i = i + 1;
    }
    proof { assert(s@.subrange(0, s@.len() as int) =~= s@); }
    r.push(cur);
    r
}

/// Whether `s` begins with `p`.
pub fn starts_with_chars(s: &[char], p: &[char]) -> (r: bool)
    ensures
        r == (p@.len() <= s@.len() && s@.subrange(0, p@.len() as int) == p@),
{
    if p.len() > s.len() {
        return false;
    }
    let mut i: usize = 0;
    while i < p.len()
        invariant
            0 <= i <= p@.len(),
            p@.len() <= s@.len(),
            forall|k: int| 0 <= k < i ==> s@[k] == p@[k],
        decreases p@.len() - i,
    {
        if s[i] != p[i] {
            proof { assert(s@.subrange(0, p@.len() as int)[i as int] != p@[i as int]); }
            return false;
        }
        i = i + 1;
    }
    proof { assert(s@.subrange(0, p@.len() as int) =~= p@); }
    true
}

/// Whether `c` occurs in `s`.
pub fn contains_char(s: &[char], c: char) -> (r: bool)
    ensures
        r == s@.contains(c),
{
    let mut i: usize = 0;
    while i < s.len()
        invariant
            0 <= i <= s@.len(),
            forall|k: int| 0 <= k < i ==> s@[k] != c,
        decreases s@.len() - i,
    {
        if s[i] == c {
            return true;
        }
        i = i + 1;
    }
    false
}

/// Whether the two character sequences are equal.
pub fn chars_eq(a: &[char], b: &[char]) -> (r: bool)
    ensures
        r == (a@ == b@),
{
    if a.len() != b.len() {
        return false;
    }
    let mut i: usize = 0;
    while i < a.len()
        invariant
            0 <= i <= a@.len(),
            a@.len() == b@.len(),
            forall|k: int| 0 <= k < i ==> a@[k] == b@[k],
        decreases a@.len() - i,
    {
        if a[i] != b[i] {
            return false;
        }
        i = i + 1;
    }
    proof { assert(a@ =~= b@); }
    true
}

/// Whether `c` is an ASCII decimal digit.
pub open spec fn is_digit(c: char) -> bool {
    '0' <= c <= '9'
}

/// The value of a decimal digit.
pub open spec fn digit_value(c: char) -> nat {
    (c as nat - '0' as nat) as nat
}

/// The value of a string of decimal digits.
pub open spec fn digits_value(s: Seq<char>) -> nat
    decreases s.len(),
{
    if s.len() == 0 {
        0
    } else {
        digits_value(s.drop_last()) * 10 + digit_value(s.last())
    }
}

/// `s` is one or more decimal digits.
pub open spec fn all_digits(s: Seq<char>) -> bool {
    s.len() > 0 && forall|k: int| 0 <= k < s.len() ==> is_digit(#[trigger] s[k])
}

/// The number that `s` writes as unsigned decimal text with an optional `+`, as Rust's
/// integer parsing reads it, when it is one.
pub open spec fn unsigned_text(s: Seq<char>) -> Option<nat> {
    if s.len() > 0 && s[0] == '+' {
        if all_digits(s.drop_first()) { Some(digits_value(s.drop_first())) } else { None }
    } else if all_digits(s) {
        Some(digits_value(s))
    } else {
        None
    }
}

/// The number that `s` writes as signed decimal text with an optional `+` or `-`, as Rust's
/// integer parsing reads it, when it is one.
pub open spec fn signed_text(s: Seq<char>) -> Option<int> {
    if s.len() > 0 && s[0] == '-' {
        if all_digits(s.drop_first()) { Some(-(digits_value(s.drop_first()) as int)) } else { None }
    } else {
        match unsigned_text(s) {
            Some(n) => Some(n as int),
            None => None,
        }
    }
}

/// The value of the digits of `s` from `from` on, when they are all digits and the value is
/// at most `limit`.
fn digits_upto(s: &[char], from: usize, limit: u64) -> (r: Option<u64>)
    requires
        from <= s@.len(),
    ensures
        r matches Some(v) ==> all_digits(s@.subrange(from as int, s@.len() as int))
            && v == digits_value(s@.subrange(from as int, s@.len() as int)) && v <= limit,
        r is None ==> !all_digits(s@.subrange(from as int, s@.len() as int))
            || digits_value(s@.subrange(from as int, s@.len() as int)) > limit,
{
    if from == s.len() {
        return None;
    }
    let mut v: u64 = 0;
    let mut i: usize = from;
    while i < s.len()
        invariant
            from <= i <= s@.len(),
            from < s@.len(),
            v == digits_value(s@.subrange(from as int, i as int)),
            v <= limit,
            forall|k: int| from <= k < i ==> is_digit(#[trigger] s@[k]),
        decreases s@.len() - i,
    {
        let ghost t = s@.subrange(from as int, i + 1);
        proof {
            assert(t.drop_last() =~= s@.subrange(from as int, i as int));
            assert(t.last() == s@[i as int]);
        }
        let c = s[i];
        if !('0' <= c && c <= '9') {
            proof {
                let all = s@.subrange(from as int, s@.len() as int);
                assert(all[i - from] == c);
            }
            return None;
        }
        let d = (c as u32 - '0' as u32) as u64;
        if d > limit || v > (limit - d) / 10 {
            proof {
                lemma_digits_prefix_grows(s@, from as int, i + 1);
                if d <= limit {
                    assert(v * 10 + d > limit) by (nonlinear_arith)
                        requires v > (limit - d) / 10, d <= limit;
                }
            }
            return None;
        }
        proof {
            assert(v * 10 + d <= limit) by (nonlinear_arith)
                requires v <= (limit - d) / 10, d <= limit;
        }
        v = v * 10 + d;
        i = i + 1;
    }
    proof {
        let all = s@.subrange(from as int, s@.len() as int);
        assert forall|k: int| 0 <= k < all.len() implies is_digit(#[trigger] all[k]) by {
            assert(all[k] == s@[from + k]);
        }
    }
    Some(v)
}

/// Digit prefixes never decrease: the full value is at least that of a prefix.
proof fn lemma_digits_prefix_grows(s: Seq<char>, from: int, to: int)
    requires
        0 <= from <= to <= s.len(),
    ensures
        all_digits(s.subrange(from, s.len() as int)) ==> digits_value(s.subrange(from, s.len() as int))
            >= digits_value(s.subrange(from, to)),
    decreases s.len() - to,
{
    if to < s.len() && all_digits(s.subrange(from, s.len() as int)) {
        lemma_digits_prefix_grows(s, from, to + 1);
        let t = s.subrange(from, to + 1);
        assert(t.drop_last() =~= s.subrange(from, to));
        assert(digits_value(t) >= digits_value(s.subrange(from, to)) * 10) by (nonlinear_arith)
            requires digits_value(t) == digits_value(t.drop_last()) * 10 + digit_value(t.last()),
                t.drop_last() == s.subrange(from, to);
        assert(digits_value(s.subrange(from, to)) * 10 >= digits_value(s.subrange(from, to))) by (nonlinear_arith);
    }
}

/// The number `s` writes, as an unsigned 64-bit integer parsed from text, when it is one that
/// is at most `limit`.
pub fn parse_unsigned(s: &[char], limit: u64) -> (r: Option<u64>)
    ensures
        r matches Some(v) ==> unsigned_text(s@) == Some(v as nat) && v <= limit,
        r is None ==> !(unsigned_text(s@) matches Some(n) && n <= limit),
{
    if s.len() > 0 && s[0] == '+' {
        let r = digits_upto(s, 1, limit);
        proof { assert(s@.subrange(1, s@.len() as int) =~= s@.drop_first()); }
        r
    } else {
        let r = digits_upto(s, 0, limit);
        proof { assert(s@.subrange(0, s@.len() as int) =~= s@); }
        r
    }
}

/// The number `s` writes, as a signed 64-bit integer parsed from text, when it is one.
pub fn parse_i64(s: &[char]) -> (r: Option<i64>)
    ensures
        r matches Some(v) ==> signed_text(s@) == Some(v as int),
        r is None ==> !(signed_text(s@) matches Some(n) && i64::MIN <= n <= i64::MAX),
{
    if s.len() > 0 && s[0] == '-' {
        let m = digits_upto(s, 1, 9223372036854775808u64);
        proof { assert(s@.subrange(1, s@.len() as int) =~= s@.drop_first()); }
        match m {
            Some(v) => {
                if v == 9223372036854775808u64 {
                    Some(i64::MIN)
                } else {
                    Some(-(v as i64))
                }
            },
            None => None,
        }
    } else {
        match parse_unsigned(s, 9223372036854775807u64) {
            Some(v) => Some(v as i64),
            None => None,
        }
    }
}

/// A digit's character reads back as the digit.
proof fn lemma_digit_char(d: nat)
    requires
        d < 10,
    ensures
        is_digit(crate::text::digit_char(d)),
        digit_value(crate::text::digit_char(d)) == d,
{
}

/// The decimal text of a number is one or more digits and reads back as the number, so two
/// numbers with the same decimal text are equal.
pub proof fn lemma_decimal_reads_back(n: nat)
    ensures
        all_digits(crate::text::decimal_digits(n)),
        digits_value(crate::text::decimal_digits(n)) == n,
        unsigned_text(crate::text::decimal_digits(n)) == Some(n),
    decreases n,
{
    let d = crate::text::decimal_digits(n);
    if n < 10 {
        lemma_digit_char(n);
        assert(d.drop_last() =~= Seq::<char>::empty());
        assert(d.last() == crate::text::digit_char(n));
        assert(digits_value(d) == digits_value(d.drop_last()) * 10 + digit_value(d.last()));
        assert(digits_value(Seq::<char>::empty()) == 0);
    } else {
        lemma_decimal_reads_back(n / 10);
        lemma_digit_char(n % 10);
        let p = crate::text::decimal_digits(n / 10);
        assert(d.drop_last() =~= p);
        assert(n == (n / 10) * 10 + n % 10) by (nonlinear_arith);
        assert(d.last() == crate::text::digit_char(n % 10));
        assert(digits_value(d) == digits_value(d.drop_last()) * 10 + digit_value(d.last()));
        assert forall|k: int| 0 <= k < d.len() implies is_digit(#[trigger] d[k]) by {
            if k < p.len() {
                assert(d[k] == p[k]);
            }
        }
    }
    assert(d[0] != '+') by {
        assert(is_digit(d[0]));
    }
}

/// Different numbers have different decimal texts.
pub proof fn lemma_decimal_injective(a: nat, b: nat)
    ensures
        crate::text::decimal_digits(a) == crate::text::decimal_digits(b) ==> a == b,
{
    lemma_decimal_reads_back(a);
    lemma_decimal_reads_back(b);
}

} // verus!
