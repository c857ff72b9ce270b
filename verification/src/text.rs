//! Character-level helpers over `String` and `&str`.

use vstd::prelude::*;
use vstd::std_specs::iter::IteratorSpec;

verus! {

/// Appends one character to a `String` (`String::push`).
#[verifier::external_body]
pub(crate) fn push_char(s: &mut String, c: char)
    ensures
        final(s)@ == old(s)@.push(c),
{
    s.push(c);
}

/// The characters of `s`, in order.
pub fn chars_of(s: &str) -> (out: Vec<char>)
    ensures
        out@ == s@,
{
    let mut it = s.chars();
    let mut out: Vec<char> = Vec::new();
    let ghost all = s@;
    proof {
        broadcast use vstd::string::group_string_axioms;
    }
    loop
        invariant
            all == s@,
            it.remaining() == all.skip(out@.len() as int),
            out@ == all.take(out@.len() as int),
            out@.len() <= all.len(),
            it.obeys_prophetic_iter_laws(),
        decreases all.len() - out@.len(),
    {
        let next = it.next();
        proof {
            broadcast use vstd::string::group_string_axioms;
        }
        match next {
            Some(c) => {
                assert(all.skip(out@.len() as int).drop_first() == all.skip(out@.len() as int + 1));
                out.push(c);
                assert(out@ == all.take(out@.len() as int));
            },
            None => {
                assert(all.take(out@.len() as int) == all);
                return out;
            },
        }
    }
}

/// Builds a `String` from a sequence of characters.
pub fn string_of(cs: &[char]) -> (s: String)
    ensures
        s@ == cs@,
{
    let mut s = String::new();
    let mut i: usize = 0;
    while i < cs.len()
        invariant
            i <= cs@.len(),
            s@ == cs@.take(i as int),
        decreases cs@.len() - i,
    {
        push_char(&mut s, cs[i]);
        i = i + 1;
        assert(s@ == cs@.take(i as int));
    }
    assert(cs@.take(i as int) == cs@);
    s
}


/// Unicode `White_Space`, the property that `char::is_whitespace` tests.
pub open spec fn is_ws(c: char) -> bool {
    ||| ('\u{9}' <= c && c <= '\u{d}')
    ||| c == ' '
    ||| c == '\u{85}'
    ||| c == '\u{a0}'
    ||| c == '\u{1680}'
    ||| ('\u{2000}' <= c && c <= '\u{200a}')
    ||| c == '\u{2028}'
    ||| c == '\u{2029}'
    ||| c == '\u{202f}'
    ||| c == '\u{205f}'
    ||| c == '\u{3000}'
}

/// Whether `c` is Unicode whitespace.
pub fn is_whitespace(c: char) -> (b: bool)
    ensures
        b == is_ws(c),
{
    ('\u{9}' <= c && c <= '\u{d}') || c == ' ' || c == '\u{85}' || c == '\u{a0}' || c == '\u{1680}'
        || ('\u{2000}' <= c && c <= '\u{200a}') || c == '\u{2028}' || c == '\u{2029}' || c
        == '\u{202f}' || c == '\u{205f}' || c == '\u{3000}'
}

/// ASCII lowercase of one character; other characters are unchanged.
pub open spec fn lower(c: char) -> char {
    if 'A' <= c && c <= 'Z' {
        ((c as u32) + 32) as char
    } else {
        c
    }
}

/// ASCII lowercase of one character.
pub fn to_lower(c: char) -> (r: char)
    ensures
        r == lower(c),
{
    if 'A' <= c && c <= 'Z' {
        let code: u32 = c as u32;
        let lowered: u8 = (code + 32) as u8;
        lowered as char
    } else {
        c
    }
}


/// The first index `j >= i` with `s[j] == c`.
pub open spec fn find_from(s: Seq<char>, i: int, c: char) -> Option<int>
    decreases s.len() - i,
{
    if i < 0 || i >= s.len() {
        None
    } else if s[i] == c {
        Some(i)
    } else {
        find_from(s, i + 1, c)
    }
}

/// What `find_from` returns lies at or after the start and holds the character.
pub proof fn lemma_find_from(s: Seq<char>, i: int, c: char)
    ensures
        find_from(s, i, c) matches Some(j) ==> i <= j < s.len() && s[j] == c && 0 <= i,
        find_from(s, i, c) matches Some(j) ==> forall|k: int| i <= k < j ==> s[k] != c,
        find_from(s, i, c) is None && 0 <= i ==> forall|k: int| i <= k < s.len() ==> s[k] != c,
    decreases s.len() - i,
{
    if 0 <= i < s.len() && s[i] != c {
        lemma_find_from(s, i + 1, c);
    }
}

/// Index of the first `c` at or after `from`.
pub fn find_char(s: &Vec<char>, from: usize, c: char) -> (r: Option<usize>)
    ensures
        match r {
            Some(j) => find_from(s@, from as int, c) == Some(j as int),
            None => find_from(s@, from as int, c) is None,
        },
{
    let mut j = from;
    while j < s.len()
        invariant
            from <= j,
            find_from(s@, from as int, c) == find_from(s@, j as int, c),
        decreases s.len() - j,
    {
        if s[j] == c {
            return Some(j);
        }
        j = j + 1;
    }
    None
}

/// `needle` occurs at `i` in `s`, comparing ASCII letters without case.
pub open spec fn starts_ci(s: Seq<char>, i: int, needle: Seq<char>) -> bool {
    &&& 0 <= i
    &&& i + needle.len() <= s.len()
    &&& forall|k: int| 0 <= k < needle.len() ==> lower(#[trigger] s[i + k]) == lower(needle[k])
}

/// Exec form of `starts_ci`.
pub fn starts_with_ci(s: &Vec<char>, i: usize, needle: &Vec<char>) -> (b: bool)
    ensures
        b == starts_ci(s@, i as int, needle@),
{
    if needle.len() > s.len() || i > s.len() - needle.len() {
        return false;
    }
    let mut k: usize = 0;
    while k < needle.len()
        invariant
            i + needle@.len() <= s@.len(),
            k <= needle@.len(),
            forall|m: int| 0 <= m < k ==> lower(#[trigger] s@[i + m]) == lower(needle@[m]),
        decreases needle@.len() - k,
    {
        assert(i + k < s.len());
        if to_lower(s[i + k]) != to_lower(needle[k]) {
            return false;
        }
        k = k + 1;
    }
    true
}

/// The first `j >= from` where `needle` starts, ignoring ASCII case.
pub open spec fn find_ci_at(s: Seq<char>, j: int, needle: Seq<char>) -> Option<int>
    decreases s.len() - j,
{
    if j < 0 || j + needle.len() > s.len() {
        None
    } else if starts_ci(s, j, needle) {
        Some(j)
    } else {
        find_ci_at(s, j + 1, needle)
    }
}

/// Case-insensitive search for a non-empty needle.
pub open spec fn find_ci(s: Seq<char>, from: int, needle: Seq<char>) -> Option<int> {
    if needle.len() == 0 {
        None
    } else {
        find_ci_at(s, from, needle)
    }
}

pub proof fn lemma_find_ci_at(s: Seq<char>, j: int, needle: Seq<char>)
    ensures
        find_ci_at(s, j, needle) matches Some(k) ==> j <= k && starts_ci(s, k, needle),
    decreases s.len() - j,
{
    if 0 <= j && j + needle.len() <= s.len() && !starts_ci(s, j, needle) {
        lemma_find_ci_at(s, j + 1, needle);
    }
}

/// Exec form of `find_ci`.
pub fn find_ignore_case(s: &Vec<char>, from: usize, needle: &Vec<char>) -> (r: Option<usize>)
    ensures
        match r {
            Some(j) => find_ci(s@, from as int, needle@) == Some(j as int),
            None => find_ci(s@, from as int, needle@) is None,
        },
{
    if needle.len() == 0 {
        return None;
    }
    let mut j = from;
    while j <= s.len() && needle.len() <= s.len() - j
        invariant
            from <= j,
            needle@.len() > 0,
            find_ci_at(s@, from as int, needle@) == find_ci_at(s@, j as int, needle@),
        decreases s.len() - j,
    {
        if starts_with_ci(s, j, needle) {
            return Some(j);
        }
        j = j + 1;
    }
    None
}

/// Leading whitespace removed.
pub open spec fn trim_start(s: Seq<char>) -> Seq<char>
    decreases s.len(),
{
    if s.len() > 0 && is_ws(s[0]) {
        trim_start(s.drop_first())
    } else {
        s
    }
}

/// Trailing whitespace removed.
pub open spec fn trim_end(s: Seq<char>) -> Seq<char>
    decreases s.len(),
{
    if s.len() > 0 && is_ws(s.last()) {
        trim_end(s.drop_last())
    } else {
        s
    }
}

/// Leading and trailing whitespace removed, as `str::trim` does.
pub open spec fn trim(s: Seq<char>) -> Seq<char> {
    trim_end(trim_start(s))
}

proof fn lemma_trim_start_first(s: Seq<char>)
    ensures
        trim_start(s).len() > 0 ==> !is_ws(trim_start(s)[0]),
    decreases s.len(),
{
    if s.len() > 0 && is_ws(s[0]) {
        lemma_trim_start_first(s.drop_first());
    }
}

proof fn lemma_trim_end_ends(s: Seq<char>)
    ensures
        trim_end(s).len() > 0 ==> !is_ws(trim_end(s).last()) && trim_end(s)[0] == s[0],
    decreases s.len(),
{
    if s.len() > 0 && is_ws(s.last()) {
        lemma_trim_end_ends(s.drop_last());
    }
}

/// Trimmed text neither starts nor ends with whitespace.
pub proof fn lemma_trim_ends(s: Seq<char>)
    ensures
        trim(s).len() > 0 ==> !is_ws(trim(s)[0]) && !is_ws(trim(s).last()),
{
    lemma_trim_start_first(s);
    lemma_trim_end_ends(trim_start(s));
}

/// `trim_start` as a subrange: the first non-whitespace index onward.
pub proof fn lemma_trim_start_skip(s: Seq<char>, i: int)
    requires
        0 <= i <= s.len(),
        forall|k: int| 0 <= k < i ==> is_ws(#[trigger] s[k]),
        i == s.len() || !is_ws(s[i]),
    ensures
        trim_start(s) == s.skip(i),
    decreases i,
{
    if i > 0 {
        assert forall|k: int| 0 <= k < i - 1 implies is_ws(#[trigger] s.drop_first()[k]) by {
            assert(s.drop_first()[k] == s[k + 1]);
        }
        if i - 1 < s.drop_first().len() {
            assert(s.drop_first()[i - 1] == s[i]);
        }
        lemma_trim_start_skip(s.drop_first(), i - 1);
        assert(s.drop_first().skip(i - 1) == s.skip(i));
    } else {
        assert(s.skip(0) == s);
    }
}

/// `trim_end` as a subrange: everything before the trailing whitespace.
pub proof fn lemma_trim_end_take(s: Seq<char>, e: int)
    requires
        0 <= e <= s.len(),
        forall|k: int| e <= k < s.len() ==> is_ws(#[trigger] s[k]),
        e == 0 || !is_ws(s[e - 1]),
    ensures
        trim_end(s) == s.take(e),
    decreases s.len() - e,
{
    if e < s.len() {
        assert forall|k: int| e <= k < s.len() - 1 implies is_ws(#[trigger] s.drop_last()[k]) by {
            assert(s.drop_last()[k] == s[k]);
        }
        if e > 0 {
            assert(s.drop_last()[e - 1] == s[e - 1]);
        }
        lemma_trim_end_take(s.drop_last(), e);
        assert(s.drop_last().take(e) == s.take(e));
    } else {
        assert(s.take(e) == s);
    }
}

/// `s` with leading and trailing whitespace removed.
pub fn trim_chars(s: &Vec<char>) -> (r: Vec<char>)
    ensures
        r@ == trim(s@),
{
    let mut i: usize = 0;
    while i < s.len() && is_whitespace(s[i])
        invariant
            i <= s@.len(),
            forall|k: int| 0 <= k < i ==> is_ws(#[trigger] s@[k]),
        decreases s@.len() - i,
    {
        i = i + 1;
    }
    proof {
        lemma_trim_start_skip(s@, i as int);
    }
    let mut e: usize = s.len();
    while e > i && is_whitespace(s[e - 1])
        invariant
            i <= e <= s@.len(),
            forall|k: int| e <= k < s@.len() ==> is_ws(#[trigger] s@[k]),
        decreases e,
    {
        e = e - 1;
    }
    let mut r: Vec<char> = Vec::new();
    let mut k = i;
    while k < e
        invariant
            i <= k <= e,
            e <= s@.len(),
            r@ == s@.subrange(i as int, k as int),
        decreases e - k,
    {
        r.push(s[k]);
        k = k + 1;
        assert(r@ == s@.subrange(i as int, k as int));
    }
    proof {
        let t = s@.skip(i as int);
        assert forall|m: int| e - i <= m < t.len() implies is_ws(#[trigger] t[m]) by {
            assert(t[m] == s@[m + i]);
        }
        if e > i {
            assert(t[e - i - 1] == s@[e - 1]);
        }
        lemma_trim_end_take(t, e - i);
        assert(t.take(e - i) == s@.subrange(i as int, e as int));
    }
    r
}


/// Whether two character sequences are equal.
pub fn chars_eq(a: &Vec<char>, b: &Vec<char>) -> (r: bool)
    ensures
        r == (a@ == b@),
{
    if a.len() != b.len() {
        return false;
    }
    let mut i: usize = 0;
    while i < a.len()
        invariant
            a@.len() == b@.len(),
            i <= a@.len(),
            forall|k: int| 0 <= k < i ==> a@[k] == b@[k],
        decreases a@.len() - i,
    {
        if a[i] != b[i] {
            return false;
        }
        i = i + 1;
    }
    assert(a@ =~= b@);
    true
}


/// `s[from..to]` as a new vector.
pub fn sub_chars(s: &Vec<char>, from: usize, to: usize) -> (r: Vec<char>)
    requires
        from <= to <= s@.len(),
    ensures
        r@ == s@.subrange(from as int, to as int),
{
    let mut r: Vec<char> = Vec::new();
    let mut k = from;
    while k < to
        invariant
            from <= k <= to,
            to <= s@.len(),
            r@ == s@.subrange(from as int, k as int),
        decreases to - k,
    {
        r.push(s[k]);
        k = k + 1;
        assert(r@ == s@.subrange(from as int, k as int));
    }
    r
}

/// The value of a decimal (`radix` 10) or hexadecimal (`radix` 16) digit.
pub open spec fn digit_value(c: char, radix: int) -> Option<int> {
    if '0' <= c && c <= '9' {
        Some(c as int - '0' as int)
    } else if radix == 16 && 'a' <= c && c <= 'f' {
        Some(c as int - 'a' as int + 10)
    } else if radix == 16 && 'A' <= c && c <= 'F' {
        Some(c as int - 'A' as int + 10)
    } else {
        None
    }
}

/// Every character of `s` is a digit in `radix`.
pub open spec fn all_digits(s: Seq<char>, radix: int) -> bool {
    forall|k: int| 0 <= k < s.len() ==> (#[trigger] digit_value(s[k], radix)) is Some
}

/// The number that the digits of `s` spell in `radix`.
pub open spec fn digits_value(s: Seq<char>, radix: int) -> int
    decreases s.len(),
{
    if s.len() == 0 {
        0
    } else {
        digits_value(s.drop_last(), radix) * radix + digit_value(s.last(), radix)->0
    }
}

proof fn lemma_digits_value_grows(s: Seq<char>, radix: int, i: int)
    requires
        radix == 10 || radix == 16,
        0 <= i <= s.len(),
        all_digits(s, radix),
    ensures
        0 <= digits_value(s.take(i), radix) <= digits_value(s, radix),
    decreases s.len() - i,
{
    if i < s.len() {
        let t = s.take(i + 1);
        assert(t.drop_last() == s.take(i));
        assert(digit_value(s[i], radix) is Some);
        assert(t.last() == s[i]);
        lemma_digits_value_grows(s, radix, i + 1);
        let v = digits_value(s.take(i), radix);
        assert(v * radix >= v) by (nonlinear_arith)
            requires
                v >= 0,
                radix >= 1,
        ;
    } else {
        assert(s.take(i) == s);
        lemma_digits_value_nonneg(s, radix);
    }
}

proof fn lemma_digits_value_nonneg(s: Seq<char>, radix: int)
    requires
        radix == 10 || radix == 16,
        all_digits(s, radix),
    ensures
        digits_value(s, radix) >= 0,
    decreases s.len(),
{
    if s.len() > 0 {
        assert(all_digits(s.drop_last(), radix)) by {
            assert forall|k: int| 0 <= k < s.drop_last().len() implies (#[trigger] digit_value(
                s.drop_last()[k],
                radix,
            )) is Some by {
                assert(s.drop_last()[k] == s[k]);
            }
        }
        lemma_digits_value_nonneg(s.drop_last(), radix);
        let v = digits_value(s.drop_last(), radix);
        assert(digit_value(s[s.len() - 1], radix) is Some);
        assert(v * radix >= 0) by (nonlinear_arith)
            requires
                v >= 0,
                radix >= 1,
        ;
    }
}

/// The number spelled by `s` in `radix`, as `u32::from_str_radix` reads a
/// string of plain digits: `None` for an empty string, a non-digit, or a
/// value above `u32::MAX`.
pub open spec fn parse_u32_spec(s: Seq<char>, radix: int) -> Option<u32> {
    if s.len() == 0 || !all_digits(s, radix) || digits_value(s, radix) > u32::MAX {
        None
    } else {
        Some(digits_value(s, radix) as u32)
    }
}

/// Reads the digits `s[from..to]` in `radix` (10 or 16).
pub fn parse_u32_digits(s: &Vec<char>, from: usize, to: usize, radix: u32) -> (r: Option<u32>)
    requires
        from <= to <= s@.len(),
        radix == 10 || radix == 16,
    ensures
        r == parse_u32_spec(s@.subrange(from as int, to as int), radix as int),
{
    let ghost d = s@.subrange(from as int, to as int);
    if from == to {
        return None;
    }
    let mut k = from;
    while k < to
        invariant
            from <= k <= to,
            to <= s@.len(),
            d == s@.subrange(from as int, to as int),
            forall|m: int| 0 <= m < k - from ==> (#[trigger] digit_value(d[m], radix as int)) is Some,
        decreases to - k,
    {
        if digit_of(s[k], radix).is_none() {
            assert(digit_value(d[k - from], radix as int) is None);
            return None;
        }
        k = k + 1;
    }
    assert(all_digits(d, radix as int));
    let mut acc: u32 = 0;
    let mut k = from;
    while k < to
        invariant
            from <= k <= to,
            to <= s@.len(),
            d == s@.subrange(from as int, to as int),
            all_digits(d, radix as int),
            radix == 10 || radix == 16,
            acc == digits_value(d.take(k - from), radix as int),
        decreases to - k,
    {
        let dv = digit_of(s[k], radix).unwrap();
        proof {
            let t = d.take(k - from + 1);
            assert(t.drop_last() == d.take(k - from));
            assert(t.last() == d[k - from]);
            assert(digit_value(d[k - from], radix as int) is Some);
        }
        if acc > (u32::MAX - dv) / radix {
            proof {
                lemma_digits_value_grows(d, radix as int, k - from + 1);
                let a = acc as int;
                let r = radix as int;
                let m = (u32::MAX - dv) as int;
                assert(a * r + dv > u32::MAX) by (nonlinear_arith)
                    requires
                        a > m / r,
                        r > 0,
                        m >= 0,
                        m == u32::MAX - dv,
                ;
            }
            return None;
        }
        proof {
            let a = acc as int;
            let r = radix as int;
            let m = (u32::MAX - dv) as int;
            assert(a * r + dv <= u32::MAX) by (nonlinear_arith)
                requires
                    a <= m / r,
                    r > 0,
                    m >= 0,
                    m == u32::MAX - dv,
            ;
        }
        acc = acc * radix + dv;
        k = k + 1;
    }
    assert(d.take(to - from) == d);
    Some(acc)
}

/// The value of one digit in `radix`.
pub fn digit_of(c: char, radix: u32) -> (r: Option<u32>)
    ensures
        match digit_value(c, radix as int) {
            Some(v) => r == Some(v as u32),
            None => r is None,
        },
{
    if '0' <= c && c <= '9' {
        Some(c as u32 - '0' as u32)
    } else if radix == 16 && 'a' <= c && c <= 'f' {
        Some(c as u32 - 'a' as u32 + 10)
    } else if radix == 16 && 'A' <= c && c <= 'F' {
        Some(c as u32 - 'A' as u32 + 10)
    } else {
        None
    }
}

/// A Unicode scalar value: below the surrogates, or from U+E000 to U+10FFFF.
pub open spec fn is_scalar(v: int) -> bool {
    (0 <= v < 0xD800) || (0xE000 <= v <= 0x10FFFF)
}

/// The character with code `v`, as `char::from_u32` gives it.
#[verifier::external_body]
pub(crate) fn char_from_u32(v: u32) -> (r: Option<char>)
    ensures
        r == (if is_scalar(v as int) {
            Some(v as char)
        } else {
            None
        }),
{
    char::from_u32(v)
}


/// Lexicographic order on character sequences, the order of `String`'s `Ord`.
pub open spec fn seq_lt(a: Seq<char>, b: Seq<char>) -> bool
    decreases a.len(),
{
    if a.len() == 0 {
        b.len() > 0
    } else if b.len() == 0 {
        false
    } else if a[0] != b[0] {
        a[0] < b[0]
    } else {
        seq_lt(a.drop_first(), b.drop_first())
    }
}

/// `seq_lt` is irreflexive.
pub proof fn lemma_seq_lt_irreflexive(a: Seq<char>)
    ensures
        !seq_lt(a, a),
    decreases a.len(),
{
    if a.len() > 0 {
        lemma_seq_lt_irreflexive(a.drop_first());
    }
}

/// `seq_lt` is transitive.
pub proof fn lemma_seq_lt_transitive(a: Seq<char>, b: Seq<char>, c: Seq<char>)
    requires
        seq_lt(a, b),
        seq_lt(b, c),
    ensures
        seq_lt(a, c),
    decreases a.len(),
{
    if a.len() > 0 && b.len() > 0 && c.len() > 0 && a[0] == b[0] && b[0] == c[0] {
        lemma_seq_lt_transitive(a.drop_first(), b.drop_first(), c.drop_first());
    }
}

/// `seq_lt` is total on distinct sequences.
pub proof fn lemma_seq_lt_total(a: Seq<char>, b: Seq<char>)
    ensures
        a != b ==> seq_lt(a, b) || seq_lt(b, a),
    decreases a.len(),
{
    if a.len() > 0 && b.len() > 0 && a[0] == b[0] {
        lemma_seq_lt_total(a.drop_first(), b.drop_first());
        if a.drop_first() == b.drop_first() {
            assert(a == seq![a[0]] + a.drop_first());
            assert(b == seq![b[0]] + b.drop_first());
        }
    } else if a.len() == 0 && b.len() == 0 {
        assert(a == b);
    }
}

/// Exec form of `seq_lt`.
pub fn chars_less(a: &Vec<char>, b: &Vec<char>) -> (r: bool)
    ensures
        r == seq_lt(a@, b@),
{
    let mut i: usize = 0;
    assert(a@.skip(0) == a@ && b@.skip(0) == b@);
    while i < a.len() && i < b.len() && a[i] == b[i]
        invariant
            i <= a@.len(),
            i <= b@.len(),
            seq_lt(a@, b@) == seq_lt(a@.skip(i as int), b@.skip(i as int)),
        decreases a@.len() - i,
    {
        proof {
            assert(a@.skip(i as int).drop_first() == a@.skip(i + 1));
            assert(b@.skip(i as int).drop_first() == b@.skip(i + 1));
        }
        i = i + 1;
    }
    if i == a.len() {
        i < b.len()
    } else if i == b.len() {
        false
    } else {
        a[i] < b[i]
    }
}

/// Whether two strings are equal.
pub fn str_eq(a: &str, b: &str) -> (r: bool)
    ensures
        r == (a@ == b@),
{
    let x = a.to_owned();
    let y = b.to_owned();
    x == y
}

/// A copy of `s`.
pub fn copy_str(s: &str) -> (r: String)
    ensures
        r@ == s@,
{
    s.to_owned()
}


/// `parts` joined with `sep` between neighbours, as `[..].join(sep)` does.
pub open spec fn join(parts: Seq<Seq<char>>, sep: Seq<char>) -> Seq<char>
    decreases parts.len(),
{
    if parts.len() == 0 {
        Seq::empty()
    } else if parts.len() == 1 {
        parts[0]
    } else {
        join(parts.drop_last(), sep) + sep + parts.last()
    }
}

/// Appends the characters of `s` to `out`.
pub fn append_chars(out: &mut Vec<char>, s: &Vec<char>)
    ensures
        final(out)@ == old(out)@ + s@,
{
    let ghost start = out@;
    let mut k: usize = 0;
    while k < s.len()
        invariant
            k <= s@.len(),
            out@ == start + s@.take(k as int),
        decreases s@.len() - k,
    {
        out.push(s[k]);
        k = k + 1;
        assert(out@ == start + s@.take(k as int));
    }
    assert(s@.take(k as int) == s@);
}

/// Appends the characters of `s` to `out`.
pub fn append_str(out: &mut Vec<char>, s: &str)
    ensures
        final(out)@ == old(out)@ + s@,
{
    let cs = chars_of(s);
    append_chars(out, &cs);
}


/// The decimal digits of `n`, most significant first.
pub open spec fn decimal_spec(n: nat) -> Seq<char>
    decreases n,
{
    if n < 10 {
        seq![(n + 48) as char]
    } else {
        decimal_spec(n / 10) + seq![((n % 10) + 48) as char]
    }
}

/// `n` in decimal, as `format!("{}", n)` writes it.
pub fn decimal(n: usize) -> (s: String)
    ensures
        s@ == decimal_spec(n as nat),
{
    let mut m = n;
    let mut tail: Vec<char> = Vec::new();
    loop
        invariant_except_break
            decimal_spec(n as nat) == decimal_spec(m as nat) + tail@,
        ensures
            decimal_spec(n as nat) == tail@,
        decreases m,
    {
        let d = (m % 10) as u8;
        let c = (d + 48) as char;
        let ghost old_tail = tail@;
        tail.insert(0, c);
        assert(tail@ =~= seq![c] + old_tail);
        if m < 10 {
            break;
        }
        m = m / 10;
    }
    string_of(tail.as_slice())
}

} // verus!
