//! Small text rules of the graph builder: node text parts, keyword
//! normalization, id segments and integer-valued sort keys.

use vstd::prelude::*;
use vstd::utf8::encode_utf8;

use crate::foreign::{case_fold, case_fold_spec};
use crate::graph::html::{collapse_runs, html_to_text, html_to_text_spec};
use crate::jsonl::string_views;
use crate::text::{
    all_digits, append_chars, digit_value, digits_value, append_str, chars_of, copy_str, digit_of, is_whitespace, is_ws,
    join, push_char, seq_lt, chars_less, str_eq, string_of, trim, trim_chars,
};

verus! {

/// Fields that may hold HTML and go through `html_to_text`.
pub open spec fn is_html_field(name: Seq<char>) -> bool {
    ||| name == "description"@
    ||| name == "legend"@
    ||| name == "loadout"@
    ||| name == "transport"@
    ||| name == "leader_head"@
    ||| name == "leader_footer"@
    ||| name == "damaged_description"@
    ||| name == "inv_sv_descr"@
    ||| name == "base_size_descr"@
}

/// The text part a field contributes: HTML fields as plain text, others as is.
pub open spec fn part_spec(field_name: Seq<char>, value: Seq<char>) -> Seq<char> {
    if is_html_field(field_name) {
        html_to_text_spec(value)
    } else {
        value
    }
}

/// The text part a field contributes to a node.
pub fn part(field_name: &str, value: &str) -> (r: String)
    ensures
        r@ == part_spec(field_name@, value@),
{
    if str_eq(field_name, "description") || str_eq(field_name, "legend") || str_eq(field_name, "loadout")
        || str_eq(field_name, "transport") || str_eq(field_name, "leader_head") || str_eq(
        field_name,
        "leader_footer",
    ) || str_eq(field_name, "damaged_description") || str_eq(field_name, "inv_sv_descr") || str_eq(
        field_name,
        "base_size_descr",
    ) {
        html_to_text(value)
    } else {
        copy_str(value)
    }
}

/// The non-empty parts joined with newlines.
pub open spec fn join_parts_spec(parts: Seq<Seq<char>>) -> Seq<char> {
    join(parts.filter(|p: Seq<char>| p.len() > 0), seq!['\n'])
}

/// The non-empty parts joined with `sep` between neighbours.
pub fn join_nonempty(parts: Vec<String>, sep: char) -> (r: String)
    ensures
        r@ == join(string_views(parts@).filter(|p: Seq<char>| p.len() > 0), seq![sep]),
{
    let ghost pv = string_views(parts@);
    let mut out: Vec<char> = Vec::new();
    let mut any = false;
    let mut k: usize = 0;
    while k < parts.len()
        invariant
            k <= parts@.len(),
            pv == string_views(parts@),
            any == (pv.take(k as int).filter(|p: Seq<char>| p.len() > 0).len() > 0),
            out@ == join(pv.take(k as int).filter(|p: Seq<char>| p.len() > 0), seq![sep]),
        decreases parts@.len() - k,
    {
        let ghost pre = pv.take(k as int).filter(|p: Seq<char>| p.len() > 0);
        let ghost post = pv.take(k + 1).filter(|p: Seq<char>| p.len() > 0);
        proof {
            assert(pv.take(k + 1).drop_last() =~= pv.take(k as int));
            assert(pv.take(k + 1).last() == pv[k as int]);
            reveal_with_fuel(Seq::filter, 1);
            assert(pv[k as int] == parts@[k as int]@);
        }
        let cs = chars_of(parts[k].as_str());
        if cs.len() > 0 {
            assert(post =~= pre.push(cs@));
            if any {
                assert(post.drop_last() =~= pre);
                out.push(sep);
            } else {
                assert(pre.len() == 0);
                assert(post =~= seq![cs@]);
            }
            append_chars(&mut out, &cs);
            any = true;
        } else {
            assert(post =~= pre);
        }
        k = k + 1;
    }
    assert(pv.take(k as int) =~= pv);
    string_of(out.as_slice())
}

/// Joins the non-empty parts with newlines.
pub fn join_parts(parts: Vec<String>) -> (r: String)
    ensures
        r@ == join_parts_spec(string_views(parts@)),
{
    join_nonempty(parts, '\n')
}

/// `prefix`, then a space and `line` when `line` is not empty.
pub open spec fn with_line_spec(prefix: Seq<char>, line: Seq<char>) -> Seq<char> {
    if line.len() == 0 {
        prefix
    } else {
        prefix + seq![' '] + line
    }
}

/// `prefix`, then a space and `line` when `line` is not empty.
pub fn with_line(prefix: &str, line: &str) -> (r: String)
    ensures
        r@ == with_line_spec(prefix@, line@),
{
    if line.is_empty() {
        copy_str(prefix)
    } else {
        let mut out = chars_of(prefix);
        out.push(' ');
        append_str(&mut out, line);
        string_of(out.as_slice())
    }
}

/// No-break spaces replaced by ordinary spaces.
pub open spec fn replace_nbsp(s: Seq<char>) -> Seq<char> {
    s.map_values(|c: char| if c == '\u{a0}' { ' ' } else { c })
}

/// The display label of a keyword: no-break spaces replaced, trimmed, and
/// whitespace runs collapsed to one space.
pub open spec fn keyword_label(raw: Seq<char>) -> Seq<char> {
    collapse_runs(trim(replace_nbsp(raw)))
}

/// Whitespace runs collapsed to single spaces.
pub fn collapse_chars(line: &Vec<char>) -> (out: Vec<char>)
    ensures
        out@ == collapse_runs(line@),
{
    let mut collapsed: Vec<char> = Vec::new();
    let mut k: usize = 0;
    while k < line.len()
        invariant
            k <= line@.len(),
            collapsed@ == collapse_runs(line@.take(k as int)),
        decreases line@.len() - k,
    {
        proof {
            let t = line@.take(k + 1);
            assert(t.drop_last() =~= line@.take(k as int));
            if k > 0 {
                assert(t[t.len() - 2] == line@[k - 1]);
            }
        }
        let c = line[k];
        if !is_whitespace(c) {
            collapsed.push(c);
        } else if k > 0 && is_whitespace(line[k - 1]) {
        } else {
            collapsed.push(' ');
        }
        k = k + 1;
    }
    assert(line@.take(k as int) =~= line@);
    collapsed
}

/// The keyword's display label and its case-folded identity.
pub fn normalize_keyword(raw: &str) -> (r: (String, String))
    ensures
        r.0@ == keyword_label(raw@),
        r.1@ == case_fold_spec(keyword_label(raw@)),
{
    let cs = chars_of(raw);
    let mut replaced: Vec<char> = Vec::new();
    let mut k: usize = 0;
    while k < cs.len()
        invariant
            k <= cs@.len(),
            replaced@ == replace_nbsp(cs@.take(k as int)),
        decreases cs@.len() - k,
    {
        let c = cs[k];
        replaced.push(if c == '\u{a0}' { ' ' } else { c });
        k = k + 1;
        assert(replaced@ =~= replace_nbsp(cs@.take(k as int)));
    }
    assert(cs@.take(k as int) =~= cs@);
    let trimmed = trim_chars(&replaced);
    let label = string_of(collapse_chars(&trimmed).as_slice());
    let folded = case_fold(label.as_str());
    (label, folded)
}

/// Bytes left as they are in an id segment: ASCII letters, digits, `-._~`.
pub open spec fn unreserved(b: u8) -> bool {
    (65 <= b <= 90) || (97 <= b <= 122) || (48 <= b <= 57) || b == 45 || b == 46 || b == 95 || b
        == 126
}

/// The uppercase hex digit for a value below 16.
pub open spec fn upper_hex_digit(d: int) -> char {
    if d < 10 {
        (d + 48) as char
    } else {
        (d + 55) as char
    }
}

/// Percent-encoding of a byte string: unreserved bytes as themselves, every
/// other byte as `%` and two uppercase hex digits.
pub open spec fn quote_bytes(b: Seq<u8>) -> Seq<char>
    decreases b.len(),
{
    if b.len() == 0 {
        Seq::empty()
    } else {
        let x = b.last();
        quote_bytes(b.drop_last()) + if unreserved(x) {
            seq![x as char]
        } else {
            seq!['%', upper_hex_digit(x as int / 16), upper_hex_digit(x as int % 16)]
        }
    }
}

fn upper_hex(d: u8) -> (c: char)
    requires
        d < 16,
    ensures
        c == upper_hex_digit(d as int),
{
    if d < 10 {
        (d + 48) as char
    } else {
        (d + 55) as char
    }
}

/// Percent-encodes the UTF-8 bytes of `value` for use inside a node id.
pub fn quote_segment(value: &str) -> (r: String)
    ensures
        r@ == quote_bytes(encode_utf8(value@)),
{
    let bytes = value.as_bytes();
    let mut out: Vec<char> = Vec::new();
    let mut i: usize = 0;
    while i < bytes.len()
        invariant
            i <= bytes@.len(),
            bytes@ == encode_utf8(value@),
            out@ == quote_bytes(bytes@.take(i as int)),
        decreases bytes@.len() - i,
    {
        proof {
            assert(bytes@.take(i + 1).drop_last() =~= bytes@.take(i as int));
        }
        let b = bytes[i];
        if (65 <= b && b <= 90) || (97 <= b && b <= 122) || (48 <= b && b <= 57) || b == 45 || b == 46
            || b == 95 || b == 126 {
            out.push(b as char);
        } else {
            out.push('%');
            out.push(upper_hex(b / 16));
            out.push(upper_hex(b % 16));
        }
        i = i + 1;
    }
    assert(bytes@.take(i as int) =~= bytes@);
    string_of(out.as_slice())
}

/// Leading `0` digits removed.
pub open spec fn strip_zeros(d: Seq<char>) -> Seq<char>
    decreases d.len(),
{
    if d.len() > 0 && d[0] == '0' {
        strip_zeros(d.drop_first())
    } else {
        d
    }
}

/// An optional sign and decimal digits: whether it is negative, and the
/// digits without leading zeros (`0` for zero).
pub open spec fn integer_token_spec(v: Seq<char>) -> Option<(bool, Seq<char>)> {
    let neg = v.len() > 0 && v[0] == '-';
    let digits = if v.len() > 0 && (v[0] == '-' || v[0] == '+') {
        v.drop_first()
    } else {
        v
    };
    if digits.len() == 0 || !all_digits(digits, 10) {
        None
    } else {
        let t = strip_zeros(digits);
        Some((neg, if t.len() == 0 { seq!['0'] } else { t }))
    }
}

/// Reads `value` as an optionally signed decimal integer.
pub fn integer_token(value: &str) -> (r: Option<(bool, String)>)
    ensures
        match r {
            Some((neg, mag)) => integer_token_spec(value@) == Some((neg, mag@)),
            None => integer_token_spec(value@) is None,
        },
{
    let v = chars_of(value);
    let neg = v.len() > 0 && v[0] == '-';
    let start: usize = if v.len() > 0 && (v[0] == '-' || v[0] == '+') { 1 } else { 0 };
    let ghost digits = v@.skip(start as int);
    assert(start == 1 ==> digits =~= v@.drop_first());
    assert(start == 0 ==> digits =~= v@);
    if start == v.len() {
        assert(digits.len() == 0);
        return None;
    }
    let mut k = start;
    while k < v.len()
        invariant
            start <= k <= v@.len(),
            digits == v@.skip(start as int),
            v@ == value@,
            digits.len() > 0,
            start == 1 ==> digits == v@.drop_first(),
            start == 0 ==> digits == v@,
            start == (if v@.len() > 0 && (v@[0] == '-' || v@[0] == '+') { 1int } else { 0int }),
            forall|m: int| 0 <= m < k - start ==> (#[trigger] crate::text::digit_value(digits[m], 10)) is Some,
        decreases v@.len() - k,
    {
        if digit_of(v[k], 10).is_none() {
            assert(crate::text::digit_value(digits[k - start], 10) is None);
            return None;
        }
        k = k + 1;
    }
    assert(all_digits(digits, 10));
    let mut z = start;
    while z < v.len() && v[z] == '0'
        invariant
            start <= z <= v@.len(),
            strip_zeros(digits) == strip_zeros(v@.skip(z as int)),
        decreases v@.len() - z,
    {
        assert(v@.skip(z as int).drop_first() =~= v@.skip(z + 1));
        z = z + 1;
    }
    assert(strip_zeros(v@.skip(z as int)) == v@.skip(z as int));
    let mut mag: Vec<char> = Vec::new();
    if z == v.len() {
        mag.push('0');
        assert(v@.skip(z as int).len() == 0);
    } else {
        let mut k2 = z;
        while k2 < v.len()
            invariant
                z <= k2 <= v@.len(),
                mag@ == v@.subrange(z as int, k2 as int),
            decreases v@.len() - k2,
        {
            mag.push(v[k2]);
            k2 = k2 + 1;
            assert(mag@ =~= v@.subrange(z as int, k2 as int));
        }
        assert(v@.subrange(z as int, v@.len() as int) =~= v@.skip(z as int));
    }
    Some((neg, string_of(mag.as_slice())))
}


/// `x` is shorter than `y`, or as long and before it in character order.
pub open spec fn magnitude_less(x: Seq<char>, y: Seq<char>) -> bool {
    x.len() < y.len() || (x.len() == y.len() && seq_lt(x, y))
}

/// The integer an optionally signed decimal string denotes.
pub open spec fn integer_value(v: Seq<char>) -> int {
    let digits = if v.len() > 0 && (v[0] == '-' || v[0] == '+') {
        v.drop_first()
    } else {
        v
    };
    if v.len() > 0 && v[0] == '-' {
        -digits_value(digits, 10)
    } else {
        digits_value(digits, 10)
    }
}

/// The integer order of two integer strings.
pub open spec fn integer_less(a: Seq<char>, b: Seq<char>) -> bool {
    integer_value(a) < integer_value(b)
}

/// Ten to the power `n`.
pub open spec fn pow10(n: nat) -> int
    decreases n,
{
    if n == 0 {
        1
    } else {
        10 * pow10((n - 1) as nat)
    }
}

/// Digits as integer tokens keep them: not empty, and no leading zero
/// unless the digits are `0` itself.
pub open spec fn canonical_digits(m: Seq<char>) -> bool {
    &&& m.len() > 0
    &&& all_digits(m, 10)
    &&& (m[0] != '0' || m.len() == 1)
}

proof fn lemma_pow10_grows(a: nat, b: nat)
    requires
        a <= b,
    ensures
        1 <= pow10(a) <= pow10(b),
    decreases b,
{
    if a < b {
        lemma_pow10_grows(a, (b - 1) as nat);
    } else if a > 0 {
        lemma_pow10_grows((a - 1) as nat, (a - 1) as nat);
    }
}

proof fn lemma_digit_range(s: Seq<char>, k: int)
    requires
        all_digits(s, 10),
        0 <= k < s.len(),
    ensures
        '0' <= s[k] <= '9',
        digit_value(s[k], 10)->0 == s[k] as int - '0' as int,
{
    assert(digit_value(s[k], 10) is Some);
}

proof fn lemma_value_below(x: Seq<char>)
    requires
        all_digits(x, 10),
    ensures
        0 <= digits_value(x, 10) < pow10(x.len()),
    decreases x.len(),
{
    if x.len() > 0 {
        let t = x.drop_last();
        assert forall|k: int| 0 <= k < t.len() implies (#[trigger] digit_value(t[k], 10)) is Some by {
            assert(t[k] == x[k]);
        }
        lemma_value_below(t);
        lemma_digit_range(x, x.len() - 1);
    }
}

proof fn lemma_value_front(x: Seq<char>)
    requires
        all_digits(x, 10),
        x.len() > 0,
    ensures
        digits_value(x, 10) == (x[0] as int - '0' as int) * pow10((x.len() - 1) as nat) + digits_value(
            x.drop_first(),
            10,
        ),
    decreases x.len(),
{
    lemma_digit_range(x, 0);
    if x.len() == 1 {
        assert(x.drop_last().len() == 0);
        assert(digits_value(x.drop_last(), 10) == 0);
        assert(x.drop_first().len() == 0);
        assert(digits_value(x.drop_first(), 10) == 0);
        assert(x.last() == x[0]);
        assert(pow10(0) == 1);
        assert(digits_value(x, 10) == x[0] as int - '0' as int);
    } else {
        let t = x.drop_last();
        assert forall|k: int| 0 <= k < t.len() implies (#[trigger] digit_value(t[k], 10)) is Some by {
            assert(t[k] == x[k]);
        }
        lemma_value_front(t);
        let r = x.drop_first();
        assert(r.drop_last() =~= t.drop_first());
        assert(r.last() == x.last());
        assert(r.len() > 0);
        let d0 = x[0] as int - '0' as int;
        let p = pow10((t.len() - 1) as nat);
        assert(pow10((x.len() - 1) as nat) == 10 * p);
        let a = digits_value(t.drop_first(), 10);
        let dl = digit_value(x.last(), 10)->0;
        assert(digits_value(x, 10) == digits_value(t, 10) * 10 + dl);
        assert(digits_value(r, 10) == digits_value(r.drop_last(), 10) * 10 + dl);
        assert((d0 * p + a) * 10 + dl == d0 * (10 * p) + (a * 10 + dl)) by (nonlinear_arith);
    }
}

proof fn lemma_all_digits_drop_first(x: Seq<char>)
    requires
        all_digits(x, 10),
        x.len() > 0,
    ensures
        all_digits(x.drop_first(), 10),
{
    assert forall|k: int| 0 <= k < x.drop_first().len() implies (#[trigger] digit_value(x.drop_first()[k], 10)) is Some by {
        assert(x.drop_first()[k] == x[k + 1]);
    }
}

proof fn lemma_leading_value(x: Seq<char>)
    requires
        all_digits(x, 10),
        x.len() > 0,
        x[0] != '0',
    ensures
        digits_value(x, 10) >= pow10((x.len() - 1) as nat),
{
    lemma_value_front(x);
    lemma_digit_range(x, 0);
    lemma_all_digits_drop_first(x);
    lemma_value_below(x.drop_first());
    lemma_pow10_grows(0, (x.len() - 1) as nat);
    let d0 = x[0] as int - '0' as int;
    let p = pow10((x.len() - 1) as nat);
    assert(d0 * p >= p) by (nonlinear_arith)
        requires
            d0 >= 1,
            p >= 1,
    ;
}

proof fn lemma_same_length_order(x: Seq<char>, y: Seq<char>)
    requires
        all_digits(x, 10),
        all_digits(y, 10),
        x.len() == y.len(),
        seq_lt(x, y),
    ensures
        digits_value(x, 10) < digits_value(y, 10),
    decreases x.len(),
{
    lemma_value_front(x);
    lemma_value_front(y);
    lemma_all_digits_drop_first(x);
    lemma_all_digits_drop_first(y);
    lemma_digit_range(x, 0);
    lemma_digit_range(y, 0);
    let p = pow10((x.len() - 1) as nat);
    lemma_pow10_grows(0, (x.len() - 1) as nat);
    if x[0] != y[0] {
        lemma_value_below(x.drop_first());
        lemma_value_below(y.drop_first());
        let dx = x[0] as int - '0' as int;
        let dy = y[0] as int - '0' as int;
        assert(dx * p + p <= dy * p) by (nonlinear_arith)
            requires
                dx + 1 <= dy,
                p >= 1,
        ;
    } else {
        lemma_same_length_order(x.drop_first(), y.drop_first());
    }
}

/// On digits as integer tokens keep them, the length-then-character order
/// is the order of their values.
proof fn lemma_magnitude_order(x: Seq<char>, y: Seq<char>)
    requires
        canonical_digits(x),
        canonical_digits(y),
    ensures
        magnitude_less(x, y) == (digits_value(x, 10) < digits_value(y, 10)),
        x == y <==> digits_value(x, 10) == digits_value(y, 10),
{
    lemma_value_below(x);
    lemma_value_below(y);
    if x.len() < y.len() {
        lemma_leading_value(y);
        lemma_pow10_grows(x.len(), (y.len() - 1) as nat);
    } else if y.len() < x.len() {
        lemma_leading_value(x);
        lemma_pow10_grows(y.len(), (x.len() - 1) as nat);
    } else if x == y {
        crate::text::lemma_seq_lt_irreflexive(x);
    } else {
        crate::text::lemma_seq_lt_total(x, y);
        if seq_lt(x, y) {
            lemma_same_length_order(x, y);
        } else {
            lemma_same_length_order(y, x);
        }
    }
}

proof fn lemma_strip_zeros(d: Seq<char>)
    requires
        all_digits(d, 10),
    ensures
        all_digits(strip_zeros(d), 10),
        strip_zeros(d).len() > 0 ==> strip_zeros(d)[0] != '0',
        digits_value(strip_zeros(d), 10) == digits_value(d, 10),
    decreases d.len(),
{
    if d.len() > 0 && d[0] == '0' {
        lemma_all_digits_drop_first(d);
        lemma_strip_zeros(d.drop_first());
        lemma_value_front(d);
    }
}

/// A token's magnitude keeps its digits, and the token denotes the value of
/// the string it was read from.
proof fn lemma_token_value(v: Seq<char>)
    requires
        integer_token_spec(v) is Some,
    ensures
        integer_token_spec(v) matches Some((neg, mag)) && canonical_digits(mag) && integer_value(v) == if neg {
            -digits_value(mag, 10)
        } else {
            digits_value(mag, 10)
        },
{
    let digits = if v.len() > 0 && (v[0] == '-' || v[0] == '+') {
        v.drop_first()
    } else {
        v
    };
    lemma_strip_zeros(digits);
    let t = strip_zeros(digits);
    if t.len() == 0 {
        let z = seq!['0'];
        assert(z.drop_last().len() == 0);
        assert(digits_value(z.drop_last(), 10) == 0);
        assert(z.last() == '0');
        assert(digit_value(z[0], 10) is Some);
        assert(digits_value(z, 10) == 0);
        assert(all_digits(z, 10)) by {
            assert forall|k: int| 0 <= k < z.len() implies (#[trigger] digit_value(z[k], 10)) is Some by {}
        }
        assert(digits_value(t, 10) == 0);
    }
}

/// The sign that orders a token: zero counts as not negative.
fn order_sign(neg: bool, mag: &String) -> (r: bool)
    requires
        canonical_digits(mag@),
    ensures
        r == (neg && digits_value(mag@, 10) != 0),
{
    let zero = str_eq(mag.as_str(), "0");
    proof {
        reveal_strlit("0");
        let z = seq!['0'];
        assert(z.drop_last().len() == 0);
        assert(digits_value(z.drop_last(), 10) == 0);
        assert(z.last() == '0');
        assert(digits_value(z, 10) == 0);
        assert("0"@ == z);
        if mag@.len() == 1 && mag@[0] == '0' {
            assert(mag@ =~= z);
        }
        if !zero {
            lemma_leading_value(mag@);
            lemma_pow10_grows(0, (mag@.len() - 1) as nat);
        }
    }
    neg && !zero
}

fn magnitude_lt(x: &String, y: &String) -> (r: bool)
    ensures
        r == magnitude_less(x@, y@),
{
    let a = chars_of(x.as_str());
    let b = chars_of(y.as_str());
    a.len() < b.len() || (a.len() == b.len() && chars_less(&a, &b))
}

/// Whether integer string `left` denotes a smaller integer than `right`.
pub fn integer_lt(left: &str, right: &str) -> (r: bool)
    requires
        integer_token_spec(left@) is Some,
        integer_token_spec(right@) is Some,
    ensures
        r == integer_less(left@, right@),
{
    let (ln, lm) = integer_token(left).unwrap();
    let (rn, rm) = integer_token(right).unwrap();
    proof {
        lemma_token_value(left@);
        lemma_token_value(right@);
        lemma_magnitude_order(lm@, rm@);
        lemma_magnitude_order(rm@, lm@);
        lemma_value_below(lm@);
        lemma_value_below(rm@);
    }
    let lneg = order_sign(ln, &lm);
    let rneg = order_sign(rn, &rm);
    if lneg && !rneg {
        true
    } else if !lneg && rneg {
        false
    } else if !lneg {
        magnitude_lt(&lm, &rm)
    } else {
        magnitude_lt(&rm, &lm)
    }
}

/// Compares two integer strings by the integers they denote: `007` equals
/// `+7`, and `-0` equals `0`.
pub fn cmp_integer_strings(left: &str, right: &str) -> (r: core::cmp::Ordering)
    requires
        integer_token_spec(left@) is Some,
        integer_token_spec(right@) is Some,
    ensures
        r == (if integer_value(left@) < integer_value(right@) {
            core::cmp::Ordering::Less
        } else if integer_value(left@) > integer_value(right@) {
            core::cmp::Ordering::Greater
        } else {
            core::cmp::Ordering::Equal
        }),
{
    if integer_lt(left, right) {
        core::cmp::Ordering::Less
    } else if integer_lt(right, left) {
        core::cmp::Ordering::Greater
    } else {
        core::cmp::Ordering::Equal
    }
}

} // verus!
