//! Decoding one raw record of the shapes table: comma splitting, the
//! floating-point text syntax check, and the extraction of the latitude and
//! longitude fields.

use vstd::prelude::*;
use vstd::string::StrSliceExecFns;
use vstd::string::StringExecFns;

use crate::BboxError;

verus! {

/// Comma splitting, stated recursively: `cur` is the field being gathered;
/// a comma closes it, any other character extends it, and the end of the
/// text closes the last field. Splitting always yields at least one field.
pub open spec fn split_rec(s: Seq<char>, cur: Seq<char>) -> Seq<Seq<char>>
    decreases s.len(),
{
    if s.len() == 0 {
        seq![cur]
    } else if s[0] == ',' {
        seq![cur] + split_rec(s.drop_first(), Seq::empty())
    } else {
        split_rec(s.drop_first(), cur.push(s[0]))
    }
}

/// The comma-separated fields of a text line.
pub open spec fn split_commas(s: Seq<char>) -> Seq<Seq<char>> {
    split_rec(s, Seq::empty())
}

/// Splits a line into its comma-separated fields.
pub fn split_fields(s: &str) -> (fields: Vec<String>)
    ensures
        fields@.map_values(|t: String| t@) == split_commas(s@),
{
    let n = s.unicode_len();
    let mut fields: Vec<String> = Vec::new();
    let mut start: usize = 0;
    let mut i: usize = 0;
    proof {
        assert(s@.skip(0) =~= s@);
        assert(s@.subrange(0, 0) =~= Seq::<char>::empty());
        assert(fields@.map_values(|t: String| t@) + split_rec(s@, Seq::empty()) =~= split_rec(
            s@,
            Seq::empty(),
        ));
    }
    while i < n
        invariant
            start <= i <= n,
            n == s@.len(),
            split_commas(s@) == fields@.map_values(|t: String| t@)
                + split_rec(s@.skip(i as int), s@.subrange(start as int, i as int)),
        decreases n - i,
    {
        let c = s.get_char(i);
        let ghost rem = s@.skip(i as int);
        let ghost cur = s@.subrange(start as int, i as int);
        if c == ',' {
            let field = String::from_str(s.substring_char(start, i));
            proof {
                assert(rem[0] == ',');
                assert(rem.drop_first() =~= s@.skip(i as int + 1));
                assert(s@.subrange(i as int + 1, i as int + 1) =~= Seq::<char>::empty());
                assert(fields@.map_values(|t: String| t@) + (seq![cur] + split_rec(
                    s@.skip(i as int + 1),
                    Seq::empty(),
                )) =~= fields@.push(field).map_values(|t: String| t@) + split_rec(
                    s@.skip(i as int + 1),
                    Seq::empty(),
                ));
            }
            fields.push(field);
            start = i + 1;
        } else {
            proof {
                assert(rem[0] == s@[i as int]);
                assert(rem.drop_first() =~= s@.skip(i as int + 1));
                assert(cur.push(s@[i as int]) =~= s@.subrange(start as int, i as int + 1));
            }
        }
        i = i + 1;
    }
    let field = String::from_str(s.substring_char(start, n));
    proof {
        let ghost cur = s@.subrange(start as int, n as int);
        assert(s@.skip(n as int).len() == 0);
        assert(split_rec(s@.skip(n as int), cur) == seq![cur]);
        assert(fields@.map_values(|t: String| t@) + seq![cur]
            =~= fields@.push(field).map_values(|t: String| t@));
    }
    fields.push(field);
    fields
}

/// No comma occurs in the text.
pub open spec fn no_comma(s: Seq<char>) -> bool {
    forall|k: int| 0 <= k < s.len() ==> s[k] != ','
}

/// A comma-free prefix is gathered wholly into the current field.
proof fn lemma_split_rec_nocomma(a: Seq<char>, rest: Seq<char>, cur: Seq<char>)
    requires
        no_comma(a),
    ensures
        split_rec(a + rest, cur) == split_rec(rest, cur + a),
    decreases a.len(),
{
    if a.len() == 0 {
        assert(a + rest =~= rest);
        assert(cur + a =~= cur);
    } else {
        assert((a + rest)[0] == a[0]);
        assert((a + rest).drop_first() =~= a.drop_first() + rest);
        assert(cur.push(a[0]) + a.drop_first() =~= cur + a);
        lemma_split_rec_nocomma(a.drop_first(), rest, cur.push(a[0]));
    }
}

/// A leading comma closes the current field.
proof fn lemma_split_comma_head(rest: Seq<char>, cur: Seq<char>)
    ensures
        split_rec(seq![','] + rest, cur) == seq![cur] + split_rec(rest, Seq::empty()),
{
    assert((seq![','] + rest)[0] == ',');
    assert((seq![','] + rest).drop_first() =~= rest);
}

/// Law: round-trip. Splitting a formatted bounding-box line back on its
/// commas recovers exactly the four texts that were joined, provided no
/// text itself holds a comma (decimal float text never does).
pub proof fn lemma_format_round_trip(a: Seq<char>, b: Seq<char>, c: Seq<char>, d: Seq<char>)
    requires
        no_comma(a),
        no_comma(b),
        no_comma(c),
        no_comma(d),
    ensures
        split_commas(a + seq![','] + b + seq![','] + c + seq![','] + d) == seq![a, b, c, d],
{
    let s = a + seq![','] + b + seq![','] + c + seq![','] + d;
    let t1 = seq![','] + (b + (seq![','] + (c + (seq![','] + d))));
    let t2 = b + (seq![','] + (c + (seq![','] + d)));
    let t3 = seq![','] + (c + (seq![','] + d));
    let t4 = c + (seq![','] + d);
    let t5 = seq![','] + d;
    assert(s =~= a + t1);
    lemma_split_rec_nocomma(a, t1, Seq::empty());
    assert(Seq::<char>::empty() + a =~= a);
    lemma_split_comma_head(t2, a);
    lemma_split_rec_nocomma(b, t3, Seq::empty());
    assert(Seq::<char>::empty() + b =~= b);
    lemma_split_comma_head(t4, b);
    lemma_split_rec_nocomma(c, t5, Seq::empty());
    assert(Seq::<char>::empty() + c =~= c);
    lemma_split_comma_head(d, c);
    lemma_split_rec_nocomma(d, Seq::empty(), Seq::empty());
    assert(d + Seq::<char>::empty() =~= d);
    assert(Seq::<char>::empty() + d =~= d);
    assert(split_rec(Seq::<char>::empty(), d) == seq![d]);
    assert(seq![a] + (seq![b] + (seq![c] + seq![d])) =~= seq![a, b, c, d]);
}

/// A decimal digit.
pub open spec fn is_digit_char(c: char) -> bool {
    '0' <= c && c <= '9'
}

/// Every character of the text is a decimal digit.
pub open spec fn all_digits(s: Seq<char>) -> bool {
    forall|k: int| 0 <= k < s.len() ==> is_digit_char(#[trigger] s[k])
}

/// The text with one leading `+` or `-` removed, if there is one.
pub open spec fn strip_sign(s: Seq<char>) -> Seq<char> {
    if s.len() > 0 && (s[0] == '+' || s[0] == '-') {
        s.drop_first()
    } else {
        s
    }
}

/// The word `inf`, in any letter case.
pub open spec fn is_inf_text(s: Seq<char>) -> bool {
    &&& s.len() == 3
    &&& (s[0] == 'i' || s[0] == 'I')
    &&& (s[1] == 'n' || s[1] == 'N')
    &&& (s[2] == 'f' || s[2] == 'F')
}

/// The word `infinity`, in any letter case.
pub open spec fn is_infinity_text(s: Seq<char>) -> bool {
    &&& s.len() == 8
    &&& (s[0] == 'i' || s[0] == 'I')
    &&& (s[1] == 'n' || s[1] == 'N')
    &&& (s[2] == 'f' || s[2] == 'F')
    &&& (s[3] == 'i' || s[3] == 'I')
    &&& (s[4] == 'n' || s[4] == 'N')
    &&& (s[5] == 'i' || s[5] == 'I')
    &&& (s[6] == 't' || s[6] == 'T')
    &&& (s[7] == 'y' || s[7] == 'Y')
}

/// The word `nan`, in any letter case.
pub open spec fn is_nan_text(s: Seq<char>) -> bool {
    &&& s.len() == 3
    &&& (s[0] == 'n' || s[0] == 'N')
    &&& (s[1] == 'a' || s[1] == 'A')
    &&& (s[2] == 'n' || s[2] == 'N')
}

/// A mantissa: digits with at most one decimal point, and a digit on at
/// least one side of the point.
pub open spec fn is_mantissa(s: Seq<char>) -> bool {
    ||| (s.len() > 0 && all_digits(s))
    ||| (exists|d: int|
        #![trigger s[d]]
        0 <= d < s.len() && s[d] == '.' && all_digits(s.take(d)) && all_digits(s.skip(d + 1)) && (
        d > 0 || s.len() > 1))
}

/// An exponent after `e`: an optional sign, then at least one digit.
pub open spec fn is_exp_tail(s: Seq<char>) -> bool {
    strip_sign(s).len() > 0 && all_digits(strip_sign(s))
}

/// A decimal number: a mantissa, optionally followed by `e` or `E` and an
/// exponent.
pub open spec fn is_number_text(s: Seq<char>) -> bool {
    ||| is_mantissa(s)
    ||| (exists|e: int|
        #![trigger s[e]]
        0 <= e < s.len() && (s[e] == 'e' || s[e] == 'E') && is_mantissa(s.take(e))
            && is_exp_tail(s.skip(e + 1)))
}

/// Floating-point text as the standard `f64` string parser accepts it: an
/// optional sign, then `inf`, `infinity` or `nan` in any letter case, or a
/// decimal number with an optional fraction and an optional exponent.
pub open spec fn is_float_text(s: Seq<char>) -> bool {
    ||| is_inf_text(strip_sign(s))
    ||| is_infinity_text(strip_sign(s))
    ||| is_nan_text(strip_sign(s))
    ||| is_number_text(strip_sign(s))
}

/// A mantissa holds only digits and at most one decimal point.
proof fn lemma_mantissa_char(m: Seq<char>, k: int)
    requires
        is_mantissa(m),
        0 <= k < m.len(),
    ensures
        is_digit_char(m[k]) || m[k] == '.',
{
    if m.len() > 0 && all_digits(m) {
        assert(is_digit_char(m[k]));
    } else {
        let d = choose|d: int|
            #![trigger m[d]]
            0 <= d < m.len() && m[d] == '.' && all_digits(m.take(d)) && all_digits(m.skip(d + 1))
                && (d > 0 || m.len() > 1);
        if k < d {
            assert(is_digit_char(m.take(d)[k]));
        } else if k > d {
            assert(is_digit_char(m.skip(d + 1)[k - d - 1]));
        }
    }
}

/// With the first point of the text at `d`, the mantissa test reduces to
/// digit tests on the two sides.
proof fn lemma_mantissa_dot(m: Seq<char>, d: int)
    requires
        0 <= d < m.len(),
        m[d] == '.',
        forall|k: int| 0 <= k < d ==> m[k] != '.',
    ensures
        is_mantissa(m) == (all_digits(m.take(d)) && all_digits(m.skip(d + 1)) && (d > 0 || m.len()
            > 1)),
{
    if all_digits(m.take(d)) && all_digits(m.skip(d + 1)) && (d > 0 || m.len() > 1) {
        assert(is_mantissa(m));
    }
    if is_mantissa(m) {
        if m.len() > 0 && all_digits(m) {
            assert(is_digit_char(m[d]));
            assert(false);
        } else {
            let d2 = choose|d2: int|
                #![trigger m[d2]]
                0 <= d2 < m.len() && m[d2] == '.' && all_digits(m.take(d2)) && all_digits(
                    m.skip(d2 + 1),
                ) && (d2 > 0 || m.len() > 1);
            if d2 < d {
                assert(m[d2] != '.');
                assert(false);
            } else if d2 > d {
                assert(is_digit_char(m.take(d2)[d]));
                assert(false);
            }
        }
    }
}

/// With no point in the text, the mantissa test is the all-digit test.
proof fn lemma_mantissa_no_dot(m: Seq<char>)
    requires
        forall|k: int| 0 <= k < m.len() ==> m[k] != '.',
    ensures
        is_mantissa(m) == (m.len() > 0 && all_digits(m)),
{
    if is_mantissa(m) && !(m.len() > 0 && all_digits(m)) {
        let d2 = choose|d2: int|
            #![trigger m[d2]]
            0 <= d2 < m.len() && m[d2] == '.' && all_digits(m.take(d2)) && all_digits(
                m.skip(d2 + 1),
            ) && (d2 > 0 || m.len() > 1);
        assert(m[d2] != '.');
        assert(false);
    }
}

/// With the first exponent letter at `e`, the number test reduces to the
/// mantissa and exponent tests on the two sides.
proof fn lemma_number_e(s: Seq<char>, e: int)
    requires
        0 <= e < s.len(),
        s[e] == 'e' || s[e] == 'E',
        forall|k: int| 0 <= k < e ==> s[k] != 'e' && s[k] != 'E',
    ensures
        is_number_text(s) == (is_mantissa(s.take(e)) && is_exp_tail(s.skip(e + 1))),
{
    if is_mantissa(s.take(e)) && is_exp_tail(s.skip(e + 1)) {
        assert(is_number_text(s));
    }
    if is_number_text(s) {
        if is_mantissa(s) {
            lemma_mantissa_char(s, e);
            assert(false);
        } else {
            let e2 = choose|e2: int|
                #![trigger s[e2]]
                0 <= e2 < s.len() && (s[e2] == 'e' || s[e2] == 'E') && is_mantissa(s.take(e2))
                    && is_exp_tail(s.skip(e2 + 1));
            if e2 < e {
                assert(s[e2] != 'e' && s[e2] != 'E');
                assert(false);
            } else if e2 > e {
                lemma_mantissa_char(s.take(e2), e);
                assert(false);
            }
        }
    }
}

/// With no exponent letter in the text, the number test is the mantissa
/// test.
proof fn lemma_number_no_e(s: Seq<char>)
    requires
        forall|k: int| 0 <= k < s.len() ==> s[k] != 'e' && s[k] != 'E',
    ensures
        is_number_text(s) == is_mantissa(s),
{
    if is_number_text(s) && !is_mantissa(s) {
        let e2 = choose|e2: int|
            #![trigger s[e2]]
            0 <= e2 < s.len() && (s[e2] == 'e' || s[e2] == 'E') && is_mantissa(s.take(e2))
                && is_exp_tail(s.skip(e2 + 1));
        assert(s[e2] != 'e' && s[e2] != 'E');
        assert(false);
    }
}

/// An exponent tail holds only digits after an optional leading sign.
proof fn lemma_exp_tail_char(x: Seq<char>, k: int)
    requires
        is_exp_tail(x),
        0 <= k < x.len(),
    ensures
        is_digit_char(x[k]) || x[k] == '+' || x[k] == '-',
{
    if x.len() > 0 && (x[0] == '+' || x[0] == '-') {
        if k > 0 {
            assert(is_digit_char(strip_sign(x)[k - 1]));
        }
    } else {
        assert(is_digit_char(strip_sign(x)[k]));
    }
}

/// After the sign, floating-point text holds only digits, a point, an
/// exponent letter, a sign inside the exponent, or the letters of `inf`,
/// `infinity` and `nan` — never a comma.
proof fn lemma_stripped_float_char(t: Seq<char>, k: int)
    requires
        is_inf_text(t) || is_infinity_text(t) || is_nan_text(t) || is_number_text(t),
        0 <= k < t.len(),
    ensures
        t[k] != ',',
{
    if is_inf_text(t) || is_infinity_text(t) || is_nan_text(t) {
    } else {
        if is_mantissa(t) {
            lemma_mantissa_char(t, k);
        } else {
            let e = choose|e: int|
                #![trigger t[e]]
                0 <= e < t.len() && (t[e] == 'e' || t[e] == 'E') && is_mantissa(t.take(e))
                    && is_exp_tail(t.skip(e + 1));
            if k < e {
                lemma_mantissa_char(t.take(e), k);
            } else if k > e {
                lemma_exp_tail_char(t.skip(e + 1), k - e - 1);
            }
        }
    }
}

/// Law-support: floating-point text never holds a comma, so the four texts
/// of a formatted box split back apart exactly.
pub proof fn lemma_float_text_no_comma(s: Seq<char>)
    requires
        is_float_text(s),
    ensures
        no_comma(s),
{
    let t = strip_sign(s);
    assert forall|k: int| 0 <= k < s.len() implies s[k] != ',' by {
        if s.len() > 0 && (s[0] == '+' || s[0] == '-') {
            if k > 0 {
                assert(t[k - 1] == s[k]);
                lemma_stripped_float_char(t, k - 1);
            }
        } else {
            lemma_stripped_float_char(t, k);
        }
    }
}

/// Whether every character of `s` in `[from, to)` is a decimal digit.
fn all_digits_range(s: &str, from: usize, to: usize) -> (b: bool)
    requires
        from <= to <= s@.len(),
    ensures
        b == all_digits(s@.subrange(from as int, to as int)),
{
    let ghost m = s@.subrange(from as int, to as int);
    let mut i = from;
    while i < to
        invariant
            from <= i <= to <= s@.len(),
            m == s@.subrange(from as int, to as int),
            forall|k: int| 0 <= k < i - from ==> is_digit_char(#[trigger] m[k]),
        decreases to - i,
    {
        let c = s.get_char(i);
        if !(c >= '0' && c <= '9') {
            proof {
                assert(m[i - from] == s@[i as int]);
                assert(!is_digit_char(m[i - from]));
            }
            return false;
        }
        proof {
            assert(m[i - from] == s@[i as int]);
        }
        i = i + 1;
    }
    true
}

/// The first position in `[from, to)` holding `a` or `b`, if any.
fn find_first(s: &str, from: usize, to: usize, a: char, b: char) -> (r: Option<usize>)
    requires
        from <= to <= s@.len(),
    ensures
        match r {
            Some(j) => from <= j < to && (s@[j as int] == a || s@[j as int] == b) && forall|k: int|
                from <= k < j ==> s@[k] != a && s@[k] != b,
            None => forall|k: int| from <= k < to ==> s@[k] != a && s@[k] != b,
        },
{
    let mut i = from;
    while i < to
        invariant
            from <= i <= to <= s@.len(),
            forall|k: int| from <= k < i ==> s@[k] != a && s@[k] != b,
        decreases to - i,
    {
        let c = s.get_char(i);
        if c == a || c == b {
            return Some(i);
        }
        i = i + 1;
    }
    None
}

/// Whether `s` in `[from, to)` is a mantissa.
fn mantissa_range(s: &str, from: usize, to: usize) -> (b: bool)
    requires
        from <= to <= s@.len(),
    ensures
        b == is_mantissa(s@.subrange(from as int, to as int)),
{
    let ghost m = s@.subrange(from as int, to as int);
    match find_first(s, from, to, '.', '.') {
        None => {
            let digits = all_digits_range(s, from, to);
            proof {
                assert(forall|k: int| 0 <= k < m.len() ==> m[k] == s@[from + k]);
                lemma_mantissa_no_dot(m);
            }
            digits && to > from
        },
        Some(d) => {
            let before = all_digits_range(s, from, d);
            let after = all_digits_range(s, d + 1, to);
            let ok = before && after && (d > from || to - from > 1);
            proof {
                assert(forall|k: int| 0 <= k < m.len() ==> m[k] == s@[from + k]);
                assert(m.take(d - from) =~= s@.subrange(from as int, d as int));
                assert(m.skip(d - from + 1) =~= s@.subrange(d as int + 1, to as int));
                lemma_mantissa_dot(m, d - from);
            }
            ok
        },
    }
}

/// Whether `s` in `[from, to)` is an exponent tail: optional sign, then at
/// least one digit.
fn exp_tail_range(s: &str, from: usize, to: usize) -> (b: bool)
    requires
        from <= to <= s@.len(),
    ensures
        b == is_exp_tail(s@.subrange(from as int, to as int)),
{
    let ghost m = s@.subrange(from as int, to as int);
    let mut start = from;
    if from < to {
        let c = s.get_char(from);
        if c == '+' || c == '-' {
            start = from + 1;
        }
    }
    proof {
        assert(strip_sign(m) =~= s@.subrange(start as int, to as int));
    }
    if start < to {
        all_digits_range(s, start, to)
    } else {
        false
    }
}

/// Whether the whole of `s` is floating-point text.
pub fn check_float_text(s: &str) -> (b: bool)
    ensures
        b == is_float_text(s@),
{
    let n = s.unicode_len();
    let mut start: usize = 0;
    if n > 0 {
        let c = s.get_char(0);
        if c == '+' || c == '-' {
            start = 1;
        }
    }
    let ghost t = strip_sign(s@);
    proof {
        assert(t =~= s@.subrange(start as int, n as int));
        assert(forall|k: int| 0 <= k < t.len() ==> t[k] == s@[start + k]);
    }
    let m = n - start;
    if m == 3 {
        let c0 = s.get_char(start);
        let c1 = s.get_char(start + 1);
        let c2 = s.get_char(start + 2);
        if ((c0 == 'i' || c0 == 'I') && (c1 == 'n' || c1 == 'N') && (c2 == 'f' || c2 == 'F')) || ((
        c0 == 'n' || c0 == 'N') && (c1 == 'a' || c1 == 'A') && (c2 == 'n' || c2 == 'N')) {
            return true;
        }
    } else if m == 8 {
        let c0 = s.get_char(start);
        let c1 = s.get_char(start + 1);
        let c2 = s.get_char(start + 2);
        let c3 = s.get_char(start + 3);
        let c4 = s.get_char(start + 4);
        let c5 = s.get_char(start + 5);
        let c6 = s.get_char(start + 6);
        let c7 = s.get_char(start + 7);
        if (c0 == 'i' || c0 == 'I') && (c1 == 'n' || c1 == 'N') && (c2 == 'f' || c2 == 'F') && (c3
            == 'i' || c3 == 'I') && (c4 == 'n' || c4 == 'N') && (c5 == 'i' || c5 == 'I') && (c6
            == 't' || c6 == 'T') && (c7 == 'y' || c7 == 'Y') {
            return true;
        }
    }
    let r = match find_first(s, start, n, 'e', 'E') {
        None => {
            proof {
                lemma_number_no_e(t);
            }
            mantissa_range(s, start, n)
        },
        Some(e) => {
            proof {
                assert(t.take(e - start) =~= s@.subrange(start as int, e as int));
                assert(t.skip(e - start + 1) =~= s@.subrange(e as int + 1, n as int));
                lemma_number_e(t, e - start);
            }
            let mr = mantissa_range(s, start, e);
            if mr {
                exp_tail_range(s, e + 1, n)
            } else {
                false
            }
        },
    };
    r
}

/// The decode outcome of one record, stated over character sequences: the
/// latitude and longitude field texts, or the first error the decoder
/// reports. Fields are counted from zero; the latitude is field 2 and the
/// longitude field 3, and each must be floating-point text.
pub enum DecodeModel {
    Fields { lat: Seq<char>, lon: Seq<char> },
    MissingLatitude,
    MissingLongitude,
    InvalidNumber { text: Seq<char> },
}

/// What decoding a record yields, in the decoder's own checking order:
/// the latitude field must exist and be numeric before the longitude field
/// is even looked for, as the record is read left to right.
pub open spec fn decode_model(s: Seq<char>) -> DecodeModel {
    let f = split_commas(s);
    if f.len() < 3 {
        DecodeModel::MissingLatitude
    } else if !is_float_text(f[2]) {
        DecodeModel::InvalidNumber { text: f[2] }
    } else if f.len() == 3 {
        DecodeModel::MissingLongitude
    } else if !is_float_text(f[3]) {
        DecodeModel::InvalidNumber { text: f[3] }
    } else {
        DecodeModel::Fields { lat: f[2], lon: f[3] }
    }
}

/// Extracts the latitude and longitude texts of one raw record, in that
/// order, or reports the first decode error.
pub fn decode_record(line: &str) -> (r: Result<(String, String), BboxError>)
    ensures
        match r {
            Ok(pair) => decode_model(line@) == (DecodeModel::Fields {
                lat: pair.0@,
                lon: pair.1@,
            }),
            Err(e) => match e {
                BboxError::MissingLatitude => decode_model(line@) == DecodeModel::MissingLatitude,
                BboxError::MissingLongitude => decode_model(line@)
                    == DecodeModel::MissingLongitude,
                BboxError::InvalidNumber { text } => decode_model(line@)
                    == (DecodeModel::InvalidNumber { text: text@ }),
                BboxError::InsufficientData => false,
            },
        },
{
    let fields = split_fields(line);
    let ghost f = split_commas(line@);
    proof {
        assert(f.len() == fields@.len());
    }
    if fields.len() < 3 {
        return Err(BboxError::MissingLatitude);
    }
    let lat = fields[2].clone();
    proof {
        assert(f[2] == fields@.map_values(|t: String| t@)[2]);
    }
    if !check_float_text(lat.as_str()) {
        return Err(BboxError::InvalidNumber { text: lat });
    }
    if fields.len() == 3 {
        return Err(BboxError::MissingLongitude);
    }
    let lon = fields[3].clone();
    proof {
        assert(f[3] == fields@.map_values(|t: String| t@)[3]);
    }
    if !check_float_text(lon.as_str()) {
        return Err(BboxError::InvalidNumber { text: lon });
    }
    Ok((lat, lon))
}

} // verus!
