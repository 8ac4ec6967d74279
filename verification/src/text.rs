//! Character classes and small text grammars shared by the parsers: the
//! Unicode `White_Space` set, trimming, the decimal grammar of unsigned
//! integers and the grammar of floating-point literals.
use vstd::prelude::*;
use vstd::std_specs::iter::IteratorSpec;

verus! {

/// The view of an optional string.
pub open spec fn opt_view(o: Option<String>) -> Option<Seq<char>> {
    match o {
        Some(s) => Some(s@),
        None => None,
    }
}

/// Unicode `White_Space` (what `char::is_whitespace` tests).
pub open spec fn is_ws(c: char) -> bool {
    ||| ('\u{9}' <= c && c <= '\u{d}')
    ||| c == ' '
    ||| c == '\u{85}'
    ||| c == '\u{a0}'
    ||| c == '\u{1680}'
    ||| ('\u{2000}' <= c && c <= '\u{200a}')
    ||| c == '\u{2028}'
    ||| c == '\u{2029}'
    ||| c == '\u{202f}'
    ||| c == '\u{205f}'
    ||| c == '\u{3000}'
}

pub open spec fn is_ascii_alpha(c: char) -> bool {
    ('a' <= c && c <= 'z') || ('A' <= c && c <= 'Z')
}

pub open spec fn is_digit(c: char) -> bool {
    '0' <= c && c <= '9'
}

/// ASCII lowercase of one character (other characters are unchanged).
pub open spec fn lower(c: char) -> char {
    if 'A' <= c && c <= 'Z' {
        ((c as u32) + 32) as char
    } else {
        c
    }
}

pub open spec fn lower_seq(s: Seq<char>) -> Seq<char> {
    s.map_values(|c: char| lower(c))
}

/// Number of leading whitespace characters.
pub open spec fn lead_ws(s: Seq<char>) -> nat
    decreases s.len(),
{
    if s.len() > 0 && is_ws(s[0]) {
        1 + lead_ws(s.drop_first())
    } else {
        0
    }
}

/// Number of trailing whitespace characters.
pub open spec fn trail_ws(s: Seq<char>) -> nat
    decreases s.len(),
{
    if s.len() > 0 && is_ws(s.last()) {
        1 + trail_ws(s.drop_last())
    } else {
        0
    }
}

/// `s` without leading and trailing whitespace (`str::trim`).
pub open spec fn trim(s: Seq<char>) -> Seq<char> {
    let r = s.skip(lead_ws(s) as int);
    r.take(r.len() - trail_ws(r))
}

/// Number of trailing ASCII letters.
pub open spec fn trail_alpha(s: Seq<char>) -> nat
    decreases s.len(),
{
    if s.len() > 0 && is_ascii_alpha(s.last()) {
        1 + trail_alpha(s.drop_last())
    } else {
        0
    }
}

pub open spec fn all_digits(s: Seq<char>) -> bool {
    forall|i: int| 0 <= i < s.len() ==> is_digit(#[trigger] s[i])
}

/// Value of a string of decimal digits.
pub open spec fn digits_value(s: Seq<char>) -> nat
    decreases s.len(),
{
    if s.len() == 0 {
        0
    } else {
        digits_value(s.drop_last()) * 10 + ((s.last() as u32) - ('0' as u32)) as nat
    }
}

/// The decimal grammar of unsigned integers (`str::parse::<usize>`): an
/// optional `+`, then one or more digits; the value is the digits' value.
pub open spec fn unsigned_digits(s: Seq<char>) -> Seq<char> {
    if s.len() > 0 && s[0] == '+' {
        s.drop_first()
    } else {
        s
    }
}

pub open spec fn is_unsigned_literal(s: Seq<char>) -> bool {
    unsigned_digits(s).len() > 0 && all_digits(unsigned_digits(s))
}

/// What `str::parse::<usize>` gives back: the value, when the text is an
/// unsigned literal whose value fits.
pub open spec fn parse_usize_spec(s: Seq<char>) -> Option<usize> {
    if is_unsigned_literal(s) && digits_value(unsigned_digits(s)) <= usize::MAX {
        Some(digits_value(unsigned_digits(s)) as usize)
    } else {
        None
    }
}

/// First index of `c` or `C` (case-insensitive for letters), or the length.
pub open spec fn first_index_of(s: Seq<char>, c: char) -> nat
    decreases s.len(),
{
    if s.len() == 0 {
        0
    } else if lower(s[0]) == c {
        0
    } else {
        1 + first_index_of(s.drop_first(), c)
    }
}

/// Mantissa of a decimal float: digits with at most one `.`, and at least
/// one digit.
pub open spec fn is_mantissa(m: Seq<char>) -> bool {
    let d = first_index_of(m, '.') as int;
    if d == m.len() {
        m.len() > 0 && all_digits(m)
    } else {
        all_digits(m.take(d)) && all_digits(m.skip(d + 1)) && (d > 0 || m.len() - d - 1 > 0)
    }
}

/// Exponent of a decimal float: `e` or `E`, an optional sign, digits.
pub open spec fn is_exponent(x: Seq<char>) -> bool {
    &&& x.len() >= 2
    &&& lower(x[0]) == 'e'
    &&& {
        let r = if x[1] == '+' || x[1] == '-' {
            x.skip(2)
        } else {
            x.skip(1)
        };
        r.len() > 0 && all_digits(r)
    }
}

pub open spec fn is_decimal_number(s: Seq<char>) -> bool {
    let k = first_index_of(s, 'e') as int;
    is_mantissa(s.take(k)) && (k == s.len() || is_exponent(s.skip(k)))
}

/// The grammar of floating-point literals (`str::parse::<f64>`): an
/// optional sign, then `inf`, `infinity`, `nan` (any case) or a decimal
/// number with an optional exponent.  No surrounding whitespace.
pub open spec fn is_float_literal(s: Seq<char>) -> bool {
    let r = if s.len() > 0 && (s[0] == '+' || s[0] == '-') {
        s.drop_first()
    } else {
        s
    };
    ||| lower_seq(r) == "inf"@
    ||| lower_seq(r) == "infinity"@
    ||| lower_seq(r) == "nan"@
    ||| is_decimal_number(r)
}

pub fn is_whitespace(c: char) -> (r: bool)
    ensures
        r == is_ws(c),
{
    ('\u{9}' <= c && c <= '\u{d}') || c == ' ' || c == '\u{85}' || c == '\u{a0}' || c
        == '\u{1680}' || ('\u{2000}' <= c && c <= '\u{200a}') || c == '\u{2028}' || c
        == '\u{2029}' || c == '\u{202f}' || c == '\u{205f}' || c == '\u{3000}'
}

pub fn is_ascii_alphabetic(c: char) -> (r: bool)
    ensures
        r == is_ascii_alpha(c),
{
    ('a' <= c && c <= 'z') || ('A' <= c && c <= 'Z')
}

pub fn is_ascii_digit(c: char) -> (r: bool)
    ensures
        r == is_digit(c),
{
    '0' <= c && c <= '9'
}

pub fn to_lower(c: char) -> (r: char)
    ensures
        r == lower(c),
{
    if 'A' <= c && c <= 'Z' {
        let v: u32 = (c as u32) + 32;
        proof {
            assert('a' as u32 <= v <= 'z' as u32);
        }
        char_from_ascii(v)
    } else {
        c
    }
}

/// The decimal digit character of `d`.
pub open spec fn digit_char(d: nat) -> char {
    (('0' as u32) + d) as char
}

pub fn digit(d: u32) -> (r: char)
    requires
        d < 10,
    ensures
        r == digit_char(d as nat),
{
    char_from_ascii(48 + d)
}

fn char_from_ascii(v: u32) -> (r: char)
    requires
        v < 128,
    ensures
        r == v as char,
{
    (v as u8) as char
}

/// Whether two strings are equal.
pub fn str_eq(a: &str, b: &str) -> (r: bool)
    ensures
        r == (a@ == b@),
{
    let n: usize = a.unicode_len();
    if n != b.unicode_len() {
        return false;
    }
    let mut i: usize = 0;
    while i < n
        invariant
            n == a@.len(),
            n == b@.len(),
            i <= n,
            forall|j: int| 0 <= j < i ==> a@[j] == b@[j],
        decreases n - i,
    {
        if a.get_char(i) != b.get_char(i) {
            return false;
        }
        i = i + 1;
    }
    assert(a@ =~= b@);
    true
}

/// The characters of `s`.
pub fn chars_of(s: &str) -> (r: Vec<char>)
    ensures
        r@ == s@,
{
    broadcast use vstd::string::axiom_spec_iter, vstd::string::next_postcondition;

    let mut it = s.chars();
    let mut out: Vec<char> = Vec::new();
    loop
        invariant
            it.obeys_prophetic_iter_laws(),
            out@ + it.remaining() == s@,
        ensures
            out@ == s@,
        decreases s@.len() - out@.len(),
    {
        let ghost before = it.remaining();
        match it.next() {
            Some(c) => {
                out.push(c);
                assert(out@ + it.remaining() =~= s@) by {
                    assert(before =~= seq![c] + before.drop_first());
                }
            },
            None => {
                assert(out@ =~= s@);
                break;
            },
        }
    }
    out
}

/// Append one character (`String::push`).
#[verifier::external_body]
pub(crate) fn push_char(s: &mut String, c: char)
    ensures
        final(s)@ == old(s)@.push(c),
{
    s.push(c);
}

/// The string of `s[lo..hi]`.
pub fn string_of(s: &Vec<char>, lo: usize, hi: usize) -> (r: String)
    requires
        lo <= hi <= s@.len(),
    ensures
        r@ == s@.subrange(lo as int, hi as int),
{
    let mut out = String::new();
    let mut i: usize = lo;
    while i < hi
        invariant
            lo <= i <= hi <= s@.len(),
            out@ == s@.subrange(lo as int, i as int),
        decreases hi - i,
    {
        push_char(&mut out, s[i]);
        i = i + 1;
        assert(out@ =~= s@.subrange(lo as int, i as int));
    }
    out
}

proof fn lemma_lead_ws(s: Seq<char>, i: int)
    requires
        0 <= i <= s.len(),
        forall|j: int| 0 <= j < i ==> is_ws(#[trigger] s[j]),
        i == s.len() || !is_ws(s[i]),
    ensures
        lead_ws(s) == i,
    decreases i,
{
    if i > 0 {
        lemma_lead_ws(s.drop_first(), i - 1);
    }
}

proof fn lemma_trail_ws(s: Seq<char>, i: int)
    requires
        0 <= i <= s.len(),
        forall|j: int| s.len() - i <= j < s.len() ==> is_ws(#[trigger] s[j]),
        i == s.len() || !is_ws(s[s.len() - i - 1]),
    ensures
        trail_ws(s) == i,
    decreases i,
{
    if i > 0 {
        let p = s.drop_last();
        assert forall|j: int| p.len() - (i - 1) <= j < p.len() implies is_ws(#[trigger] p[j]) by {
            assert(p[j] == s[j]);
        }
        if i - 1 < p.len() {
            assert(p[p.len() - (i - 1) - 1] == s[s.len() - i - 1]);
        }
        lemma_trail_ws(p, i - 1);
    }
}

proof fn lemma_trail_alpha(s: Seq<char>, i: int)
    requires
        0 <= i <= s.len(),
        forall|j: int| s.len() - i <= j < s.len() ==> is_ascii_alpha(#[trigger] s[j]),
        i == s.len() || !is_ascii_alpha(s[s.len() - i - 1]),
    ensures
        trail_alpha(s) == i,
    decreases i,
{
    if i > 0 {
        let p = s.drop_last();
        assert forall|j: int| p.len() - (i - 1) <= j < p.len() implies is_ascii_alpha(
            #[trigger] p[j],
        ) by {
            assert(p[j] == s[j]);
        }
        if i - 1 < p.len() {
            assert(p[p.len() - (i - 1) - 1] == s[s.len() - i - 1]);
        }
        lemma_trail_alpha(p, i - 1);
    }
}

/// Bounds `(start, end)` of `trim(s[lo..hi])` within `s`.
pub fn trim_bounds(s: &Vec<char>, lo: usize, hi: usize) -> (r: (usize, usize))
    requires
        lo <= hi <= s@.len(),
    ensures
        lo <= r.0 <= r.1 <= hi,
        s@.subrange(r.0 as int, r.1 as int) == trim(s@.subrange(lo as int, hi as int)),
{
    let ghost t = s@.subrange(lo as int, hi as int);
    let mut a: usize = lo;
    while a < hi && is_whitespace(s[a])
        invariant
            lo <= a <= hi <= s@.len(),
            t == s@.subrange(lo as int, hi as int),
            forall|j: int| lo <= j < a ==> is_ws(#[trigger] s@[j]),
        decreases hi - a,
    {
        a = a + 1;
    }
    proof {
        assert forall|j: int| 0 <= j < a - lo implies is_ws(#[trigger] t[j]) by {
            assert(t[j] == s@[lo + j]);
        }
        if a < hi {
            assert(t[a - lo] == s@[a as int]);
        }
        lemma_lead_ws(t, a - lo);
    }
    let ghost r = t.skip(a - lo);
    assert(r =~= s@.subrange(a as int, hi as int));
    let mut b: usize = hi;
    while b > a && is_whitespace(s[b - 1])
        invariant
            lo <= a <= b <= hi <= s@.len(),
            forall|j: int| b <= j < hi ==> is_ws(#[trigger] s@[j]),
        decreases b - a,
    {
        b = b - 1;
    }
    proof {
        assert forall|j: int| r.len() - (hi - b) <= j < r.len() implies is_ws(#[trigger] r[j]) by {
            assert(r[j] == s@[a + j]);
        }
        if hi - b < r.len() {
            assert(r[r.len() - (hi - b) - 1] == s@[b - 1]);
        }
        lemma_trail_ws(r, hi - b);
        assert(r.take(r.len() - (hi - b)) =~= s@.subrange(a as int, b as int));
    }
    (a, b)
}

/// Start of the trailing run of ASCII letters of `s[lo..hi]`.
pub fn trailing_alpha_start(s: &Vec<char>, lo: usize, hi: usize) -> (r: usize)
    requires
        lo <= hi <= s@.len(),
    ensures
        lo <= r <= hi,
        hi - r == trail_alpha(s@.subrange(lo as int, hi as int)),
{
    let ghost t = s@.subrange(lo as int, hi as int);
    let mut b: usize = hi;
    while b > lo && is_ascii_alphabetic(s[b - 1])
        invariant
            lo <= b <= hi <= s@.len(),
            forall|j: int| b <= j < hi ==> is_ascii_alpha(#[trigger] s@[j]),
        decreases b - lo,
    {
        b = b - 1;
    }
    proof {
        assert forall|j: int| t.len() - (hi - b) <= j < t.len() implies is_ascii_alpha(
            #[trigger] t[j],
        ) by {
            assert(t[j] == s@[lo + j]);
        }
        if hi - b < t.len() {
            assert(t[t.len() - (hi - b) - 1] == s@[b - 1]);
        }
        lemma_trail_alpha(t, hi - b);
    }
    b
}

/// Whether `s[lo..hi]` holds only digits.
fn digits_only(s: &Vec<char>, lo: usize, hi: usize) -> (r: bool)
    requires
        lo <= hi <= s@.len(),
    ensures
        r == all_digits(s@.subrange(lo as int, hi as int)),
{
    let mut i: usize = lo;
    while i < hi
        invariant
            lo <= i <= hi <= s@.len(),
            forall|j: int| lo <= j < i ==> is_digit(#[trigger] s@[j]),
        decreases hi - i,
    {
        if !is_ascii_digit(s[i]) {
            assert(!is_digit(s@.subrange(lo as int, hi as int)[i - lo]));
            return false;
        }
        i = i + 1;
    }
    assert forall|j: int| 0 <= j < hi - lo implies is_digit(
        #[trigger] s@.subrange(lo as int, hi as int)[j],
    ) by {
        assert(s@.subrange(lo as int, hi as int)[j] == s@[lo + j]);
    }
    true
}

proof fn lemma_first_index_of(s: Seq<char>, c: char, i: int)
    requires
        0 <= i <= s.len(),
        forall|j: int| 0 <= j < i ==> lower(#[trigger] s[j]) != c,
        i == s.len() || lower(s[i]) == c,
    ensures
        first_index_of(s, c) == i,
    decreases i,
{
    if i > 0 {
        lemma_first_index_of(s.drop_first(), c, i - 1);
    }
}

/// `first_index_of(s[lo..hi], c) + lo`.
pub fn find_lower(s: &Vec<char>, lo: usize, hi: usize, c: char) -> (r: usize)
    requires
        lo <= hi <= s@.len(),
    ensures
        lo <= r <= hi,
        r - lo == first_index_of(s@.subrange(lo as int, hi as int), c),
{
    let mut i: usize = lo;
    while i < hi && to_lower(s[i]) != c
        invariant
            lo <= i <= hi <= s@.len(),
            forall|j: int| lo <= j < i ==> lower(#[trigger] s@[j]) != c,
        decreases hi - i,
    {
        i = i + 1;
    }
    proof {
        let t = s@.subrange(lo as int, hi as int);
        assert forall|j: int| 0 <= j < i - lo implies lower(#[trigger] t[j]) != c by {
            assert(t[j] == s@[lo + j]);
        }
        if i < hi {
            assert(t[i - lo] == s@[i as int]);
        }
        lemma_first_index_of(t, c, i - lo);
    }
    i
}

/// Whether `s[lo..hi]` is the ASCII-case-insensitive spelling of `word`
/// (`word` in lowercase).
pub fn lower_equals(s: &Vec<char>, lo: usize, hi: usize, word: &str) -> (r: bool)
    requires
        lo <= hi <= s@.len(),
    ensures
        r == (lower_seq(s@.subrange(lo as int, hi as int)) == word@),
{
    let ghost t = s@.subrange(lo as int, hi as int);
    let n: usize = word.unicode_len();
    if hi - lo != n {
        assert(lower_seq(t).len() != word@.len());
        return false;
    }
    let mut i: usize = 0;
    while i < n
        invariant
            n == word@.len(),
            hi - lo == n,
            lo <= hi <= s@.len(),
            t == s@.subrange(lo as int, hi as int),
            i <= n,
            forall|j: int| 0 <= j < i ==> lower(#[trigger] s@[lo + j]) == word@[j],
        decreases n - i,
    {
        if to_lower(s[lo + i]) != word.get_char(i) {
            assert(lower_seq(t)[i as int] != word@[i as int]);
            return false;
        }
        i = i + 1;
    }
    assert(lower_seq(t) =~= word@) by {
        assert forall|j: int| 0 <= j < n implies lower_seq(t)[j] == word@[j] by {
            assert(t[j] == s@[lo + j]);
        }
    }
    true
}

fn is_mantissa_at(s: &Vec<char>, lo: usize, hi: usize) -> (r: bool)
    requires
        lo <= hi <= s@.len(),
    ensures
        r == is_mantissa(s@.subrange(lo as int, hi as int)),
{
    let ghost m = s@.subrange(lo as int, hi as int);
    let d: usize = find_lower(s, lo, hi, '.');
    if d == hi {
        hi > lo && digits_only(s, lo, hi)
    } else {
        assert(m.take(d - lo) =~= s@.subrange(lo as int, d as int));
        assert(m.skip(d - lo + 1) =~= s@.subrange(d + 1, hi as int));
        digits_only(s, lo, d) && digits_only(s, d + 1, hi) && (d > lo || hi - d - 1 > 0)
    }
}

fn is_exponent_at(s: &Vec<char>, lo: usize, hi: usize) -> (r: bool)
    requires
        lo <= hi <= s@.len(),
    ensures
        r == is_exponent(s@.subrange(lo as int, hi as int)),
{
    let ghost x = s@.subrange(lo as int, hi as int);
    if hi - lo < 2 {
        return false;
    }
    assert(x[0] == s@[lo as int]);
    assert(x[1] == s@[lo + 1]);
    if to_lower(s[lo]) != 'e' {
        return false;
    }
    let start: usize = if s[lo + 1] == '+' || s[lo + 1] == '-' {
        lo + 2
    } else {
        lo + 1
    };
    assert(x.skip(start - lo) =~= s@.subrange(start as int, hi as int));
    start < hi && digits_only(s, start, hi)
}

/// Whether `s[lo..hi]` is a floating-point literal (see
/// [`is_float_literal`]).
pub fn float_literal_at(s: &Vec<char>, lo: usize, hi: usize) -> (r: bool)
    requires
        lo <= hi <= s@.len(),
    ensures
        r == is_float_literal(s@.subrange(lo as int, hi as int)),
{
    let ghost t = s@.subrange(lo as int, hi as int);
    let start: usize = if hi > lo && (s[lo] == '+' || s[lo] == '-') {
        lo + 1
    } else {
        lo
    };
    proof {
        if hi > lo {
            assert(t[0] == s@[lo as int]);
        }
    }
    let ghost r = s@.subrange(start as int, hi as int);
    assert(r =~= (if t.len() > 0 && (t[0] == '+' || t[0] == '-') {
        t.drop_first()
    } else {
        t
    }));
    if lower_equals(s, start, hi, "inf") || lower_equals(s, start, hi, "infinity")
        || lower_equals(s, start, hi, "nan") {
        return true;
    }
    let k: usize = find_lower(s, start, hi, 'e');
    assert(r.take(k - start) =~= s@.subrange(start as int, k as int));
    assert(r.skip(k - start) =~= s@.subrange(k as int, hi as int));
    is_mantissa_at(s, start, k) && (k == hi || is_exponent_at(s, k, hi))
}

/// `str::parse::<usize>` on `s[lo..hi]`.
pub fn parse_usize_at(s: &Vec<char>, lo: usize, hi: usize) -> (r: Option<usize>)
    requires
        lo <= hi <= s@.len(),
    ensures
        r == parse_usize_spec(s@.subrange(lo as int, hi as int)),
{
    let ghost t = s@.subrange(lo as int, hi as int);
    let start: usize = if hi > lo && s[lo] == '+' {
        lo + 1
    } else {
        lo
    };
    proof {
        if hi > lo {
            assert(t[0] == s@[lo as int]);
        }
    }
    let ghost u = s@.subrange(start as int, hi as int);
    assert(u =~= unsigned_digits(t));
    if start == hi {
        return None;
    }
    let mut v: usize = 0;
    let mut i: usize = start;
    while i < hi
        invariant
            lo <= start <= i <= hi <= s@.len(),
            u == s@.subrange(start as int, hi as int),
            t == s@.subrange(lo as int, hi as int),
            u == unsigned_digits(t),
            all_digits(s@.subrange(start as int, i as int)),
            v as nat == digits_value(s@.subrange(start as int, i as int)),
        decreases hi - i,
    {
        let c = s[i];
        let ghost p = s@.subrange(start as int, i + 1);
        assert(p.drop_last() =~= s@.subrange(start as int, i as int));
        if !is_ascii_digit(c) {
            assert(!all_digits(u)) by {
                assert(u[i - start] == c);
            }
            return None;
        }
        let d: usize = ((c as u32) - ('0' as u32)) as usize;
        if v > (usize::MAX - d) / 10 {
            proof {
                lemma_digits_monotone(u, i - start + 1);
                assert(u.take(i - start + 1) =~= p);
                assert(digits_value(p) == v * 10 + d);
                assert(v * 10 + d > usize::MAX) by (nonlinear_arith)
                    requires
                        v > (usize::MAX - d) / 10,
                        d <= 9,
                ;
            }
            return None;
        }
        assert(v * 10 + d <= usize::MAX) by (nonlinear_arith)
            requires
                v <= (usize::MAX - d) / 10,
                d <= 9,
        ;
        v = v * 10 + d;
        i = i + 1;
        assert forall|j: int| 0 <= j < p.len() implies is_digit(#[trigger] p[j]) by {
            if j < p.len() - 1 {
                assert(p[j] == p.drop_last()[j]);
            }
        }
    }
    Some(v)
}

/// A prefix of an all-digits literal never has a larger value.
proof fn lemma_digits_monotone(u: Seq<char>, k: int)
    requires
        0 <= k <= u.len(),
        all_digits(u.take(k)),
    ensures
        all_digits(u) ==> digits_value(u.take(k)) <= digits_value(u),
    decreases u.len() - k,
{
    if k == u.len() {
        assert(u.take(k) =~= u);
    }
    if k < u.len() && all_digits(u) {
        assert(u.take(k + 1).drop_last() =~= u.take(k));
        assert(all_digits(u.take(k + 1)));
        lemma_digits_monotone(u, k + 1);
        let a = digits_value(u.take(k));
        let d = ((u[k] as u32) - ('0' as u32)) as nat;
        assert(u.take(k + 1).last() == u[k]);
        assert(digits_value(u.take(k + 1)) == a * 10 + d);
        assert(a * 10 + d >= a) by (nonlinear_arith);
        if k + 1 == u.len() {
            assert(u.take(k + 1) =~= u);
        }
    }
}

} // verus!
