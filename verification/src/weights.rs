//! Weight-specifier parsing.
//!
//! A choice's literal segment may end in `:<number>`, giving the choice a
//! selection weight. The separator is the *last* colon of the segment, so
//! literal text may itself contain colons. Weights are non-negative decimal
//! numbers with at most twelve integer digits and at most six fractional
//! digits; they are stored in fixed point, scaled by one million, so the
//! default weight `1` is stored as [`WEIGHT_ONE`].

use vstd::prelude::*;

verus! {

/// The fixed-point representation of the default weight `1`.
pub const WEIGHT_ONE: u64 = 1_000_000;

/// Why a weight specifier was rejected.
#[derive(Clone, Copy, Debug, PartialEq, Eq, Structural)]
pub enum WeightErrorCause {
    /// The text after the final colon is not a decimal number.
    NotANumber,
    /// The text after the final colon is a number, but a negative one.
    NegativeWeight,
}

/// A rejected weight specifier: the offending text after the colon, the
/// character offset of that text relative to the start of the enclosing
/// segment, and the reason.
#[derive(Clone, Debug, PartialEq)]
pub struct ParseWeightError {
    pub specifier: String,
    pub index: usize,
    pub cause: WeightErrorCause,
}

/// What parsing a segment's weight specifier yields: either the literal text
/// with its weight, or a description of the malformed specifier.
pub ghost enum WeightParse {
    Parsed { text: Seq<char>, weight: int },
    Invalid { index: int, specifier: Seq<char>, cause: WeightErrorCause },
}

pub open spec fn is_digit(c: char) -> bool {
    48 <= c as u32 <= 57
}

pub open spec fn digit_val(c: char) -> int {
    c as u32 - 48
}

pub open spec fn all_digits(s: Seq<char>) -> bool {
    forall|i: int| 0 <= i < s.len() ==> is_digit(#[trigger] s[i])
}

/// The value of a run of decimal digits, most significant first.
pub open spec fn digits_val(s: Seq<char>) -> int
    decreases s.len(),
{
    if s.len() == 0 {
        0
    } else {
        digits_val(s.drop_last()) * 10 + digit_val(s.last())
    }
}

pub open spec fn pow10(n: nat) -> int
    decreases n,
{
    if n == 0 {
        1
    } else {
        10 * pow10((n - 1) as nat)
    }
}

/// The index of the last colon in `s`, or `-1` if there is none.
pub open spec fn last_colon(s: Seq<char>) -> int
    decreases s.len(),
{
    if s.len() == 0 {
        -1
    } else if s.last() == ':' {
        s.len() - 1
    } else {
        last_colon(s.drop_last())
    }
}

/// A sequence without a colon has no last colon.
pub proof fn lemma_last_colon_none(s: Seq<char>)
    requires
        forall|j: int| 0 <= j < s.len() ==> (#[trigger] s[j]) != ':',
    ensures
        last_colon(s) == -1,
    decreases s.len(),
{
    if s.len() > 0 {
        assert(forall|j: int| 0 <= j < s.drop_last().len() ==> s.drop_last()[j] == s[j]);
        lemma_last_colon_none(s.drop_last());
    }
}

/// The last colon's index is always inside the sequence.
pub proof fn lemma_last_colon_bounds(s: Seq<char>)
    ensures
        -1 <= last_colon(s) < s.len(),
    decreases s.len(),
{
    if s.len() > 0 && s.last() != ':' {
        lemma_last_colon_bounds(s.drop_last());
    }
}

/// The index of the first dot in `s`, or `s.len()` if there is none.
pub open spec fn first_dot(s: Seq<char>) -> int
    decreases s.len(),
{
    if s.len() == 0 {
        0
    } else if s[0] == '.' {
        0
    } else {
        1 + first_dot(s.drop_first())
    }
}

/// The digits of `b` before its first dot.
pub open spec fn int_part(b: Seq<char>) -> Seq<char> {
    b.take(first_dot(b))
}

/// The digits of `b` after its first dot; empty if there is no dot.
pub open spec fn frac_part(b: Seq<char>) -> Seq<char> {
    if first_dot(b) < b.len() {
        b.skip(first_dot(b) + 1)
    } else {
        Seq::empty()
    }
}

/// Whether `b` (with any sign already stripped) is a well-formed decimal
/// magnitude: digits around at most one dot, at least one digit in all, at
/// most twelve integer digits and at most six fractional digits.
pub open spec fn magnitude_ok(b: Seq<char>) -> bool {
    &&& all_digits(int_part(b))
    &&& all_digits(frac_part(b))
    &&& int_part(b).len() <= 12
    &&& frac_part(b).len() <= 6
    &&& int_part(b).len() + frac_part(b).len() >= 1
}

/// The fixed-point value of a well-formed magnitude, scaled by one million.
pub open spec fn magnitude_value(b: Seq<char>) -> int {
    digits_val(int_part(b)) * 1_000_000 + digits_val(frac_part(b)) * pow10(
        (6 - frac_part(b).len()) as nat,
    )
}

/// `s` with one leading minus sign stripped, if present.
pub open spec fn weight_body(s: Seq<char>) -> Seq<char> {
    if s.len() > 0 && s[0] == '-' {
        s.drop_first()
    } else {
        s
    }
}

/// Whether `s` is a well-formed (possibly signed) weight number.
pub open spec fn is_weight_number(s: Seq<char>) -> bool {
    s.len() > 0 && magnitude_ok(weight_body(s))
}

/// Whether `s` is a well-formed weight number that denotes a negative value.
/// A minus sign in front of a zero magnitude does not make the value
/// negative.
pub open spec fn is_negative_weight(s: Seq<char>) -> bool {
    is_weight_number(s) && s[0] == '-' && magnitude_value(weight_body(s)) > 0
}

/// The fixed-point value of a well-formed, non-negative weight number.
pub open spec fn weight_value(s: Seq<char>) -> int {
    magnitude_value(weight_body(s))
}

/// What parsing the weight specifier of the segment `seg` yields.
///
/// With no colon in the segment the whole segment is literal text with the
/// default weight. Otherwise the text after the last colon must be a
/// non-negative number, which becomes the weight of the text before the
/// colon. A negative number is always an error; text that is not a number is
/// an error unless `tolerant` is set, in which case the whole segment
/// (colon included) is literal text with the default weight.
pub open spec fn weight_parse(seg: Seq<char>, tolerant: bool) -> WeightParse {
    let k = last_colon(seg);
    if k < 0 {
        WeightParse::Parsed { text: seg, weight: WEIGHT_ONE as int }
    } else {
        let suffix = seg.skip(k + 1);
        if is_weight_number(suffix) {
            if is_negative_weight(suffix) {
                WeightParse::Invalid {
                    index: k + 1,
                    specifier: suffix,
                    cause: WeightErrorCause::NegativeWeight,
                }
            } else {
                WeightParse::Parsed { text: seg.take(k), weight: weight_value(suffix) }
            }
        } else if tolerant {
            WeightParse::Parsed { text: seg, weight: WEIGHT_ONE as int }
        } else {
            WeightParse::Invalid {
                index: k + 1,
                specifier: suffix,
                cause: WeightErrorCause::NotANumber,
            }
        }
    }
}

proof fn lemma_pow10_bounds()
    ensures
        pow10(6) == 1_000_000,
        pow10(12) == 1_000_000_000_000,
{
    reveal_with_fuel(pow10, 13);
}

/// Exec lookup of a small power of ten.
fn pow10_exec(n: usize) -> (r: u64)
    requires
        n <= 6,
    ensures
        r == pow10(n as nat),
{
    let table: [u64; 7] = [1, 10, 100, 1_000, 10_000, 100_000, 1_000_000];
    proof {
        reveal_with_fuel(pow10, 7);
    }
    table[n]
}

/// Finds the last colon of `seg`, if any.
fn find_last_colon(seg: &Vec<char>) -> (r: Option<usize>)
    ensures
        match r {
            Some(k) => last_colon(seg@) == k as int && k < seg@.len(),
            None => last_colon(seg@) == -1,
        },
{
    let mut j: usize = seg.len();
    proof {
        assert(seg@.take(j as int) =~= seg@);
    }
    while j > 0
        invariant
            j <= seg@.len(),
            last_colon(seg@) == last_colon(seg@.take(j as int)),
        decreases j,
    {
        if seg[j - 1] == ':' {
            assert(seg@.take(j as int).last() == seg@[j - 1]);
            return Some(j - 1);
        }
        proof {
            assert(seg@.take(j as int).drop_last() =~= seg@.take(j - 1));
        }
        j -= 1;
    }
    assert(seg@.take(0) =~= Seq::<char>::empty());
    None
}

/// Copies the characters of `v` in the index range `[from, to)`.
fn subvec(v: &Vec<char>, from: usize, to: usize) -> (r: Vec<char>)
    requires
        from <= to <= v@.len(),
    ensures
        r@ == v@.subrange(from as int, to as int),
{
    let mut r: Vec<char> = Vec::new();
    let mut i: usize = from;
    while i < to
        invariant
            from <= i <= to <= v@.len(),
            r@ == v@.subrange(from as int, i as int),
        decreases to - i,
    {
        r.push(v[i]);
        proof {
            assert(v@.subrange(from as int, i as int).push(v@[i as int]) =~= v@.subrange(
                from as int,
                i + 1,
            ));
        }
        i += 1;
    }
    r
}

proof fn lemma_first_dot_at(b: Seq<char>, d: int)
    requires
        0 <= d <= b.len(),
        forall|m: int| 0 <= m < d ==> b[m] != '.',
        d < b.len() ==> b[d] == '.',
    ensures
        first_dot(b) == d,
    decreases d,
{
    if b.len() == 0 {
    } else if d == 0 {
    } else {
        assert(b[0] != '.');
        lemma_first_dot_at(b.drop_first(), d - 1);
    }
}

/// Reads the digits of `v` in `[from, to)` as a decimal value.
fn digits_to_u64(v: &Vec<char>, from: usize, to: usize) -> (r: u64)
    requires
        from <= to <= v@.len(),
        to - from <= 12,
        all_digits(v@.subrange(from as int, to as int)),
    ensures
        r == digits_val(v@.subrange(from as int, to as int)),
        r < pow10((to - from) as nat),
{
    proof {
        lemma_pow10_bounds();
    }
    let mut acc: u64 = 0;
    let mut i: usize = from;
    while i < to
        invariant
            from <= i <= to <= v@.len(),
            to - from <= 12,
            all_digits(v@.subrange(from as int, to as int)),
            acc == digits_val(v@.subrange(from as int, i as int)),
            acc < pow10((i - from) as nat),
            pow10(12) == 1_000_000_000_000,
        decreases to - i,
    {
        let c = v[i];
        assert(v@.subrange(from as int, to as int)[i - from] == c);
        assert(is_digit(c));
        let d: u64 = (c as u32 - 48) as u64;
        proof {
            lemma_pow10_mono((i - from) as nat, 11);
            assert(pow10(11) * 10 == pow10(12));
        }
        acc = acc * 10 + d;
        proof {
            assert(v@.subrange(from as int, i + 1).drop_last() =~= v@.subrange(
                from as int,
                i as int,
            ));
            assert(v@.subrange(from as int, i + 1).last() == c);
        }
        i += 1;
    }
    acc
}

proof fn lemma_pow10_mono(a: nat, b: nat)
    requires
        a <= b,
    ensures
        pow10(a) <= pow10(b),
        pow10(a) >= 1,
    decreases b,
{
    if a < b {
        lemma_pow10_mono(a, (b - 1) as nat);
    } else if b > 0 {
        lemma_pow10_mono((a - 1) as nat, (b - 1) as nat);
    }
}

proof fn lemma_pow10_adds(a: nat, b: nat)
    ensures
        pow10(a) * pow10(b) == pow10(a + b),
    decreases a,
{
    if a > 0 {
        lemma_pow10_adds((a - 1) as nat, b);
        assert(pow10(a) * pow10(b) == 10 * (pow10((a - 1) as nat) * pow10(b)))
            by (nonlinear_arith)
            requires
                pow10(a) == 10 * pow10((a - 1) as nat),
        ;
    }
}

/// Checks that every character of `v` in `[from, to)` is a decimal digit.
fn check_all_digits(v: &Vec<char>, from: usize, to: usize) -> (r: bool)
    requires
        from <= to <= v@.len(),
    ensures
        r == all_digits(v@.subrange(from as int, to as int)),
{
    let mut i: usize = from;
    while i < to
        invariant
            from <= i <= to <= v@.len(),
            forall|m: int| from <= m < i ==> is_digit(#[trigger] v@[m]),
        decreases to - i,
    {
        let c = v[i];
        let u = c as u32;
        if u < 48 || u > 57 {
            assert(v@.subrange(from as int, to as int)[i - from] == c);
            return false;
        }
        i += 1;
    }
    assert forall|m: int| 0 <= m < to - from implies is_digit(
        #[trigger] v@.subrange(from as int, to as int)[m],
    ) by {
        assert(v@.subrange(from as int, to as int)[m] == v@[from + m]);
    }
    true
}

/// Parses `s` as a (possibly signed) weight number, returning the sign and
/// the fixed-point magnitude, or `None` where `s` is not a number.
fn parse_weight_number(s: &Vec<char>) -> (r: Option<(bool, u64)>)
    ensures
        r is Some <==> is_weight_number(s@),
        r matches Some(p) ==> {
            &&& p.1 == weight_value(s@)
            &&& (p.0 <==> (s@.len() > 0 && s@[0] == '-'))
        },
{
    proof {
        lemma_pow10_bounds();
    }
    if s.len() == 0 {
        return None;
    }
    let neg = s[0] == '-';
    let start: usize = if neg {
        1
    } else {
        0
    };
    let ghost body = weight_body(s@);
    proof {
        assert(body =~= s@.subrange(start as int, s@.len() as int));
    }
    // Locate the first dot of the body, if any.
    let n = s.len();
    let mut i: usize = start;
    while i < n && s[i] != '.'
        invariant
            start <= i <= n == s@.len(),
            forall|m: int| start <= m < i ==> s@[m] != '.',
        decreases n - i,
    {
        i += 1;
    }
    // i is the absolute index of the first dot, or n if there is none.
    let dot = i;
    assert(dot == n || s@[dot as int] == '.');
    proof {
        assert forall|m: int| 0 <= m < dot - start implies body[m] != '.' by {
            assert(body[m] == s@[start + m]);
        }
        if dot < n {
            assert(body[dot - start] == s@[dot as int]);
        }
        lemma_first_dot_at(body, dot - start);
        assert(int_part(body) =~= s@.subrange(start as int, dot as int));
        if dot < n {
            assert(frac_part(body) =~= s@.subrange(dot + 1, n as int));
        } else {
            assert(frac_part(body) =~= Seq::<char>::empty());
        }
    }
    let int_len = dot - start;
    let frac_from = if dot < n {
        dot + 1
    } else {
        n
    };
    let frac_len = n - frac_from;
    proof {
        if dot >= n {
            assert(s@.subrange(n as int, n as int) =~= Seq::<char>::empty());
        }
    }
    if int_len > 12 || frac_len > 6 || int_len + frac_len == 0 {
        return None;
    }
    if !check_all_digits(s, start, dot) {
        return None;
    }
    if !check_all_digits(s, frac_from, n) {
        return None;
    }
    let int_val = digits_to_u64(s, start, dot);
    let frac_val = digits_to_u64(s, frac_from, n);
    let scale = pow10_exec(6 - frac_len);
    proof {
        lemma_pow10_mono((int_len) as nat, 12);
        lemma_pow10_mono(0, (6 - frac_len) as nat);
        lemma_pow10_adds(frac_len as nat, (6 - frac_len) as nat);
        assert(frac_val * scale <= (pow10(frac_len as nat) - 1) * pow10((6 - frac_len) as nat))
            by (nonlinear_arith)
            requires
                frac_val < pow10(frac_len as nat),
                scale == pow10((6 - frac_len) as nat),
                scale >= 1,
        ;
        assert((pow10(frac_len as nat) - 1) * pow10((6 - frac_len) as nat) == pow10(6) - pow10(
            (6 - frac_len) as nat,
        )) by (nonlinear_arith)
            requires
                pow10(frac_len as nat) * pow10((6 - frac_len) as nat) == pow10(6),
        ;
    }
    let w = int_val * 1_000_000 + frac_val * scale;
    Some((neg, w))
}

/// Parses the optional trailing weight specifier of the segment `seg`,
/// returning the remaining literal text and the fixed-point weight, exactly
/// as [`weight_parse`] describes.
pub fn parse_weight(seg: Vec<char>, tolerant: bool) -> (r: Result<
    (Vec<char>, u64),
    ParseWeightError,
>)
    ensures
        ({
            let wp = weight_parse(seg@, tolerant);
            match r {
                Ok(p) => wp matches WeightParse::Parsed { text, weight } && p.0@ == text && p.1
                    == weight,
                Err(e) => wp matches WeightParse::Invalid { index, specifier, cause } && e.index
                    == index && e.specifier@ == specifier && e.cause == cause,
            }
        }),
{
    match find_last_colon(&seg) {
        None => Ok((seg, WEIGHT_ONE)),
        Some(k) => {
            let seg_len = seg.len();
            let suffix = subvec(&seg, k + 1, seg_len);
            proof {
                assert(suffix@ =~= seg@.skip(k + 1));
            }
            match parse_weight_number(&suffix) {
                Some((neg, w)) => {
                    if neg && w > 0 {
                        Err(
                            ParseWeightError {
                                specifier: chars_to_string(&suffix),
                                index: k + 1,
                                cause: WeightErrorCause::NegativeWeight,
                            },
                        )
                    } else {
                        let text = subvec(&seg, 0, k);
                        proof {
                            assert(text@ =~= seg@.take(k as int));
                        }
                        Ok((text, w))
                    }
                },
                None => {
                    if tolerant {
                        Ok((seg, WEIGHT_ONE))
                    } else {
                        Err(
                            ParseWeightError {
                                specifier: chars_to_string(&suffix),
                                index: k + 1,
                                cause: WeightErrorCause::NotANumber,
                            },
                        )
                    }
                },
            }
        },
    }
}

/// Builds a `String` from a sequence of characters.
pub fn chars_to_string(v: &Vec<char>) -> (s: String)
    ensures
        s@ == v@,
{
    let mut s = String::new();
    let mut i: usize = 0;
    while i < v.len()
        invariant
            i <= v@.len(),
            s@ == v@.take(i as int),
        decreases v@.len() - i,
    {
        crate::trusted::push_char(&mut s, v[i]);
        proof {
            assert(v@.take(i as int).push(v@[i as int]) =~= v@.take(i + 1));
        }
        i += 1;
    }
    proof {
        assert(v@.take(v@.len() as int) =~= v@);
    }
    s
}

} // verus!
