use vstd::prelude::*;

verus! {

/// Whether `c` has Unicode's `White_Space` property: the 25 code points U+0009 to
/// U+000D, U+0020, U+0085, U+00A0, U+1680, U+2000 to U+200A, U+2028, U+2029, U+202F,
/// U+205F and U+3000.
pub open spec fn unicode_whitespace(c: char) -> bool {
    let u = c as u32;
    ||| 0x09 <= u <= 0x0d
    ||| u == 0x20
    ||| u == 0x85
    ||| u == 0xa0
    ||| u == 0x1680
    ||| 0x2000 <= u <= 0x200a
    ||| u == 0x2028
    ||| u == 0x2029
    ||| u == 0x202f
    ||| u == 0x205f
    ||| u == 0x3000
}

/// Whether some character of `s` is not whitespace.
pub open spec fn non_blank(s: Seq<char>) -> bool {
    exists|i: int| 0 <= i < s.len() && !unicode_whitespace(#[trigger] s[i])
}

/// Separators: the brackets `[` and `]` when `brackets` holds, the space otherwise.
pub open spec fn is_sep(c: char, brackets: bool) -> bool {
    if brackets {
        c == '[' || c == ']'
    } else {
        c == ' '
    }
}

/// The pieces of `s` between separators, empty pieces included; always at least one.
pub open spec fn pieces(s: Seq<char>, brackets: bool) -> Seq<Seq<char>>
    decreases s.len(),
{
    if s.len() == 0 {
        seq![Seq::empty()]
    } else {
        let p = pieces(s.drop_last(), brackets);
        if is_sep(s.last(), brackets) {
            p.push(Seq::empty())
        } else {
            p.update(p.len() - 1, p.last().push(s.last()))
        }
    }
}

/// `s` without its leading run of `c`.
pub open spec fn strip_front(s: Seq<char>, c: char) -> Seq<char>
    decreases s.len(),
{
    if s.len() > 0 && s[0] == c {
        strip_front(s.drop_first(), c)
    } else {
        s
    }
}

/// `s` without its trailing run of `c`.
pub open spec fn strip_back(s: Seq<char>, c: char) -> Seq<char>
    decreases s.len(),
{
    if s.len() > 0 && s.last() == c {
        strip_back(s.drop_last(), c)
    } else {
        s
    }
}

/// `s` without its leading run of `lead` and then its trailing run of `trail`.
pub open spec fn trim_pair(s: Seq<char>, lead: char, trail: char) -> Seq<char> {
    strip_back(strip_front(s, lead), trail)
}

/// `s` without its leading and trailing runs of `c`.
pub open spec fn trim_char(s: Seq<char>, c: char) -> Seq<char> {
    trim_pair(s, c, c)
}

/// The space-separated tokens of a bracketed group: surrounding `[` and `]` removed, then
/// split at every space (empty tokens included).
pub open spec fn group_tokens(s: Seq<char>) -> Seq<Seq<char>> {
    pieces(trim_char(trim_char(s, '['), ']'), false)
}

pub open spec fn is_digit(c: char) -> bool {
    '0' <= c <= '9'
}

/// A non-empty run of ASCII decimal digits.
pub open spec fn all_digits(s: Seq<char>) -> bool {
    s.len() > 0 && forall|i: int| 0 <= i < s.len() ==> is_digit(#[trigger] s[i])
}

/// An unsigned decimal number without exponent: digits, optionally a point and more
/// digits (`[0-9]+(\.[0-9]+)?`).
pub open spec fn unsigned_decimal(d: Seq<char>) -> bool {
    &&& d.len() > 0
    &&& is_digit(d[0])
    &&& is_digit(d.last())
    &&& forall|i: int| 0 <= i < d.len() ==> is_digit(#[trigger] d[i]) || d[i] == '.'
    &&& forall|i: int, j: int|
        #![trigger d[i], d[j]]
        0 <= i < j < d.len() && d[i] == '.' ==> d[j] != '.'
}

/// A plain decimal literal, `-?[0-9]+(\.[0-9]+)?`: no exponent, no `NaN`, no `inf`.
pub open spec fn plain_decimal(s: Seq<char>) -> bool {
    if s.len() > 0 && s[0] == '-' {
        unsigned_decimal(s.drop_first())
    } else {
        unsigned_decimal(s)
    }
}

/// An exponent marker, `e` or `E`.
pub open spec fn is_exp_mark(c: char) -> bool {
    c == 'e' || c == 'E'
}

/// Position of the first exponent marker of `b`, or its length where there is none.
pub open spec fn exp_index(b: Seq<char>) -> int
    decreases b.len(),
{
    if b.len() == 0 || is_exp_mark(b[0]) {
        0
    } else {
        1 + exp_index(b.drop_first())
    }
}

/// Digits with at most one point, and at least one digit: `5`, `5.`, `.5`, `5.25`.
pub open spec fn mantissa_text(m: Seq<char>) -> bool {
    &&& forall|i: int| 0 <= i < m.len() ==> is_digit(#[trigger] m[i]) || m[i] == '.'
    &&& forall|i: int, j: int|
        #![trigger m[i], m[j]]
        0 <= i < j < m.len() && m[i] == '.' ==> m[j] != '.'
    &&& exists|i: int| 0 <= i < m.len() && is_digit(#[trigger] m[i])
}

/// What follows an exponent marker: an optional sign and then digits.
pub open spec fn exponent_text(x: Seq<char>) -> bool {
    if x.len() > 0 && (x[0] == '+' || x[0] == '-') {
        all_digits(x.drop_first())
    } else {
        all_digits(x)
    }
}

/// `b` spells `word` in any case, given the word in lower and in upper case.
pub open spec fn spells(b: Seq<char>, lower: Seq<char>, upper: Seq<char>) -> bool {
    &&& b.len() == lower.len()
    &&& forall|i: int| 0 <= i < b.len() ==> #[trigger] b[i] == lower[i] || b[i] == upper[i]
}

/// A float literal without its sign: `inf`, `infinity` or `nan` in any case, or a
/// mantissa with an optional exponent.
pub open spec fn unsigned_float_text(b: Seq<char>) -> bool {
    ||| spells(b, seq!['i', 'n', 'f'], seq!['I', 'N', 'F'])
    ||| spells(
        b,
        seq!['i', 'n', 'f', 'i', 'n', 'i', 't', 'y'],
        seq!['I', 'N', 'F', 'I', 'N', 'I', 'T', 'Y'],
    )
    ||| spells(b, seq!['n', 'a', 'n'], seq!['N', 'A', 'N'])
    ||| {
        let p = exp_index(b);
        &&& mantissa_text(b.take(p))
        &&& (p == b.len() || exponent_text(b.skip(p + 1)))
    }
}

/// The text of a float literal as `f64`'s `FromStr` documents its grammar: an optional
/// sign, then `inf`, `infinity` or `nan` in any case, or digits with at most one point
/// and at least one digit, followed by an optional exponent `e` or `E`, an optional
/// sign and digits.
pub open spec fn float_text(s: Seq<char>) -> bool {
    if s.len() > 0 && (s[0] == '+' || s[0] == '-') {
        unsigned_float_text(s.drop_first())
    } else {
        unsigned_float_text(s)
    }
}

/// Value of a run of decimal digits.
pub open spec fn digits_value(s: Seq<char>) -> nat
    decreases s.len(),
{
    if s.len() == 0 {
        0
    } else {
        digits_value(s.drop_last()) * 10 + (s.last() as nat - '0' as nat) as nat
    }
}

/// Value of an unsigned decimal literal: an optional `+` and then digits.
pub open spec fn unsigned_value(s: Seq<char>) -> Option<int> {
    let d = if s.len() > 0 && s[0] == '+' {
        s.drop_first()
    } else {
        s
    };
    if all_digits(d) {
        Some(digits_value(d) as int)
    } else {
        None
    }
}

/// Value of a signed decimal literal: an optional `+` or `-` and then digits.
pub open spec fn signed_value(s: Seq<char>) -> Option<int> {
    if s.len() > 0 && s[0] == '-' {
        if all_digits(s.drop_first()) {
            Some(-(digits_value(s.drop_first()) as int))
        } else {
            None
        }
    } else {
        unsigned_value(s)
    }
}

/// Decimal text of `v`, without sign or leading zeros.
pub open spec fn decimal_text(v: nat) -> Seq<char>
    decreases v,
{
    if v < 10 {
        seq![(v + '0' as nat) as char]
    } else {
        decimal_text(v / 10).push(((v % 10) + '0' as nat) as char)
    }
}

/// Relies on `str::chars`: the characters of `s` in order.
#[verifier::external_body]
pub(crate) fn chars_of(s: &str) -> (r: Vec<char>)
    ensures
        r@ == s@,
{
    s.chars().collect()
}

/// Relies on `String`'s `FromIterator<char>`: a string of exactly these characters.
#[verifier::external_body]
pub(crate) fn text_of(cs: &[char]) -> (r: String)
    ensures
        r@ == cs@,
{
    cs.iter().collect()
}

/// Whether `c` is whitespace in Unicode's sense.
pub(crate) fn is_whitespace(c: char) -> (r: bool)
    ensures
        r == unicode_whitespace(c),
{
    let u = c as u32;
    (0x09 <= u && u <= 0x0d) || u == 0x20 || u == 0x85 || u == 0xa0 || u == 0x1680 || (0x2000
        <= u && u <= 0x200a) || u == 0x2028 || u == 0x2029 || u == 0x202f || u == 0x205f || u
        == 0x3000
}

/// A run of digits is worth at least any of its prefixes.
proof fn lemma_digits_prefix(s: Seq<char>, k: int)
    requires
        0 <= k <= s.len(),
    ensures
        digits_value(s) >= digits_value(s.take(k)),
    decreases s.len(),
{
    if k < s.len() {
        assert(s.drop_last().take(k) == s.take(k));
        lemma_digits_prefix(s.drop_last(), k);
    } else {
        assert(s.take(k) == s);
    }
}

/// Value of the characters of `cs` from `start` on, where they are a non-empty run of
/// digits worth at most `limit`.
fn digits_upto(cs: &Vec<char>, start: usize, limit: u128) -> (r: Option<u128>)
    requires
        start <= cs.len(),
        limit <= u64::MAX,
    ensures
        r == (if all_digits(cs@.subrange(start as int, cs@.len() as int)) && digits_value(
            cs@.subrange(start as int, cs@.len() as int),
        ) <= limit {
            Some(digits_value(cs@.subrange(start as int, cs@.len() as int)) as u128)
        } else {
            None::<u128>
        }),
{
    let ghost d = cs@.subrange(start as int, cs@.len() as int);
    if start == cs.len() {
        return None;
    }
    let mut v: u128 = 0;
    let mut j: usize = start;
    proof {
        assert(cs@.subrange(start as int, start as int) =~= Seq::<char>::empty());
    }
    while j < cs.len()
        invariant
            start <= j <= cs.len(),
            limit <= u64::MAX,
            d == cs@.subrange(start as int, cs@.len() as int),
            v <= limit,
            v == digits_value(cs@.subrange(start as int, j as int)),
            forall|k: int| start <= k < j ==> is_digit(#[trigger] cs@[k]),
        decreases cs.len() - j,
    {
        let c = cs[j];
        proof {
            assert(d[j - start] == c);
        }
        if !('0' <= c && c <= '9') {
            return None;
        }
        proof {
            let p = cs@.subrange(start as int, j + 1);
            assert(p.drop_last() == cs@.subrange(start as int, j as int));
            assert(p.last() == c);
        }
        v = v * 10 + (c as u32 - '0' as u32) as u128;
        if v > limit {
            proof {
                assert(d.take(j + 1 - start) == cs@.subrange(start as int, j + 1));
                lemma_digits_prefix(d, j + 1 - start);
            }
            return None;
        }
        j = j + 1;
    }
    proof {
        assert(cs@.subrange(start as int, j as int) == d);
    }
    Some(v)
}

/// An optional `+` and decimal digits whose value fits, as `usize`'s `FromStr` reads it.
pub(crate) fn parse_usize(s: &str) -> (r: Option<usize>)
    ensures
        r == (match unsigned_value(s@) {
            Some(v) => if v <= usize::MAX { Some(v as usize) } else { None },
            None => None,
        }),
{
    let cs = chars_of(s);
    let start: usize = if cs.len() > 0 && cs[0] == '+' { 1 } else { 0 };
    proof {
        if start == 1 {
            assert(cs@.subrange(1, cs@.len() as int) == s@.drop_first());
        } else {
            assert(cs@.subrange(0, cs@.len() as int) == s@);
        }
    }
    match digits_upto(&cs, start, usize::MAX as u128) {
        Some(v) => Some(v as usize),
        None => None,
    }
}

/// An optional sign and decimal digits whose value fits, as `i32`'s `FromStr` reads it.
pub(crate) fn parse_i32(s: &str) -> (r: Option<i32>)
    ensures
        r == (match signed_value(s@) {
            Some(v) => if i32::MIN <= v <= i32::MAX { Some(v as i32) } else { None },
            None => None,
        }),
{
    let cs = chars_of(s);
    if cs.len() > 0 && cs[0] == '-' {
        proof {
            assert(cs@.subrange(1, cs@.len() as int) == s@.drop_first());
        }
        match digits_upto(&cs, 1, 0x8000_0000) {
            Some(v) => Some((0 - v as i64) as i32),
            None => None,
        }
    } else {
        let start: usize = if cs.len() > 0 && cs[0] == '+' { 1 } else { 0 };
        proof {
            if start == 1 {
                assert(cs@.subrange(1, cs@.len() as int) == s@.drop_first());
            } else {
                assert(cs@.subrange(0, cs@.len() as int) == s@);
            }
        }
        match digits_upto(&cs, start, 0x7fff_ffff) {
            Some(v) => Some(v as i32),
            None => None,
        }
    }
}

/// The character of decimal digit `d`.
fn digit_char(d: usize) -> (c: char)
    requires
        d < 10,
    ensures
        c == (d + '0' as nat) as char,
{
    if d == 0 {
        '0'
    } else if d == 1 {
        '1'
    } else if d == 2 {
        '2'
    } else if d == 3 {
        '3'
    } else if d == 4 {
        '4'
    } else if d == 5 {
        '5'
    } else if d == 6 {
        '6'
    } else if d == 7 {
        '7'
    } else if d == 8 {
        '8'
    } else {
        '9'
    }
}

/// Appends the decimal digits of `v`.
fn push_decimal(v: usize, out: &mut Vec<char>)
    ensures
        final(out)@ == old(out)@ + decimal_text(v as nat),
    decreases v,
{
    let ghost start = out@;
    if v >= 10 {
        push_decimal(v / 10, out);
    }
    out.push(digit_char(v % 10));
    proof {
        if v >= 10 {
            assert(out@ =~= start + decimal_text(v as nat));
        } else {
            assert(out@ =~= start + decimal_text(v as nat));
        }
    }
}

/// Plain decimal digits of `v`, as `usize`'s `ToString` writes them.
pub(crate) fn usize_text(v: usize) -> (r: String)
    ensures
        r@ == decimal_text(v as nat),
{
    let mut cs: Vec<char> = Vec::new();
    push_decimal(v, &mut cs);
    proof {
        assert(cs@ =~= decimal_text(v as nat));
    }
    text_of(cs.as_slice())
}

/// `exp_index` is the first exponent marker, or the length.
proof fn lemma_exp_index(b: Seq<char>, j: int)
    requires
        0 <= j <= b.len(),
        forall|k: int| 0 <= k < j ==> !is_exp_mark(#[trigger] b[k]),
        j == b.len() || is_exp_mark(b[j]),
    ensures
        exp_index(b) == j,
    decreases j,
{
    if j > 0 {
        let t = b.drop_first();
        assert forall|k: int| 0 <= k < j - 1 implies !is_exp_mark(#[trigger] t[k]) by {
            assert(t[k] == b[k + 1]);
        }
        if j - 1 < t.len() {
            assert(t[j - 1] == b[j]);
        }
        lemma_exp_index(t, j - 1);
    }
}

/// Whether `cs[from..]` spells the word given in lower and upper case.
fn spells_at(cs: &Vec<char>, from: usize, lower: &Vec<char>, upper: &Vec<char>) -> (r: bool)
    requires
        from <= cs.len(),
        lower.len() == upper.len(),
    ensures
        r == spells(cs@.subrange(from as int, cs@.len() as int), lower@, upper@),
{
    let ghost b = cs@.subrange(from as int, cs@.len() as int);
    if cs.len() - from != lower.len() {
        return false;
    }
    let mut k: usize = 0;
    while k < lower.len()
        invariant
            from <= cs.len(),
            b == cs@.subrange(from as int, cs@.len() as int),
            b.len() == lower.len() == upper.len(),
            k <= lower.len(),
            forall|q: int| 0 <= q < k ==> #[trigger] b[q] == lower@[q] || b[q] == upper@[q],
        decreases lower.len() - k,
    {
        let c = cs[from + k];
        proof {
            assert(b[k as int] == c);
        }
        if c != lower[k] && c != upper[k] {
            return false;
        }
        k = k + 1;
    }
    true
}

/// Whether `cs[from..to]` is a mantissa.
fn mantissa_at(cs: &Vec<char>, from: usize, to: usize) -> (r: bool)
    requires
        from <= to <= cs.len(),
    ensures
        r == mantissa_text(cs@.subrange(from as int, to as int)),
{
    let ghost m = cs@.subrange(from as int, to as int);
    let mut seen_dot = false;
    let mut seen_digit = false;
    let ghost mut dot: int = 0;
    let ghost mut digit: int = 0;
    let mut j: usize = from;
    while j < to
        invariant
            from <= j <= to <= cs.len(),
            m == cs@.subrange(from as int, to as int),
            forall|k: int| 0 <= k < j - from ==> is_digit(#[trigger] m[k]) || m[k] == '.',
            seen_dot ==> 0 <= dot < j - from && m[dot] == '.',
            !seen_dot ==> forall|k: int| 0 <= k < j - from ==> #[trigger] m[k] != '.',
            seen_digit ==> 0 <= digit < j - from && is_digit(m[digit]),
            !seen_digit ==> forall|k: int| 0 <= k < j - from ==> !is_digit(#[trigger] m[k]),
            forall|a: int, b: int|
                #![trigger m[a], m[b]]
                0 <= a < b < j - from && m[a] == '.' ==> m[b] != '.',
        decreases to - j,
    {
        let c = cs[j];
        proof {
            assert(m[j - from] == c);
        }
        if c == '.' {
            if seen_dot {
                proof {
                    assert(m[dot] == '.' && m[j - from] == '.');
                }
                return false;
            }
            seen_dot = true;
            proof {
                dot = j - from;
            }
        } else if '0' <= c && c <= '9' {
            seen_digit = true;
            proof {
                digit = j - from;
            }
        } else {
            proof {
                assert(!(is_digit(m[j - from]) || m[j - from] == '.'));
            }
            return false;
        }
        j = j + 1;
    }
    proof {
        if seen_digit {
            assert(is_digit(m[digit]));
        }
    }
    seen_digit
}

/// Whether `cs[from..]` is an optional sign and then digits.
fn exponent_at(cs: &Vec<char>, from: usize) -> (r: bool)
    requires
        from <= cs.len(),
    ensures
        r == exponent_text(cs@.subrange(from as int, cs@.len() as int)),
{
    let ghost x = cs@.subrange(from as int, cs@.len() as int);
    let start: usize = if from < cs.len() && (cs[from] == '+' || cs[from] == '-') {
        from + 1
    } else {
        from
    };
    let ghost d = cs@.subrange(start as int, cs@.len() as int);
    proof {
        if start == from + 1 {
            assert(d == x.drop_first());
        } else {
            assert(d == x);
        }
        assert(exponent_text(x) == all_digits(d));
    }
    if start == cs.len() {
        return false;
    }
    let mut j: usize = start;
    while j < cs.len()
        invariant
            start <= j <= cs.len(),
            d == cs@.subrange(start as int, cs@.len() as int),
            x == cs@.subrange(from as int, cs@.len() as int),
            exponent_text(x) == all_digits(d),
            forall|k: int| 0 <= k < j - start ==> is_digit(#[trigger] d[k]),
        decreases cs.len() - j,
    {
        let c = cs[j];
        proof {
            assert(d[j - start] == c);
        }
        if !('0' <= c && c <= '9') {
            proof {
                assert(!is_digit(d[j - start]));
            }
            return false;
        }
        j = j + 1;
    }
    true
}

/// Whether `s` is a float literal in the grammar of `f64`'s `FromStr`.
pub fn is_float_text(s: &String) -> (r: bool)
    ensures
        r == float_text(s@),
{
    let cs = chars_of(s.as_str());
    let start: usize = if cs.len() > 0 && (cs[0] == '+' || cs[0] == '-') { 1 } else { 0 };
    let ghost b = cs@.subrange(start as int, cs@.len() as int);
    proof {
        if start == 1 {
            assert(b == s@.drop_first());
        } else {
            assert(b == s@);
        }
        assert(float_text(s@) == unsigned_float_text(b));
    }
    let inf_lo = vec!['i', 'n', 'f'];
    let inf_up = vec!['I', 'N', 'F'];
    let infinity_lo = vec!['i', 'n', 'f', 'i', 'n', 'i', 't', 'y'];
    let infinity_up = vec!['I', 'N', 'F', 'I', 'N', 'I', 'T', 'Y'];
    let nan_lo = vec!['n', 'a', 'n'];
    let nan_up = vec!['N', 'A', 'N'];
    proof {
        assert(inf_lo@ =~= seq!['i', 'n', 'f']);
        assert(inf_up@ =~= seq!['I', 'N', 'F']);
        assert(infinity_lo@ =~= seq!['i', 'n', 'f', 'i', 'n', 'i', 't', 'y']);
        assert(infinity_up@ =~= seq!['I', 'N', 'F', 'I', 'N', 'I', 'T', 'Y']);
        assert(nan_lo@ =~= seq!['n', 'a', 'n']);
        assert(nan_up@ =~= seq!['N', 'A', 'N']);
    }
    if spells_at(&cs, start, &inf_lo, &inf_up) || spells_at(&cs, start, &infinity_lo, &infinity_up)
        || spells_at(&cs, start, &nan_lo, &nan_up) {
        return true;
    }
    let mut p: usize = start;
    while p < cs.len() && cs[p] != 'e' && cs[p] != 'E'
        invariant
            start <= p <= cs.len(),
            b == cs@.subrange(start as int, cs@.len() as int),
            forall|k: int| 0 <= k < p - start ==> !is_exp_mark(#[trigger] b[k]),
        decreases cs.len() - p,
    {
        proof {
            assert(b[p - start] == cs@[p as int]);
        }
        p = p + 1;
    }
    proof {
        if p < cs.len() {
            assert(b[p - start] == cs@[p as int]);
        }
        lemma_exp_index(b, p - start);
        assert(b.take(p - start) == cs@.subrange(start as int, p as int));
        if p < cs.len() {
            assert(b.skip(p - start + 1) == cs@.subrange(p + 1, cs@.len() as int));
        }
    }
    if !mantissa_at(&cs, start, p) {
        return false;
    }
    if p == cs.len() {
        return true;
    }
    exponent_at(&cs, p + 1)
}

/// Whether `s` is a plain decimal literal.
pub fn is_plain_decimal(s: &String) -> (r: bool)
    ensures
        r == plain_decimal(s@),
{
    let cs = chars_of(s.as_str());
    let start: usize = if cs.len() > 0 && cs[0] == '-' { 1 } else { 0 };
    let ghost d = cs@.subrange(start as int, cs@.len() as int);
    proof {
        if start == 1 {
            assert(d == s@.drop_first());
        } else {
            assert(d == s@);
        }
        assert(plain_decimal(s@) == unsigned_decimal(d));
    }
    if start == cs.len() {
        return false;
    }
    let first = cs[start];
    let last = cs[cs.len() - 1];
    proof {
        assert(d[0] == first);
        assert(d.last() == last);
    }
    if !('0' <= first && first <= '9' && '0' <= last && last <= '9') {
        return false;
    }
    let mut seen = false;
    let ghost mut dot: int = 0;
    let mut j: usize = start;
    while j < cs.len()
        invariant
            start <= j <= cs.len(),
            d == cs@.subrange(start as int, cs@.len() as int),
            plain_decimal(s@) == unsigned_decimal(d),
            forall|k: int| 0 <= k < j - start ==> is_digit(#[trigger] d[k]) || d[k] == '.',
            seen ==> 0 <= dot < j - start && d[dot] == '.',
            !seen ==> forall|k: int| 0 <= k < j - start ==> #[trigger] d[k] != '.',
            forall|a: int, b: int|
                #![trigger d[a], d[b]]
                0 <= a < b < j - start && d[a] == '.' ==> d[b] != '.',
        decreases cs.len() - j,
    {
        let c = cs[j];
        proof {
            assert(d[j - start] == c);
        }
        if c == '.' {
            if seen {
                proof {
                    assert(d[dot] == '.' && d[j - start] == '.');
                    assert(!unsigned_decimal(d));
                }
                return false;
            }
            seen = true;
            proof {
                dot = j - start;
            }
        } else if !('0' <= c && c <= '9') {
            proof {
                assert(!(is_digit(d[j - start]) || d[j - start] == '.'));
            }
            return false;
        }
        j = j + 1;
    }
    true
}

/// Splits `cs` at every separator; empty pieces are kept.
pub fn split_chars(cs: &Vec<char>, brackets: bool) -> (r: Vec<String>)
    ensures
        r.deep_view() == pieces(cs@, brackets),
{
    let mut out: Vec<String> = Vec::new();
    let mut cur: Vec<char> = Vec::new();
    let mut i: usize = 0;
    while i < cs.len()
        invariant
            i <= cs.len(),
            out.deep_view().push(cur@) == pieces(cs@.take(i as int), brackets),
        decreases cs.len() - i,
    {
        let c = cs[i];
        proof {
            assert(cs@.take(i + 1).drop_last() == cs@.take(i as int));
        }
        if c == '[' && brackets || c == ']' && brackets || c == ' ' && !brackets {
            let piece = text_of(cur.as_slice());
            proof {
                assert(out.deep_view().push(piece@) == out.deep_view().push(cur@));
            }
            out.push(piece);
            cur = Vec::new();
            proof {
                assert(out.deep_view().push(cur@) == pieces(cs@.take(i + 1), brackets));
            }
        } else {
            let ghost before = out.deep_view().push(cur@);
            cur.push(c);
            proof {
                assert(out.deep_view().push(cur@) == before.update(
                    before.len() - 1,
                    before.last().push(c),
                ));
            }
        }
        i = i + 1;
    }
    proof {
        assert(cs@.take(cs.len() as int) == cs@);
    }
    let last = text_of(cur.as_slice());
    proof {
        assert(out.deep_view().push(last@) == out.deep_view().push(cur@));
    }
    out.push(last);
    out
}

/// `cs` without its leading run of `lead` and then its trailing run of `trail`.
pub fn trim_run(cs: &Vec<char>, lead: char, trail: char) -> (r: Vec<char>)
    ensures
        r@ == trim_pair(cs@, lead, trail),
{
    let len = cs.len();
    let mut lo: usize = 0;
    proof {
        assert(cs@.subrange(0, len as int) == cs@);
    }
    while lo < len && cs[lo] == lead
        invariant
            lo <= len == cs@.len(),
            strip_front(cs@, lead) == strip_front(cs@.subrange(lo as int, len as int), lead),
        decreases len - lo,
    {
        proof {
            assert(cs@.subrange(lo as int, len as int).drop_first() == cs@.subrange(
                lo + 1,
                len as int,
            ));
        }
        lo = lo + 1;
    }
    proof {
        assert(strip_front(cs@.subrange(lo as int, len as int), lead) == cs@.subrange(
            lo as int,
            len as int,
        ));
    }
    let mut hi: usize = len;
    while hi > lo && cs[hi - 1] == trail
        invariant
            lo <= hi <= len == cs@.len(),
            trim_pair(cs@, lead, trail) == strip_back(cs@.subrange(lo as int, hi as int), trail),
        decreases hi - lo,
    {
        proof {
            assert(cs@.subrange(lo as int, hi as int).drop_last() == cs@.subrange(
                lo as int,
                hi - 1,
            ));
        }
        hi = hi - 1;
    }
    let mut out: Vec<char> = Vec::new();
    let mut k: usize = lo;
    while k < hi
        invariant
            lo <= k <= hi <= len == cs@.len(),
            out@ == cs@.subrange(lo as int, k as int),
        decreases hi - k,
    {
        out.push(cs[k]);
        proof {
            assert(out@ == cs@.subrange(lo as int, k + 1));
        }
        k = k + 1;
    }
    out
}

/// The tokens of one bracketed group.
pub fn group_tokens_of(arg: &str) -> (r: Vec<String>)
    ensures
        r.deep_view() == group_tokens(arg@),
{
    let cs = chars_of(arg);
    let open = trim_run(&cs, '[', '[');
    let inner = trim_run(&open, ']', ']');
    split_chars(&inner, false)
}

} // verus!
