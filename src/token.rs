//! The compact `"<id>:<count>"` notation of one functional group.
use vstd::prelude::*;

verus! {

pub open spec fn is_digit(c: char) -> bool {
    48 <= (c as u32) && (c as u32) <= 57
}

pub open spec fn digit_value(c: char) -> nat {
    ((c as u32) - 48) as nat
}

pub open spec fn all_digits(s: Seq<char>) -> bool {
    forall|i: int| 0 <= i < s.len() ==> is_digit(#[trigger] s[i])
}

/// The number that a string of decimal digits denotes.
pub open spec fn digits_value(s: Seq<char>) -> nat
    decreases s.len(),
{
    if s.len() == 0 {
        0
    } else {
        digits_value(s.drop_last()) * 10 + digit_value(s.last())
    }
}

/// An id field without its optional leading `+`.
pub open spec fn unsigned_part(s: Seq<char>) -> Seq<char> {
    if s.len() > 0 && s[0] == '+' {
        s.drop_first()
    } else {
        s
    }
}

/// An id field: an optional `+`, then decimal digits whose value fits in a byte.
pub open spec fn is_id_field(s: Seq<char>) -> bool {
    let d = unsigned_part(s);
    d.len() > 0 && all_digits(d) && digits_value(d) <= 255
}

pub open spec fn id_value(s: Seq<char>) -> nat {
    digits_value(unsigned_part(s))
}

proof fn lemma_digits_step(s: Seq<char>, i: int)
    requires
        0 <= i < s.len(),
    ensures
        digits_value(s.take(i + 1)) == digits_value(s.take(i)) * 10 + digit_value(s[i]),
{
    assert(s.take(i + 1).drop_last() =~= s.take(i));
}

/// A string of digits denotes at least what any of its prefixes denotes.
proof fn lemma_prefix_bound(s: Seq<char>, k: int)
    requires
        0 <= k <= s.len(),
    ensures
        digits_value(s.take(k)) <= digits_value(s),
    decreases s.len(),
{
    if k < s.len() {
        assert(s.take(k) =~= s.drop_last().take(k));
        lemma_prefix_bound(s.drop_last(), k);
    } else {
        assert(s.take(k) =~= s);
    }
}

/// Reads an id field; `None` where it is not one.
pub fn parse_id(s: &str) -> (r: Option<u8>)
    ensures
        r.is_some() == is_id_field(s@),
        r.is_some() ==> r.unwrap() as nat == id_value(s@),
{
    let n = s.unicode_len();
    let mut start: usize = 0;
    if n > 0 && s.get_char(0) == '+' {
        start = 1;
    }
    let ghost d = unsigned_part(s@);
    assert(d =~= s@.skip(start as int));
    if start == n {
        return None;
    }
    let mut i: usize = start;
    let mut acc: u32 = 0;
    while i < n
        invariant
            start <= i <= n,
            n == s@.len(),
            d == s@.skip(start as int),
            d == unsigned_part(s@),
            acc <= 255,
            acc as nat == digits_value(d.take(i - start)),
            all_digits(d.take(i - start)),
        decreases n - i,
    {
        let c = s.get_char(i);
        proof {
            lemma_digits_step(d, i - start);
            assert(d[i - start] == c);
        }
        if !((c as u32) >= 48 && (c as u32) <= 57) {
            proof {
                assert(!all_digits(d));
            }
            return None;
        }
        acc = acc * 10 + ((c as u32) - 48);
        if acc > 255 {
            proof {
                lemma_prefix_bound(d, i - start + 1);
            }
            return None;
        }
        i = i + 1;
        proof {
            assert forall|j: int| 0 <= j < d.take(i - start).len() implies is_digit(
                #[trigger] d.take(i - start)[j],
            ) by {
                if j < i - 1 - start {
                    assert(d.take(i - start)[j] == d.take(i - 1 - start)[j]);
                }
            }
        }
    }
    assert(d.take(n - start) =~= d);
    Some(acc as u8)
}

pub open spec fn is_sign(c: char) -> bool {
    c == '+' || c == '-'
}

pub open spec fn is_exp_mark(c: char) -> bool {
    c == 'e' || c == 'E'
}

/// A count field without its optional leading sign.
pub open spec fn unsigned_real(s: Seq<char>) -> Seq<char> {
    if s.len() > 0 && is_sign(s[0]) {
        s.drop_first()
    } else {
        s
    }
}

/// `s` spells the same word as `lo`, each letter in either case.
pub open spec fn word_ci(s: Seq<char>, lo: Seq<char>, up: Seq<char>) -> bool {
    &&& s.len() == lo.len()
    &&& lo.len() == up.len()
    &&& forall|i: int| 0 <= i < s.len() ==> #[trigger] s[i] == lo[i] || s[i] == up[i]
}

/// `inf`, `infinity` or `nan`, in any mix of cases.
pub open spec fn is_named_real(s: Seq<char>) -> bool {
    ||| word_ci(s, seq!['i', 'n', 'f'], seq!['I', 'N', 'F'])
    ||| word_ci(
        s,
        seq!['i', 'n', 'f', 'i', 'n', 'i', 't', 'y'],
        seq!['I', 'N', 'F', 'I', 'N', 'I', 'T', 'Y'],
    )
    ||| word_ci(s, seq!['n', 'a', 'n'], seq!['N', 'A', 'N'])
}

/// Digits with at most one decimal point, and at least one digit.
pub open spec fn is_mantissa(m: Seq<char>) -> bool {
    &&& forall|i: int| 0 <= i < m.len() ==> is_digit(#[trigger] m[i]) || m[i] == '.'
    &&& forall|i: int, j: int|
        0 <= i < m.len() && 0 <= j < m.len() && #[trigger] m[i] == '.' && #[trigger] m[j] == '.'
            ==> i == j
    &&& exists|i: int| 0 <= i < m.len() && is_digit(#[trigger] m[i])
}

pub open spec fn exponent_digits(x: Seq<char>) -> Seq<char> {
    let r = x.drop_first();
    if r.len() > 0 && is_sign(r[0]) {
        r.drop_first()
    } else {
        r
    }
}

/// `e` or `E`, an optional sign, then at least one digit.
pub open spec fn is_exponent(x: Seq<char>) -> bool {
    &&& x.len() > 0
    &&& is_exp_mark(x[0])
    &&& exponent_digits(x).len() > 0
    &&& all_digits(exponent_digits(x))
}

/// A mantissa, followed by an exponent or by nothing.
pub open spec fn is_numeral(b: Seq<char>) -> bool {
    exists|k: int|
        0 <= k <= b.len() && #[trigger] is_mantissa(b.take(k)) && (k == b.len() || is_exponent(
            b.skip(k),
        ))
}

/// A count field: the textual form of a real number, with an optional sign.
pub open spec fn is_real_field(s: Seq<char>) -> bool {
    is_named_real(unsigned_real(s)) || is_numeral(unsigned_real(s))
}

fn is_word_ci(s: &str, lo: &str, up: &str) -> (r: bool)
    requires
        lo@.len() == up@.len(),
    ensures
        r == word_ci(s@, lo@, up@),
{
    let n = s.unicode_len();
    let m = lo.unicode_len();
    if n != m {
        return false;
    }
    let mut i: usize = 0;
    while i < n
        invariant
            i <= n,
            n == s@.len(),
            n == lo@.len(),
            n == up@.len(),
            forall|j: int| 0 <= j < i ==> #[trigger] s@[j] == lo@[j] || s@[j] == up@[j],
        decreases n - i,
    {
        let c = s.get_char(i);
        if c != lo.get_char(i) && c != up.get_char(i) {
            return false;
        }
        i = i + 1;
    }
    true
}

fn is_mantissa_text(m: &str) -> (r: bool)
    ensures
        r == is_mantissa(m@),
{
    let n = m.unicode_len();
    let mut i: usize = 0;
    let mut dot_at: Option<usize> = None;
    let mut digit_at: Option<usize> = None;
    while i < n
        invariant
            i <= n,
            n == m@.len(),
            forall|j: int| 0 <= j < i ==> is_digit(#[trigger] m@[j]) || m@[j] == '.',
            dot_at.is_none() ==> forall|j: int| 0 <= j < i ==> #[trigger] m@[j] != '.',
            dot_at.is_some() ==> dot_at.unwrap() < i && m@[dot_at.unwrap() as int] == '.' && forall|
                j: int,
            | 0 <= j < i && #[trigger] m@[j] == '.' ==> j == dot_at.unwrap(),
            digit_at.is_none() ==> forall|j: int| 0 <= j < i ==> !is_digit(#[trigger] m@[j]),
            digit_at.is_some() ==> digit_at.unwrap() < i && is_digit(m@[digit_at.unwrap() as int]),
        decreases n - i,
    {
        let c = m.get_char(i);
        if c == '.' {
            if dot_at.is_some() {
                proof {
                    let p = dot_at.unwrap() as int;
                    assert(m@[p] == '.' && m@[i as int] == '.');
                }
                return false;
            }
            dot_at = Some(i);
        } else if (c as u32) >= 48 && (c as u32) <= 57 {
            if digit_at.is_none() {
                digit_at = Some(i);
            }
        } else {
            proof {
                assert(!(is_digit(m@[i as int]) || m@[i as int] == '.'));
            }
            return false;
        }
        i = i + 1;
    }
    if digit_at.is_some() {
        proof {
            let p = digit_at.unwrap() as int;
            assert(is_digit(m@[p]));
        }
        true
    } else {
        false
    }
}

fn is_exponent_text(x: &str) -> (r: bool)
    ensures
        r == is_exponent(x@),
{
    let n = x.unicode_len();
    if n == 0 {
        return false;
    }
    let c0 = x.get_char(0);
    if c0 != 'e' && c0 != 'E' {
        return false;
    }
    let mut st: usize = 1;
    if n > 1 {
        let c1 = x.get_char(1);
        if c1 == '+' || c1 == '-' {
            st = 2;
        }
    }
    let ghost d = exponent_digits(x@);
    assert(d =~= x@.skip(st as int));
    if st == n {
        return false;
    }
    let mut i: usize = st;
    while i < n
        invariant
            st <= i <= n,
            n == x@.len(),
            d == x@.skip(st as int),
            d == exponent_digits(x@),
            forall|j: int| st <= j < i ==> is_digit(#[trigger] x@[j]),
        decreases n - i,
    {
        let c = x.get_char(i);
        if !((c as u32) >= 48 && (c as u32) <= 57) {
            proof {
                assert(d[i - st] == x@[i as int]);
            }
            return false;
        }
        i = i + 1;
    }
    proof {
        assert forall|j: int| 0 <= j < d.len() implies is_digit(#[trigger] d[j]) by {
            assert(d[j] == x@[j + st]);
        }
    }
    true
}

fn is_numeral_text(b: &str) -> (r: bool)
    ensures
        r == is_numeral(b@),
{
    let n = b.unicode_len();
    let mut k: usize = n;
    let mut i: usize = 0;
    while i < n
        invariant
            i <= n,
            n == b@.len(),
            k <= n,
            k == n ==> forall|j: int| 0 <= j < i ==> !is_exp_mark(#[trigger] b@[j]),
            k < n ==> k < i && is_exp_mark(b@[k as int]) && forall|j: int|
                0 <= j < k ==> !is_exp_mark(#[trigger] b@[j]),
        decreases n - i,
    {
        let c = b.get_char(i);
        if k == n && (c == 'e' || c == 'E') {
            k = i;
        }
        i = i + 1;
    }
    let mantissa = b.substring_char(0, k);
    let ok_m = is_mantissa_text(mantissa);
    let ok_e = if k == n {
        true
    } else {
        let rest = b.substring_char(k, n);
        is_exponent_text(rest)
    };
    proof {
        assert(mantissa@ =~= b@.take(k as int));
        if k < n {
            assert(b@.subrange(k as int, n as int) =~= b@.skip(k as int));
        }
        if ok_m && ok_e {
            assert(is_mantissa(b@.take(k as int)));
        } else {
            assert forall|q: int|
                0 <= q <= b@.len() && #[trigger] is_mantissa(b@.take(q)) implies !(q == b@.len()
                || is_exponent(b@.skip(q))) by {
                if q < k {
                    assert(b@.skip(q)[0] == b@[q]);
                } else if q > k {
                    let t = b@.take(q);
                    assert(t[k as int] == b@[k as int]);
                }
            }
        }
    }
    ok_m && ok_e
}

/// Whether `s` is a count field.
pub fn is_real_count(s: &str) -> (r: bool)
    ensures
        r == is_real_field(s@),
{
    let n = s.unicode_len();
    let mut start: usize = 0;
    if n > 0 {
        let c = s.get_char(0);
        if c == '+' || c == '-' {
            start = 1;
        }
    }
    let b = s.substring_char(start, n);
    assert(b@ =~= unsigned_real(s@));
    let inf = "inf";
    let inf_up = "INF";
    let infinity = "infinity";
    let infinity_up = "INFINITY";
    let nan = "nan";
    let nan_up = "NAN";
    proof {
        reveal_strlit("inf");
        reveal_strlit("INF");
        reveal_strlit("infinity");
        reveal_strlit("INFINITY");
        reveal_strlit("nan");
        reveal_strlit("NAN");
        assert(inf@ =~= seq!['i', 'n', 'f']);
        assert(inf_up@ =~= seq!['I', 'N', 'F']);
        assert(infinity@ =~= seq!['i', 'n', 'f', 'i', 'n', 'i', 't', 'y']);
        assert(infinity_up@ =~= seq!['I', 'N', 'F', 'I', 'N', 'I', 'T', 'Y']);
        assert(nan@ =~= seq!['n', 'a', 'n']);
        assert(nan_up@ =~= seq!['N', 'A', 'N']);
    }
    if is_word_ci(b, inf, inf_up) || is_word_ci(b, infinity, infinity_up) || is_word_ci(
        b,
        nan,
        nan_up,
    ) {
        return true;
    }
    is_numeral_text(b)
}

/// `k` is the place of the one and only `:` in `t`.
pub open spec fn is_sole_colon(t: Seq<char>, k: int) -> bool {
    &&& 0 <= k < t.len()
    &&& t[k] == ':'
    &&& forall|j: int| 0 <= j < t.len() && #[trigger] t[j] == ':' ==> j == k
}

pub open spec fn has_sole_colon(t: Seq<char>) -> bool {
    exists|k: int| is_sole_colon(t, k)
}

pub open spec fn colon_index(t: Seq<char>) -> int {
    choose|k: int| is_sole_colon(t, k)
}

pub open spec fn id_field(t: Seq<char>) -> Seq<char> {
    t.take(colon_index(t))
}

pub open spec fn count_field(t: Seq<char>) -> Seq<char> {
    t.skip(colon_index(t) + 1)
}

/// A well-formed group token: an id field and a count field around one `:`.
pub open spec fn is_group_token(t: Seq<char>) -> bool {
    has_sole_colon(t) && is_id_field(id_field(t)) && is_real_field(count_field(t))
}

/// One functional group of a substance: its id, and its count as written.
#[derive(Debug, PartialEq, Eq)]
pub struct GroupToken {
    pub id: u8,
    pub count: String,
}

/// Why a group token was refused.
#[derive(Debug, Clone, Copy, PartialEq, Eq, Structural)]
pub enum TokenError {
    /// There is not exactly one `:`.
    Separator,
    /// The part before the `:` is not a group id.
    Id,
    /// The part after the `:` is not a number.
    Count,
}

/// Splits `t` at its only `:` into a group id and a count.
pub fn decode_group(t: &str) -> (r: Result<GroupToken, TokenError>)
    ensures
        r.is_ok() == is_group_token(t@),
        r.is_ok() ==> r.unwrap().id as nat == id_value(id_field(t@)) && r.unwrap().count@
            == count_field(t@),
        r == Err::<GroupToken, TokenError>(TokenError::Separator) <==> !has_sole_colon(t@),
        r == Err::<GroupToken, TokenError>(TokenError::Id) <==> has_sole_colon(t@) && !is_id_field(
            id_field(t@),
        ),
        r == Err::<GroupToken, TokenError>(TokenError::Count) <==> has_sole_colon(t@)
            && is_id_field(id_field(t@)) && !is_real_field(count_field(t@)),
{
    let n = t.unicode_len();
    let mut colon: Option<usize> = None;
    let mut i: usize = 0;
    while i < n
        invariant
            i <= n,
            n == t@.len(),
            colon.is_none() ==> forall|j: int| 0 <= j < i ==> #[trigger] t@[j] != ':',
            colon.is_some() ==> colon.unwrap() < i && t@[colon.unwrap() as int] == ':' && forall|
                j: int,
            | 0 <= j < i && #[trigger] t@[j] == ':' ==> j == colon.unwrap(),
        decreases n - i,
    {
        if t.get_char(i) == ':' {
            if colon.is_some() {
                proof {
                    let p = colon.unwrap() as int;
                    assert forall|k: int| !is_sole_colon(t@, k) by {
                        if is_sole_colon(t@, k) {
                            assert(t@[p] == ':' && t@[i as int] == ':');
                        }
                    }
                }
                return Err(TokenError::Separator);
            }
            colon = Some(i);
        }
        i = i + 1;
    }
    if colon.is_none() {
        proof {
            assert forall|k: int| !is_sole_colon(t@, k) by {
                if is_sole_colon(t@, k) {
                    assert(t@[k] == ':');
                }
            }
        }
        return Err(TokenError::Separator);
    }
    let k = colon.unwrap();
    proof {
        assert(is_sole_colon(t@, k as int));
        assert(colon_index(t@) == k);
    }
    let id_text = t.substring_char(0, k);
    let count_text = t.substring_char(k + 1, n);
    assert(id_text@ =~= id_field(t@));
    assert(count_text@ =~= count_field(t@));
    match parse_id(id_text) {
        None => Err(TokenError::Id),
        Some(id) => {
            if is_real_count(count_text) {
                Ok(GroupToken { id, count: count_text.to_string() })
            } else {
                Err(TokenError::Count)
            }
        },
    }
}

pub open spec fn digit_char(d: nat) -> char {
    if d == 0 {
        '0'
    } else if d == 1 {
        '1'
    } else if d == 2 {
        '2'
    } else if d == 3 {
        '3'
    } else if d == 4 {
        '4'
    } else if d == 5 {
        '5'
    } else if d == 6 {
        '6'
    } else if d == 7 {
        '7'
    } else if d == 8 {
        '8'
    } else {
        '9'
    }
}

/// `n` written in decimal, without sign or leading zeros.
pub open spec fn decimal(n: nat) -> Seq<char>
    decreases n,
{
    if n < 10 {
        seq![digit_char(n)]
    } else {
        decimal(n / 10) + seq![digit_char(n % 10)]
    }
}

/// The token that writes group `id` with count text `count`.
pub open spec fn token_text(id: nat, count: Seq<char>) -> Seq<char> {
    decimal(id) + seq![':'] + count
}

fn digit_text(d: u8) -> (r: &'static str)
    requires
        d < 10,
    ensures
        r@ == seq![digit_char(d as nat)],
{
    let r = match d {
        0 => {
            proof {
                reveal_strlit("0");
            }
            "0"
        },
        1 => {
            proof {
                reveal_strlit("1");
            }
            "1"
        },
        2 => {
            proof {
                reveal_strlit("2");
            }
            "2"
        },
        3 => {
            proof {
                reveal_strlit("3");
            }
            "3"
        },
        4 => {
            proof {
                reveal_strlit("4");
            }
            "4"
        },
        5 => {
            proof {
                reveal_strlit("5");
            }
            "5"
        },
        6 => {
            proof {
                reveal_strlit("6");
            }
            "6"
        },
        7 => {
            proof {
                reveal_strlit("7");
            }
            "7"
        },
        8 => {
            proof {
                reveal_strlit("8");
            }
            "8"
        },
        _ => {
            proof {
                reveal_strlit("9");
            }
            "9"
        },
    };
    assert(r@ =~= seq![digit_char(d as nat)]);
    r
}

fn push_decimal(out: &mut String, n: u8)
    ensures
        final(out)@ == old(out)@ + decimal(n as nat),
    decreases n,
{
    if n >= 10 {
        push_decimal(out, n / 10);
    }
    out.append(digit_text(n % 10));
    assert(out@ =~= old(out)@ + decimal(n as nat));
}

/// Writes `g` as `"<id>:<count>"`, the count exactly as held.
pub fn encode_group(g: &GroupToken) -> (r: String)
    ensures
        r@ == token_text(g.id as nat, g.count@),
{
    let mut out = String::new();
    push_decimal(&mut out, g.id);
    proof {
        reveal_strlit(":");
    }
    out.append(":");
    out.append(g.count.as_str());
    assert(out@ =~= token_text(g.id as nat, g.count@));
    out
}

/// Decimal digits with no superfluous leading zero.
pub open spec fn is_plain_decimal(s: Seq<char>) -> bool {
    s.len() > 0 && all_digits(s) && (s.len() == 1 || s[0] != '0')
}

proof fn lemma_digit_char(c: char)
    requires
        is_digit(c),
    ensures
        digit_char(digit_value(c)) == c,
        digit_value(c) < 10,
{
}

proof fn lemma_value_at_least_lead(s: Seq<char>)
    requires
        s.len() > 0,
        all_digits(s),
    ensures
        digits_value(s) >= digit_value(s[0]),
    decreases s.len(),
{
    if s.len() > 1 {
        assert(s.drop_last()[0] == s[0]);
        lemma_value_at_least_lead(s.drop_last());
    } else {
        assert(s.drop_last().len() == 0);
    }
}

/// Plain decimal digits are the decimal form of the number they denote.
proof fn lemma_decimal_of_digits(s: Seq<char>)
    requires
        is_plain_decimal(s),
    ensures
        decimal(digits_value(s)) == s,
    decreases s.len(),
{
    let v = digits_value(s);
    let p = s.drop_last();
    let c = s.last();
    lemma_digit_char(c);
    if s.len() == 1 {
        assert(p.len() == 0);
        assert(decimal(v) =~= s);
    } else {
        assert(p[0] == s[0]);
        assert(is_plain_decimal(p));
        lemma_value_at_least_lead(p);
        lemma_digit_char(s[0]);
        let a = digits_value(p);
        let b = digit_value(c);
        assert(a >= 1);
        assert(v == a * 10 + b);
        assert((a * 10 + b) / 10 == a && (a * 10 + b) % 10 == b) by (nonlinear_arith)
            requires
                b < 10,
        ;
        lemma_decimal_of_digits(p);
        assert(decimal(v) =~= s);
    }
}

/// Writing back what a well-formed token decodes to gives the token itself,
/// for every token whose id is written in plain decimal.
pub proof fn lemma_round_trip(t: Seq<char>)
    requires
        is_group_token(t),
        is_plain_decimal(id_field(t)),
    ensures
        token_text(id_value(id_field(t)), count_field(t)) == t,
{
    let k = colon_index(t);
    let f = id_field(t);
    assert(f.len() > 0 && f[0] != '+');
    assert(unsigned_part(f) == f);
    lemma_decimal_of_digits(f);
    assert(t =~= f + seq![':'] + count_field(t));
}

proof fn lemma_decimal_digits(n: nat)
    ensures
        decimal(n).len() > 0,
        all_digits(decimal(n)),
        digits_value(decimal(n)) == n,
    decreases n,
{
    let d = n % 10;
    assert(is_digit(digit_char(d)) && digit_value(digit_char(d)) == d);
    if n >= 10 {
        lemma_decimal_digits(n / 10);
        let s = decimal(n);
        assert(s.drop_last() =~= decimal(n / 10));
        assert forall|i: int| 0 <= i < s.len() implies is_digit(#[trigger] s[i]) by {
            if i < s.len() - 1 {
                assert(s[i] == decimal(n / 10)[i]);
            }
        }
        assert(s.last() == digit_char(d));
        assert(digits_value(s) == digits_value(decimal(n / 10)) * 10 + d);
        assert(n == (n / 10) * 10 + n % 10);
    } else {
        let s = decimal(n);
        assert(s.drop_last().len() == 0);
        assert(s.last() == digit_char(n));
        assert(d == n);
        assert(digits_value(s) == digits_value(s.drop_last()) * 10 + digit_value(s.last()));
    }
}

proof fn lemma_exponent_no_colon(x: Seq<char>)
    requires
        is_exponent(x),
    ensures
        forall|i: int| 0 <= i < x.len() ==> #[trigger] x[i] != ':',
{
    let r = x.drop_first();
    let d = exponent_digits(x);
    assert forall|i: int| 0 <= i < x.len() implies #[trigger] x[i] != ':' by {
        if i > 0 {
            assert(x[i] == r[i - 1]);
            if r.len() > 0 && is_sign(r[0]) {
                if i > 1 {
                    assert(r[i - 1] == d[i - 2]);
                    assert(is_digit(d[i - 2]));
                }
            } else {
                assert(r[i - 1] == d[i - 1]);
                assert(is_digit(d[i - 1]));
            }
        }
    }
}

proof fn lemma_real_no_colon(c: Seq<char>)
    requires
        is_real_field(c),
    ensures
        forall|i: int| 0 <= i < c.len() ==> #[trigger] c[i] != ':',
{
    let b = unsigned_real(c);
    assert forall|i: int| 0 <= i < b.len() implies #[trigger] b[i] != ':' by {
        if !is_named_real(b) {
            let k = choose|k: int|
                0 <= k <= b.len() && #[trigger] is_mantissa(b.take(k)) && (k == b.len()
                    || is_exponent(b.skip(k)));
            if i < k {
                assert(b.take(k)[i] == b[i]);
            } else {
                lemma_exponent_no_colon(b.skip(k));
                assert(b.skip(k)[i - k] == b[i]);
            }
        }
    }
    assert forall|i: int| 0 <= i < c.len() implies #[trigger] c[i] != ':' by {
        if c.len() > 0 && is_sign(c[0]) && i > 0 {
            assert(c[i] == b[i - 1]);
        } else if !(c.len() > 0 && is_sign(c[0])) {
            assert(c[i] == b[i]);
        }
    }
}

/// Any group id with a count field, once written as a token, decodes back to
/// that id and that count.
pub proof fn lemma_decode_encoded(id: nat, count: Seq<char>)
    requires
        id <= 255,
        is_real_field(count),
    ensures
        is_group_token(token_text(id, count)),
        id_value(id_field(token_text(id, count))) == id,
        count_field(token_text(id, count)) == count,
{
    let t = token_text(id, count);
    let dec = decimal(id);
    let k = dec.len() as int;
    lemma_decimal_digits(id);
    lemma_real_no_colon(count);
    assert forall|j: int| 0 <= j < t.len() && #[trigger] t[j] == ':' implies j == k by {
        if j < k {
            assert(t[j] == dec[j]);
            assert(is_digit(dec[j]));
        } else if j > k {
            assert(t[j] == count[j - k - 1]);
        }
    }
    assert(t[k] == ':');
    assert(is_sole_colon(t, k));
    let ci = colon_index(t);
    assert(is_sole_colon(t, ci));
    assert(ci == k);
    assert(t.take(k) =~= dec);
    assert(t.skip(k + 1) =~= count);
    assert(is_digit(dec[0]));
    assert(unsigned_part(dec) == dec);
}

} // verus!
