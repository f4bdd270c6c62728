//! Decimal text for fixed-point values.
//!
//! Model files hold weights as plain decimal numbers.  A token is parsed
//! into an integer number of units of `1 / 10^13` (one decimal digit finer
//! than the working scale, so that the halved bias value on the last line
//! of a model file is represented exactly); formatting writes a value in
//! working-scale units back as sign, integer part, a dot and exactly
//! twelve fractional digits (thirteen for the bias line).
//!
//! The accepted grammar is an optional minus sign, then digits with at
//! most one dot among them and at least one digit.  A token whose integer
//! part exceeds the cap below is rejected rather than truncated.

use vstd::prelude::*;

verus! {

broadcast use vstd::utf8::char_u32_cast;

/// One unit of the parse scale: `10 * crate::numeric::SCALE`.
pub const POW13: i128 = 10_000_000_000_000;

/// Cap on the integer part of any parsed number.
pub const INT_CAP: i64 = 800_000_000_000_000_000;

/// Saturation bound used while accumulating the integer part.
const INT_SAT: i64 = 900_000_000_000_000_000;

/// Whether `c` is a decimal digit.
pub open spec fn is_digit(c: char) -> bool {
    48 <= c as u32 <= 57
}

/// The numeric value of a digit character.
pub open spec fn digit_val(c: char) -> int {
    c as u32 - 48
}

/// The digit character of a value between 0 and 9.
pub open spec fn digit_char(d: int) -> char {
    (((48 + d) as u8) as char)
}

/// The number denoted by a digit string, most significant digit first.
pub open spec fn str_to_nat(s: Seq<char>) -> int
    decreases s.len(),
{
    if s.len() == 0 {
        0
    } else {
        str_to_nat(s.drop_last()) * 10 + digit_val(s.last())
    }
}

/// Decimal digits of a nonnegative number, without leading zeros (a
/// single zero for zero itself).
pub open spec fn nat_digits(n: int) -> Seq<char>
    decreases n,
{
    if n < 10 {
        seq![digit_char(if n < 0 { 0 } else { n })]
    } else {
        nat_digits(n / 10).push(digit_char(n % 10))
    }
}

/// Exactly `nd` decimal digits of `f mod 10^nd`, zero padded.
pub open spec fn pad_digits(f: int, nd: nat) -> Seq<char>
    decreases nd,
{
    if nd == 0 {
        Seq::empty()
    } else {
        pad_digits(f / 10, (nd - 1) as nat).push(digit_char(f % 10))
    }
}

/// Number of dots in a token.
pub open spec fn dot_count(s: Seq<char>) -> int
    decreases s.len(),
{
    if s.len() == 0 {
        0
    } else {
        dot_count(s.drop_last()) + if s.last() == '.' {
            1int
        } else {
            0int
        }
    }
}

/// Whether some character of `s` is a digit.
pub open spec fn has_digit(s: Seq<char>) -> bool {
    exists|i: int| 0 <= i < s.len() && is_digit(s[i])
}

/// A well-formed unsigned number body: nonempty, made of digits and at
/// most one dot, with at least one digit.
pub open spec fn wf_number_body(s: Seq<char>) -> bool {
    &&& s.len() >= 1
    &&& dot_count(s) <= 1
    &&& has_digit(s)
    &&& forall|i: int| 0 <= i < s.len() ==> is_digit(s[i]) || s[i] == '.'
}

/// Index of the first dot, or the length when there is none.
pub open spec fn dot_pos(s: Seq<char>) -> int
    decreases s.len(),
{
    if s.len() == 0 {
        0
    } else if s[0] == '.' {
        0
    } else {
        1 + dot_pos(s.drop_first())
    }
}

/// The first dot is where the scan finds it.
pub proof fn lemma_dot_pos_at(s: Seq<char>, k: int)
    requires
        0 <= k < s.len(),
        s[k] == '.',
        forall|j: int| 0 <= j < k ==> s[j] != '.',
    ensures
        dot_pos(s) == k,
    decreases s.len(),
{
    if k > 0 {
        lemma_dot_pos_at(s.drop_first(), k - 1);
    }
}

/// Without a dot the position is the length.
pub proof fn lemma_dot_pos_none(s: Seq<char>)
    requires
        forall|j: int| 0 <= j < s.len() ==> s[j] != '.',
    ensures
        dot_pos(s) == s.len(),
    decreases s.len(),
{
    if s.len() > 0 {
        lemma_dot_pos_none(s.drop_first());
    }
}

/// The fractional digits of a body, truncated or zero padded to exactly
/// thirteen digits.
pub open spec fn frac13_digits(s: Seq<char>) -> Seq<char> {
    let p = dot_pos(s);
    let fp = if p < s.len() {
        s.skip(p + 1)
    } else {
        Seq::<char>::empty()
    };
    if fp.len() >= 13 {
        fp.take(13)
    } else {
        fp + Seq::new((13 - fp.len()) as nat, |i: int| '0')
    }
}

/// The value, in units of `1 / 10^13`, denoted by a token, or `None`
/// when the token is not a well-formed number or its integer part is over
/// the cap.
pub open spec fn spec_parse13(s: Seq<char>) -> Option<int> {
    let neg = s.len() >= 1 && s[0] == '-';
    let body = if neg {
        s.drop_first()
    } else {
        s
    };
    if !wf_number_body(body) {
        None
    } else {
        let ipn = str_to_nat(body.take(dot_pos(body)));
        if ipn > INT_CAP {
            None
        } else {
            let v = ipn * POW13 + str_to_nat(frac13_digits(body));
            Some(
                if neg {
                    -v
                } else {
                    v
                },
            )
        }
    }
}

/// Fixed-point value in working-scale units rendered as sign, integer
/// part, dot and twelve fractional digits.
pub open spec fn spec_format_units(v: int) -> Seq<char> {
    let n = if v < 0 {
        -v
    } else {
        v
    };
    let sign: Seq<char> = if v < 0 {
        seq!['-']
    } else {
        Seq::empty()
    };
    sign + nat_digits(n / (crate::numeric::SCALE as int)) + seq!['.'] + pad_digits(
        n % (crate::numeric::SCALE as int),
        12,
    )
}

/// Half of a value in working-scale units, rendered with thirteen
/// fractional digits: the printed number is `n / 2` in working units,
/// that is `5 n` in units of `1 / 10^13`.
pub open spec fn spec_format_half(n: int) -> Seq<char> {
    let m = if n < 0 {
        -n
    } else {
        n
    };
    let v13 = 5 * m;
    let sign: Seq<char> = if n < 0 {
        seq!['-']
    } else {
        Seq::empty()
    };
    sign + nat_digits(v13 / (POW13 as int)) + seq!['.'] + pad_digits(v13 % (POW13 as int), 13)
}

/// Whether every character is a digit.
pub open spec fn all_digits(s: Seq<char>) -> bool {
    forall|i: int| 0 <= i < s.len() ==> is_digit(s[i])
}

/// The digits of a signed integer token, after any single leading sign.
pub open spec fn int_body(s: Seq<char>) -> Seq<char> {
    if s.len() >= 1 && (s[0] == '-' || s[0] == '+') {
        s.drop_first()
    } else {
        s
    }
}

/// A signed integer token: optional sign, then digits only.
pub open spec fn wf_int_token(s: Seq<char>) -> bool {
    int_body(s).len() >= 1 && all_digits(int_body(s))
}

/// The value denoted by a signed integer token.
pub open spec fn spec_int_value(s: Seq<char>) -> int {
    if s.len() >= 1 && s[0] == '-' {
        -str_to_nat(int_body(s))
    } else {
        str_to_nat(int_body(s))
    }
}

/// A label token parses exactly when it is a well-formed integer token
/// whose value fits in `i8`.
pub open spec fn spec_parse_label(s: Seq<char>) -> Option<i8> {
    if wf_int_token(s) && -128 <= spec_int_value(s) <= 127 {
        Some(spec_int_value(s) as i8)
    } else {
        None
    }
}

/// The integer rendering of a value: sign and digits.
pub open spec fn spec_format_int(v: int) -> Seq<char> {
    let n = if v < 0 {
        -v
    } else {
        v
    };
    let sign: Seq<char> = if v < 0 {
        seq!['-']
    } else {
        Seq::empty()
    };
    sign + nat_digits(n)
}

/// A digit string denotes a nonnegative number.
pub proof fn lemma_str_to_nat_nonneg(s: Seq<char>)
    requires
        forall|i: int| 0 <= i < s.len() ==> is_digit(s[i]),
    ensures
        str_to_nat(s) >= 0,
    decreases s.len(),
{
    if s.len() > 0 {
        lemma_str_to_nat_nonneg(s.drop_last());
        assert(str_to_nat(s.drop_last()) * 10 >= 0) by (nonlinear_arith)
            requires str_to_nat(s.drop_last()) >= 0;
    }
}

/// Appending one digit multiplies the value by ten and adds that digit.
pub proof fn lemma_str_to_nat_push(s: Seq<char>, c: char)
    ensures
        str_to_nat(s.push(c)) == str_to_nat(s) * 10 + digit_val(c),
{
    assert(s.push(c).drop_last() =~= s);
    assert(s.push(c).last() == c);
}

/// Powers of ten.
pub open spec fn pow10(k: nat) -> int
    decreases k,
{
    if k == 0 {
        1
    } else {
        10 * pow10((k - 1) as nat)
    }
}

/// The powers of ten up to the parse scale.
pub proof fn lemma_pow10_vals()
    ensures
        pow10(12) == crate::numeric::SCALE,
        pow10(13) == POW13,
{
    assert(pow10(0) == 1);
    assert(pow10(1) == 10);
    assert(pow10(2) == 100);
    assert(pow10(3) == 1000);
    assert(pow10(4) == 10000);
    assert(pow10(5) == 100000);
    assert(pow10(6) == 1000000);
    assert(pow10(7) == 10000000);
    assert(pow10(8) == 100000000);
    assert(pow10(9) == 1000000000);
    assert(pow10(10) == 10000000000);
    assert(pow10(11) == 100000000000);
    assert(pow10(12) == 1000000000000);
    assert(pow10(13) == 10000000000000);
}

/// Appending `k` zero digits multiplies the denoted value by `10^k`.
pub proof fn lemma_append_zeros(s: Seq<char>, k: nat)
    ensures
        str_to_nat(s + Seq::new(k, |i: int| '0')) == str_to_nat(s) * pow10(k),
    decreases k,
{
    if k == 0 {
        assert(s + Seq::new(0, |i: int| '0') =~= s);
    } else {
        let z = Seq::new(k, |i: int| '0');
        let z1 = Seq::new((k - 1) as nat, |i: int| '0');
        assert(s + z =~= (s + z1).push('0'));
        lemma_append_zeros(s, (k - 1) as nat);
        lemma_str_to_nat_push(s + z1, '0');
        assert(digit_val('0') == 0) by {
            vstd::utf8::char_is_scalar('0');
        }
        assert(str_to_nat(s) * pow10((k - 1) as nat) * 10 == str_to_nat(s) * pow10(k))
            by (nonlinear_arith)
            requires pow10(k) == 10 * pow10((k - 1) as nat);
    }
}

/// A dot somewhere means a positive dot count.
pub proof fn lemma_dot_count_one(s: Seq<char>, a: int)
    requires
        0 <= a < s.len(),
        s[a] == '.',
    ensures
        dot_count(s) >= 1,
    decreases s.len(),
{
    if a == s.len() - 1 {
        lemma_dot_count_nonneg(s.drop_last());
    } else {
        lemma_dot_count_one(s.drop_last(), a);
    }
}

/// Dot counts are never negative.
pub proof fn lemma_dot_count_nonneg(s: Seq<char>)
    ensures
        dot_count(s) >= 0,
    decreases s.len(),
{
    if s.len() > 0 {
        lemma_dot_count_nonneg(s.drop_last());
    }
}

/// Two dots at distinct positions mean a dot count of at least two.
pub proof fn lemma_dot_count_two(s: Seq<char>, a: int, b: int)
    requires
        0 <= a < b < s.len(),
        s[a] == '.',
        s[b] == '.',
    ensures
        dot_count(s) >= 2,
    decreases s.len(),
{
    if b == s.len() - 1 {
        lemma_dot_count_one(s.drop_last(), a);
    } else {
        lemma_dot_count_two(s.drop_last(), a, b);
    }
}

/// Appending a character adds one dot exactly when it is a dot.
pub proof fn lemma_dot_count_push(s: Seq<char>, c: char)
    ensures
        dot_count(s.push(c)) == dot_count(s) + if c == '.' {
            1int
        } else {
            0int
        },
{
    assert(s.push(c).drop_last() =~= s);
    assert(s.push(c).last() == c);
}

/// Whether `c` is a decimal digit.
pub fn exec_is_digit(c: char) -> (b: bool)
    ensures
        b == is_digit(c),
{
    let u = c as u32;
    48 <= u && u <= 57
}

/// The fractional digit sequence `fp`, truncated or zero padded to
/// exactly thirteen digits.
pub open spec fn frac13_of(fp: Seq<char>) -> Seq<char> {
    if fp.len() >= 13 {
        fp.take(13)
    } else {
        fp + Seq::new((13 - fp.len()) as nat, |i: int| '0')
    }
}

/// Scan a digit range, accumulating its value with saturation at
/// `INT_SAT`.
fn scan_int_sat(v: &Vec<char>, from: usize, to: usize) -> (acc: i64)
    requires
        from <= to <= v.len(),
        forall|j: int| from <= j < to ==> is_digit(v@[j]),
    ensures
        0 <= acc <= INT_SAT,
        str_to_nat(v@.subrange(from as int, to as int)) <= INT_SAT ==> acc == str_to_nat(
            v@.subrange(from as int, to as int),
        ),
        str_to_nat(v@.subrange(from as int, to as int)) > INT_SAT ==> acc == INT_SAT,
{
    let mut acc: i64 = 0;
    let mut i: usize = from;
    while i < to
        invariant
            from <= i <= to <= v.len(),
            forall|j: int| from <= j < to ==> is_digit(v@[j]),
            0 <= acc <= INT_SAT,
            str_to_nat(v@.subrange(from as int, i as int)) <= INT_SAT ==> acc == str_to_nat(
                v@.subrange(from as int, i as int),
            ),
            str_to_nat(v@.subrange(from as int, i as int)) > INT_SAT ==> acc == INT_SAT,
            str_to_nat(v@.subrange(from as int, i as int)) >= 0,
        decreases to - i,
    {
        let c = v[i];
        let d: i64 = (c as u32 - 48) as i64;
        proof {
            let pref = v@.subrange(from as int, i as int);
            assert(v@.subrange(from as int, i + 1) =~= pref.push(v@[i as int]));
            lemma_str_to_nat_push(pref, v@[i as int]);
            lemma_str_to_nat_nonneg(v@.subrange(from as int, i + 1));
            if str_to_nat(pref) > INT_SAT {
                assert(str_to_nat(pref) * 10 + digit_val(v@[i as int]) > INT_SAT)
                    by (nonlinear_arith)
                    requires str_to_nat(pref) > INT_SAT && digit_val(v@[i as int]) >= 0;
            }
        }
        let next: i64 = acc * 10 + d;
        acc = if next > INT_SAT {
            INT_SAT
        } else {
            next
        };
        i = i + 1;
    }
    acc
}

/// Scan the fractional digits starting at `from`, producing the value of
/// the canonical thirteen-digit fraction.
fn scan_frac13(v: &Vec<char>, from: usize) -> (facc: i64)
    requires
        from <= v.len(),
        forall|j: int| from <= j < v.len() ==> is_digit(v@[j]),
    ensures
        facc == str_to_nat(frac13_of(v@.subrange(from as int, v@.len() as int))),
        0 <= facc < POW13,
{
    let ghost fp: Seq<char> = v@.subrange(from as int, v@.len() as int);
    let n = v.len();
    let mut facc: i64 = 0;
    let mut cnt: usize = 0;
    let mut i: usize = from;
    proof {
        lemma_pow10_vals();
    }
    while i < n && cnt < 13
        invariant
            from <= i <= n,
            n == v@.len(),
            fp =~= v@.subrange(from as int, n as int),
            cnt == i - from,
            cnt <= 13,
            forall|j: int| from <= j < n ==> is_digit(v@[j]),
            facc == str_to_nat(fp.take(cnt as int)),
            0 <= facc < pow10(cnt as nat),
            pow10(13) == POW13,
        decreases n - i,
    {
        let c = v[i];
        proof {
            assert(is_digit(v@[i as int]));
        }
        let d: i64 = (c as u32 - 48) as i64;
        proof {
            assert(fp[cnt as int] == v@[i as int]);
            assert(fp.take(cnt + 1) =~= fp.take(cnt as int).push(v@[i as int]));
            lemma_str_to_nat_push(fp.take(cnt as int), v@[i as int]);
            assert(facc * 10 + d < pow10((cnt + 1) as nat)) by (nonlinear_arith)
                requires 0 <= facc < pow10(cnt as nat) && 0 <= d <= 9 && pow10((cnt + 1) as nat)
                    == 10 * pow10(cnt as nat);
            lemma_pow10_increases((cnt + 1) as nat, 13);
        }
        facc = facc * 10 + d;
        cnt = cnt + 1;
        i = i + 1;
    }
    let ghost taken: int = cnt as int;
    proof {
        lemma_str_to_nat_nonneg(fp.take(taken));
        assert(pow10(0) == 1);
        assert(str_to_nat(fp.take(taken)) * 1 == str_to_nat(fp.take(taken)));
    }
    while cnt < 13
        invariant
            0 <= taken <= cnt <= 13,
            0 <= facc,
            fp =~= v@.subrange(from as int, v@.len() as int),
            facc == str_to_nat(fp.take(taken)) * pow10((cnt - taken) as nat),
            str_to_nat(fp.take(taken)) >= 0,
            facc < pow10(cnt as nat),
            pow10(13) == POW13,
        decreases 13 - cnt,
    {
        proof {
            let base = str_to_nat(fp.take(taken));
            assert(base * pow10((cnt - taken) as nat) * 10 == base * pow10(
                (cnt + 1 - taken) as nat,
            )) by (nonlinear_arith)
                requires pow10((cnt + 1 - taken) as nat) == 10 * pow10((cnt - taken) as nat);
            assert(facc * 10 < pow10((cnt + 1) as nat)) by (nonlinear_arith)
                requires 0 <= facc < pow10(cnt as nat) && pow10((cnt + 1) as nat) == 10 * pow10(
                    cnt as nat,
                );
            lemma_pow10_increases((cnt + 1) as nat, 13);
        }
        facc = facc * 10;
        cnt = cnt + 1;
    }
    proof {
        if fp.len() >= 13 {
            assert(taken == 13);
            assert(fp.take(13) =~= frac13_of(fp));
        } else {
            assert(taken == fp.len());
            assert(fp.take(taken) =~= fp);
            lemma_append_zeros(fp, (13 - fp.len()) as nat);
            assert(fp + Seq::new((13 - fp.len()) as nat, |i: int| '0') =~= frac13_of(fp));
        }
    }
    facc
}

/// Parse one decimal token into units of `1 / 10^13`.
pub fn parse13(s: &str) -> (r: Option<i128>)
    ensures
        r is Some <==> spec_parse13(s@) is Some,
        r is Some ==> r->0 as int == spec_parse13(s@)->0,
        r is Some ==> -9_000_000_000_000_000_000_000_000_000_000 <= r->0
            <= 9_000_000_000_000_000_000_000_000_000_000,
{
    let v = crate::strutil::to_char_vec(s);
    let n = v.len();
    let neg = n >= 1 && v[0] == '-';
    let b0: usize = if neg {
        1
    } else {
        0
    };
    let ghost body: Seq<char> = if neg {
        s@.drop_first()
    } else {
        s@
    };
    proof {
        assert(neg == (s@.len() >= 1 && s@[0] == '-'));
        assert(body =~= v@.skip(b0 as int));
        assert(spec_parse13(s@) is None <== !wf_number_body(body));
    }
    if n == b0 {
        return None;
    }
    // Scan the body: every character must be a digit or a single dot.
    let mut dots: usize = 0;
    let mut saw_digit = false;
    let mut dotpos: usize = n;
    let mut i: usize = b0;
    while i < n
        invariant
            b0 <= i <= n,
            n == v@.len(),
            body =~= v@.skip(b0 as int),
            dots <= i,
            forall|j: int| b0 <= j < i ==> is_digit(v@[j]) || v@[j] == '.',
            saw_digit <==> exists|j: int| b0 <= j < i && is_digit(v@[j]),
            dots == dot_count(body.take(i - b0)),
            !wf_number_body(body) ==> spec_parse13(s@) is None,
            dots == 0 <==> dotpos == n,
            dots == 0 ==> forall|j: int| b0 <= j < i ==> v@[j] != '.',
            dots >= 1 ==> b0 <= dotpos < i && v@[dotpos as int] == '.' && forall|j: int|
                b0 <= j < dotpos ==> v@[j] != '.',
        decreases n - i,
    {
        let c = v[i];
        proof {
            assert(body[i - b0] == v@[i as int]);
            assert(body.take(i + 1 - b0) =~= body.take(i - b0).push(v@[i as int]));
            lemma_dot_count_push(body.take(i - b0), v@[i as int]);
        }
        if exec_is_digit(c) {
            saw_digit = true;
        } else if c == '.' {
            if dots == 0 {
                dotpos = i;
            }
            dots = dots + 1;
        } else {
            proof {
                assert(!wf_number_body(body)) by {
                    assert(0 <= i - b0 < body.len());
                    assert(!(is_digit(body[i - b0]) || body[i - b0] == '.'));
                }
            }
            return None;
        }
        i = i + 1;
    }
    proof {
        assert(body.take(n - b0) =~= body);
    }
    if dots > 1 {
        proof {
            assert(!wf_number_body(body));
        }
        return None;
    }
    if !saw_digit {
        proof {
            assert forall|j: int| 0 <= j < body.len() implies !is_digit(body[j]) by {
                assert(body[j] == v@[j + b0]);
            }
            assert(!has_digit(body));
            assert(!wf_number_body(body));
        }
        return None;
    }
    proof {
        assert(has_digit(body)) by {
            let j = choose|j: int| b0 <= j < n && is_digit(v@[j]);
            assert(body[j - b0] == v@[j]);
        }
        assert(wf_number_body(body));
        if dots == 0 {
            assert forall|j: int| 0 <= j < body.len() implies body[j] != '.' by {
                assert(body[j] == v@[j + b0]);
            }
            lemma_dot_pos_none(body);
        } else {
            assert forall|j: int| 0 <= j < dotpos - b0 implies body[j] != '.' by {
                assert(body[j] == v@[j + b0]);
            }
            lemma_dot_pos_at(body, dotpos - b0);
        }
        assert(dot_pos(body) == dotpos - b0);
    }
    // The integer part, accumulated with saturation above the cap.
    proof {
        assert(v@.subrange(b0 as int, dotpos as int) =~= body.take(dot_pos(body)));
        assert forall|j: int| b0 <= j < dotpos implies is_digit(v@[j]) by {
            assert(is_digit(v@[j]) || v@[j] == '.');
            assert(v@[j] != '.');
        }
    }
    let acc = scan_int_sat(&v, b0, dotpos);
    if acc > INT_CAP {
        return None;
    }
    // The fractional part.
    let fstart: usize = if dotpos < n {
        dotpos + 1
    } else {
        n
    };
    proof {
        if dot_pos(body) < body.len() {
            assert(v@.subrange(fstart as int, n as int) =~= body.skip(dot_pos(body) + 1));
        } else {
            assert(v@.subrange(fstart as int, n as int) =~= Seq::<char>::empty());
        }
        assert(frac13_of(v@.subrange(fstart as int, n as int)) =~= frac13_digits(body));
        // After the single dot every character is a digit.
        assert forall|j: int| fstart <= j < n implies is_digit(v@[j]) by {
            assert(is_digit(v@[j]) || v@[j] == '.');
            if v@[j] == '.' {
                lemma_dot_count_two(body, dotpos - b0, j - b0);
            }
        }
    }
    let facc = scan_frac13(&v, fstart);
    proof {
        assert(0 <= acc as i128 * POW13 <= 8_000_000_000_000_000_000_000_000_000_000)
            by (nonlinear_arith)
            requires 0 <= acc <= 800_000_000_000_000_000 && POW13 == 10_000_000_000_000;
    }
    let val: i128 = acc as i128 * POW13 + facc as i128;
    if neg {
        Some(-val)
    } else {
        Some(val)
    }
}

/// Division truncated toward zero, the semantics of the machine division
/// used on possibly negative values.
pub open spec fn tdiv(a: int, b: int) -> int {
    if a >= 0 {
        a / b
    } else {
        -((-a) / b)
    }
}

/// Truncated division on machine integers.
pub fn tdiv_i128(a: i128, b: i128) -> (r: i128)
    requires
        b > 0,
        a > i128::MIN,
    ensures
        r == tdiv(a as int, b as int),
{
    if a >= 0 {
        a / b
    } else {
        -((-a) / b)
    }
}

/// The digit character of a value below ten.
fn exec_digit_char(d: u64) -> (c: char)
    requires
        d < 10,
    ensures
        c == digit_char(d as int),
{
    let b: u8 = 48 + (d as u8);
    b as char
}

/// Append the decimal digits of `n`.
fn push_nat_digits(s: &mut String, n: u64)
    ensures
        final(s)@ == old(s)@ + nat_digits(n as int),
    decreases n,
{
    if n >= 10 {
        push_nat_digits(s, n / 10);
    }
    let c = exec_digit_char(n % 10);
    crate::strutil::push_char(s, c);
    proof {
        if n < 10 {
            assert(old(s)@ + nat_digits(n as int) =~= old(s)@.push(digit_char(n as int)));
        } else {
            assert(old(s)@ + nat_digits(n as int) =~= (old(s)@ + nat_digits(
                n as int / 10,
            )).push(digit_char(n as int % 10)));
        }
    }
}

/// Append exactly `nd` zero-padded digits of `f mod 10^nd`.
fn push_pad_digits(s: &mut String, f: u64, nd: usize)
    ensures
        final(s)@ == old(s)@ + pad_digits(f as int, nd as nat),
    decreases nd,
{
    if nd > 0 {
        push_pad_digits(s, f / 10, nd - 1);
        let c = exec_digit_char(f % 10);
        crate::strutil::push_char(s, c);
        proof {
            assert(old(s)@ + pad_digits(f as int, nd as nat) =~= (old(s)@ + pad_digits(
                f as int / 10,
                (nd - 1) as nat,
            )).push(digit_char(f as int % 10)));
        }
    } else {
        proof {
            assert(old(s)@ + pad_digits(f as int, 0) =~= old(s)@);
        }
    }
}

/// Render a fixed-point value in working-scale units.
pub fn format_units(v: i64) -> (r: String)
    ensures
        r@ == spec_format_units(v as int),
{
    let neg = v < 0;
    let n: u64 = if neg {
        (-(v as i128)) as u64
    } else {
        v as u64
    };
    let mut s = String::new();
    if neg {
        crate::strutil::push_char(&mut s, '-');
    }
    let ghost s0 = s@;
    push_nat_digits(&mut s, n / (crate::numeric::SCALE as u64));
    crate::strutil::push_char(&mut s, '.');
    push_pad_digits(&mut s, n % (crate::numeric::SCALE as u64), 12);
    proof {
        let sign: Seq<char> = if v < 0 {
            seq!['-']
        } else {
            Seq::empty()
        };
        assert(s0 =~= sign);
        assert(s@ =~= spec_format_units(v as int));
    }
    s
}

/// Render half of a fixed-point value, with thirteen fractional digits.
pub fn format_half(nv: i128) -> (r: String)
    requires
        -1_600_000_000_000_000_000_000_000_000_000 <= nv
            <= 1_600_000_000_000_000_000_000_000_000_000,
    ensures
        r@ == spec_format_half(nv as int),
{
    let neg = nv < 0;
    let m: u128 = if neg {
        (-nv) as u128
    } else {
        nv as u128
    };
    let v13: u128 = 5 * m;
    let mut s = String::new();
    if neg {
        crate::strutil::push_char(&mut s, '-');
    }
    let ghost s0 = s@;
    push_nat_digits(&mut s, (v13 / (POW13 as u128)) as u64);
    crate::strutil::push_char(&mut s, '.');
    push_pad_digits(&mut s, (v13 % (POW13 as u128)) as u64, 13);
    proof {
        let sign: Seq<char> = if nv < 0 {
            seq!['-']
        } else {
            Seq::empty()
        };
        assert(s0 =~= sign);
        assert(s@ =~= spec_format_half(nv as int));
    }
    s
}

/// Render a signed integer.
pub fn format_int(v: i64) -> (r: String)
    requires
        v > i64::MIN,
    ensures
        r@ == spec_format_int(v as int),
{
    let neg = v < 0;
    let n: u64 = if neg {
        (-v) as u64
    } else {
        v as u64
    };
    let mut s = String::new();
    if neg {
        crate::strutil::push_char(&mut s, '-');
    }
    let ghost s0 = s@;
    push_nat_digits(&mut s, n);
    proof {
        let sign: Seq<char> = if v < 0 {
            seq!['-']
        } else {
            Seq::empty()
        };
        assert(s0 =~= sign);
        assert(s@ =~= spec_format_int(v as int));
    }
    s
}

/// Parse a label token.
pub fn parse_label(s: &str) -> (r: Option<i8>)
    ensures
        r == spec_parse_label(s@),
{
    let v = crate::strutil::to_char_vec(s);
    let n = v.len();
    let signed = n >= 1 && (v[0] == '-' || v[0] == '+');
    let neg = n >= 1 && v[0] == '-';
    let b0: usize = if signed {
        1
    } else {
        0
    };
    let ghost body: Seq<char> = if signed {
        s@.drop_first()
    } else {
        s@
    };
    proof {
        assert(body =~= v@.skip(b0 as int));
    }
    if n == b0 {
        return None;
    }
    let mut i: usize = b0;
    while i < n
        invariant
            b0 <= i <= n,
            n == v@.len(),
            body =~= v@.skip(b0 as int),
            body == int_body(s@),
            !wf_int_token(s@) ==> spec_parse_label(s@) is None,
            forall|j: int| b0 <= j < i ==> is_digit(v@[j]),
        decreases n - i,
    {
        let c = v[i];
        if !exec_is_digit(c) {
            proof {
                assert(!is_digit(body[i - b0]));
                assert(!all_digits(body));
                assert(!wf_int_token(s@));
            }
            return None;
        }
        i = i + 1;
    }
    proof {
        assert forall|j: int| 0 <= j < body.len() implies is_digit(body[j]) by {
            assert(body[j] == v@[j + b0]);
        }
        assert(wf_int_token(s@));
        assert(v@.subrange(b0 as int, n as int) =~= body);
        lemma_str_to_nat_nonneg(body);
    }
    let acc = scan_int_sat(&v, b0, n);
    if neg {
        if acc <= 128 {
            Some((-acc) as i8)
        } else {
            None
        }
    } else {
        if acc <= 127 {
            Some(acc as i8)
        } else {
            None
        }
    }
}

/// A digit character carries its value and is neither a dot nor a sign.
pub proof fn lemma_digit_char_val(d: int)
    requires
        0 <= d <= 9,
    ensures
        digit_val(digit_char(d)) == d,
        is_digit(digit_char(d)),
        digit_char(d) != '.',
        digit_char(d) != '-',
{
}

/// The digits of a nonnegative number denote it, are nonempty and are
/// all digits.
pub proof fn lemma_nat_digits_facts(n: int)
    requires
        n >= 0,
    ensures
        str_to_nat(nat_digits(n)) == n,
        nat_digits(n).len() >= 1,
        all_digits(nat_digits(n)),
    decreases n,
{
    if n < 10 {
        lemma_digit_char_val(n);
        assert(nat_digits(n) =~= seq![digit_char(n)]);
        assert(nat_digits(n).drop_last() =~= Seq::<char>::empty());
        assert(str_to_nat(Seq::<char>::empty()) == 0);
    } else {
        lemma_nat_digits_facts(n / 10);
        lemma_digit_char_val(n % 10);
        lemma_str_to_nat_push(nat_digits(n / 10), digit_char(n % 10));
        vstd::arithmetic::div_mod::lemma_fundamental_div_mod(n, 10);
        assert forall|i: int| 0 <= i < nat_digits(n).len() implies is_digit(
            nat_digits(n)[i],
        ) by {
            if i < nat_digits(n).len() - 1 {
                assert(nat_digits(n)[i] == nat_digits(n / 10)[i]);
            }
        }
    }
}

/// The padded digits of `f` denote `f mod 10^nd`, have length `nd` and
/// are all digits.
pub proof fn lemma_pad_digits_facts(f: int, nd: nat)
    requires
        f >= 0,
    ensures
        str_to_nat(pad_digits(f, nd)) == f % pow10(nd),
        pad_digits(f, nd).len() == nd,
        all_digits(pad_digits(f, nd)),
    decreases nd,
{
    if nd == 0 {
        assert(pow10(0) == 1);
    } else {
        lemma_pad_digits_facts(f / 10, (nd - 1) as nat);
        lemma_digit_char_val(f % 10);
        lemma_str_to_nat_push(pad_digits(f / 10, (nd - 1) as nat), digit_char(f % 10));
        lemma_pow10_pos((nd - 1) as nat);
        vstd::arithmetic::div_mod::lemma_mod_breakdown(f, 10, pow10((nd - 1) as nat));
        assert(pow10(nd) == 10 * pow10((nd - 1) as nat));
        assert forall|i: int| 0 <= i < pad_digits(f, nd).len() implies is_digit(
            pad_digits(f, nd)[i],
        ) by {
            if i < pad_digits(f, nd).len() - 1 {
                assert(pad_digits(f, nd)[i] == pad_digits(f / 10, (nd - 1) as nat)[i]);
            }
        }
    }
}

/// Dot counts add over concatenation.
pub proof fn lemma_dot_count_concat(a: Seq<char>, b: Seq<char>)
    ensures
        dot_count(a + b) == dot_count(a) + dot_count(b),
    decreases b.len(),
{
    if b.len() == 0 {
        assert(a + b =~= a);
    } else {
        assert((a + b).drop_last() =~= a + b.drop_last());
        assert((a + b).last() == b.last());
        lemma_dot_count_concat(a, b.drop_last());
    }
}

/// A digit string holds no dot.
pub proof fn lemma_all_digits_dot_count(s: Seq<char>)
    requires
        all_digits(s),
    ensures
        dot_count(s) == 0,
    decreases s.len(),
{
    if s.len() > 0 {
        assert(all_digits(s.drop_last())) by {
            assert(forall|i: int| 0 <= i < s.len() - 1 ==> s.drop_last()[i] == s[i]);
        }
        lemma_all_digits_dot_count(s.drop_last());
        assert(is_digit(s.last()));
    }
}

/// Parsing a formatted working-scale value gives it back, in units of
/// `1 / 10^13`.
pub proof fn lemma_parse_format_units(v: int)
    requires
        -(INT_CAP + 1) * (crate::numeric::SCALE as int) < v < (INT_CAP + 1) * (
        crate::numeric::SCALE as int),
    ensures
        spec_parse13(spec_format_units(v)) == Some(10 * v),
{
    let sc = crate::numeric::SCALE as int;
    let n = if v < 0 {
        -v
    } else {
        v
    };
    let d = nat_digits(n / sc);
    let f = pad_digits(n % sc, 12);
    let body = d + seq!['.'] + f;
    let s = spec_format_units(v);
    vstd::arithmetic::div_mod::lemma_fundamental_div_mod(n, sc);
    vstd::arithmetic::div_mod::lemma_div_pos_is_pos(n, sc);
    lemma_nat_digits_facts(n / sc);
    lemma_pad_digits_facts(n % sc, 12);
    lemma_pow10_vals();
    assert(n % sc < pow10(12));
    vstd::arithmetic::div_mod::lemma_small_mod((n % sc) as nat, pow10(12) as nat);
    assert(str_to_nat(f) == n % sc);
    // The token's sign and body.
    if v < 0 {
        assert(s =~= seq!['-'] + body);
        assert(s[0] == '-');
        assert(s.drop_first() =~= body);
    } else {
        assert(s =~= body);
        assert(s[0] == d[0]);
        assert(is_digit(d[0]));
        assert(s[0] != '-');
    }
    lemma_body_value(d, f, n / sc, n % sc, 12);
    // ipn <= INT_CAP from the magnitude bound.
    assert(n / sc <= INT_CAP) by {
        if n / sc >= INT_CAP + 1 {
            assert(sc * (n / sc) >= sc * (INT_CAP + 1)) by (nonlinear_arith)
                requires n / sc >= INT_CAP + 1 && sc > 0;
        }
    }
    // The denoted value is ten times v.
    assert((n / sc) * (POW13 as int) + str_to_nat(frac13_digits(body)) == 10 * n) by {
        assert(str_to_nat(frac13_digits(body)) == 10 * (n % sc));
        assert((n / sc) * (POW13 as int) == 10 * (sc * (n / sc))) by (nonlinear_arith)
            requires (POW13 as int) == 10 * sc;
    }
}

/// Structure of a formatted body: it is well formed, its dot sits right
/// after the integer digits, and its parts denote the given values.
#[verifier::rlimit(50)]
proof fn lemma_body_value(d: Seq<char>, f: Seq<char>, ip: int, fr: int, ndf: nat)
    requires
        d == nat_digits(ip),
        f == pad_digits(fr, ndf),
        ip >= 0,
        fr >= 0,
        ndf == 12 || ndf == 13,
    ensures
        wf_number_body(d + seq!['.'] + f),
        dot_pos(d + seq!['.'] + f) == d.len(),
        str_to_nat((d + seq!['.'] + f).take(dot_pos(d + seq!['.'] + f))) == ip,
        str_to_nat(frac13_digits(d + seq!['.'] + f)) == if ndf == 12 {
            10 * (fr % pow10(12))
        } else {
            fr % pow10(13)
        },
{
    let body = d + seq!['.'] + f;
    lemma_nat_digits_facts(ip);
    lemma_pad_digits_facts(fr, ndf);
    // Every character is a digit or the single dot.
    assert forall|i: int| 0 <= i < body.len() implies is_digit(body[i]) || body[i] == '.' by {
        if i < d.len() {
            assert(body[i] == d[i]);
        } else if i == d.len() {
            assert(body[i] == '.');
        } else {
            assert(body[i] == f[i - d.len() - 1]);
        }
    }
    lemma_all_digits_dot_count(d);
    lemma_all_digits_dot_count(f);
    lemma_dot_count_concat(d + seq!['.'], f);
    lemma_dot_count_concat(d, seq!['.']);
    assert(dot_count(seq!['.']) == 1) by {
        assert(seq!['.'].drop_last() =~= Seq::<char>::empty());
        assert(dot_count(Seq::<char>::empty()) == 0);
    }
    assert(dot_count(body) == 1);
    assert(has_digit(body)) by {
        assert(body[0] == d[0]);
        assert(is_digit(body[0]));
    }
    assert(wf_number_body(body));
    lemma_dot_pos_at(body, d.len() as int);
    assert(body.take(d.len() as int) =~= d);
    let fp = body.skip(d.len() as int + 1);
    assert(fp =~= f);
    if ndf == 12 {
        lemma_append_zeros(f, 1);
        assert(frac13_digits(body) =~= f + Seq::new(1, |i: int| '0'));
        assert(pow10(0) == 1);
        assert(pow10(1) == 10);
        assert(str_to_nat(frac13_digits(body)) == str_to_nat(f) * 10);
        assert(str_to_nat(f) == fr % pow10(12));
        assert(str_to_nat(frac13_digits(d + seq!['.'] + f)) == 10 * (fr % pow10(12)));
    } else {
        assert(frac13_digits(body) =~= f);
        assert(str_to_nat(frac13_digits(d + seq!['.'] + f)) == fr % pow10(13));
    }
}

/// Parsing a formatted halved value gives five times the value, in units
/// of `1 / 10^13`.
pub proof fn lemma_parse_format_half(nv: int)
    requires
        -1_600_000_000_000_000_000_000_000_000_000 <= nv
            <= 1_600_000_000_000_000_000_000_000_000_000,
    ensures
        spec_parse13(spec_format_half(nv)) == Some(5 * nv),
{
    let p13 = POW13 as int;
    let m = if nv < 0 {
        -nv
    } else {
        nv
    };
    let v13 = 5 * m;
    let d = nat_digits(v13 / p13);
    let f = pad_digits(v13 % p13, 13);
    let body = d + seq!['.'] + f;
    let s = spec_format_half(nv);
    vstd::arithmetic::div_mod::lemma_fundamental_div_mod(v13, p13);
    vstd::arithmetic::div_mod::lemma_div_pos_is_pos(v13, p13);
    lemma_nat_digits_facts(v13 / p13);
    lemma_pad_digits_facts(v13 % p13, 13);
    lemma_pow10_vals();
    vstd::arithmetic::div_mod::lemma_small_mod((v13 % p13) as nat, pow10(13) as nat);
    if nv < 0 {
        assert(s =~= seq!['-'] + body);
        assert(s[0] == '-');
        assert(s.drop_first() =~= body);
    } else {
        assert(s =~= body);
        assert(s[0] == d[0]);
        assert(is_digit(d[0]));
        assert(s[0] != '-');
    }
    lemma_body_value(d, f, v13 / p13, v13 % p13, 13);
    assert(v13 / p13 <= INT_CAP) by {
        if v13 / p13 >= INT_CAP + 1 {
            assert(p13 * (v13 / p13) >= p13 * (INT_CAP + 1)) by (nonlinear_arith)
                requires v13 / p13 >= INT_CAP + 1 && p13 > 0;
        }
    }
    assert((v13 / p13) * p13 + str_to_nat(frac13_digits(body)) == v13) by {
        assert(str_to_nat(frac13_digits(body)) == v13 % p13);
        assert((v13 / p13) * p13 == p13 * (v13 / p13)) by (nonlinear_arith);
    }
}

/// Powers of ten are positive.
pub proof fn lemma_pow10_pos(k: nat)
    ensures
        pow10(k) >= 1,
    decreases k,
{
    if k > 0 {
        lemma_pow10_pos((k - 1) as nat);
        assert(10 * pow10((k - 1) as nat) >= pow10((k - 1) as nat)) by (nonlinear_arith)
            requires pow10((k - 1) as nat) >= 1;
    }
}

/// Powers of ten grow with the exponent.
pub proof fn lemma_pow10_increases(a: nat, b: nat)
    requires
        a <= b,
    ensures
        1 <= pow10(a) <= pow10(b),
    decreases b,
{
    lemma_pow10_pos(a);
    if a < b {
        lemma_pow10_increases(a, (b - 1) as nat);
        assert(pow10(b) == 10 * pow10((b - 1) as nat));
        assert(pow10((b - 1) as nat) <= 10 * pow10((b - 1) as nat)) by (nonlinear_arith)
            requires pow10((b - 1) as nat) >= 1;
    }
}

} // verus!
