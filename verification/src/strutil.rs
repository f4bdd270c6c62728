//! Small string helpers: turning a character into a one-character string,
//! and the lexicographic order on strings that the feature vocabulary is
//! sorted by.

use vstd::prelude::*;

verus! {

broadcast use vstd::utf8::char_u32_cast;

/// Relies on `String::push`: appending one character appends exactly that
/// character to the string's character sequence.
#[verifier::external_body]
pub fn push_char(s: &mut String, c: char)
    ensures
        final(s)@ == old(s)@.push(c),
{
    s.push(c);
}

/// The one-character string holding `c`.
pub fn char_to_string(c: char) -> (r: String)
    ensures
        r@ =~= seq![c],
{
    let mut s = String::new();
    push_char(&mut s, c);
    s
}

/// The characters of a string, as a vector.
pub fn to_char_vec(s: &str) -> (r: Vec<char>)
    ensures
        r@ == s@,
{
    let n = s.unicode_len();
    let mut r: Vec<char> = Vec::new();
    let mut i: usize = 0;
    while i < n
        invariant
            n == s@.len(),
            0 <= i <= n,
            r@ =~= s@.take(i as int),
        decreases n - i,
    {
        let c = s.get_char(i);
        r.push(c);
        proof {
            assert(s@.take(i + 1) =~= s@.take(i as int).push(s@[i as int]));
        }
        i += 1;
    }
    proof {
        assert(s@.take(n as int) =~= s@);
    }
    r
}

/// Strict lexicographic order on character sequences, by Unicode scalar
/// value.
pub open spec fn lex_lt(a: Seq<char>, b: Seq<char>) -> bool
    decreases a.len(),
{
    if b.len() == 0 {
        false
    } else if a.len() == 0 {
        true
    } else if (a[0] as u32) < (b[0] as u32) {
        true
    } else if (a[0] as u32) > (b[0] as u32) {
        false
    } else {
        lex_lt(a.drop_first(), b.drop_first())
    }
}

/// Reflexive lexicographic order.
pub open spec fn lex_le(a: Seq<char>, b: Seq<char>) -> bool {
    lex_lt(a, b) || a == b
}

/// The order is total: two sequences are ordered one way or the other, or
/// they are equal.
pub proof fn lemma_lex_total(a: Seq<char>, b: Seq<char>)
    ensures
        lex_lt(a, b) || lex_lt(b, a) || a == b,
    decreases a.len(),
{
    if b.len() == 0 || a.len() == 0 {
        if a.len() == b.len() {
            assert(a =~= b);
        }
    } else if (a[0] as u32) == (b[0] as u32) {
        vstd::utf8::char_u32_cast(a[0], a[0] as u32);
        vstd::utf8::char_u32_cast(b[0], b[0] as u32);
        assert(a[0] == b[0]);
        lemma_lex_total(a.drop_first(), b.drop_first());
        if a.drop_first() == b.drop_first() {
            assert(a =~= seq![a[0]] + a.drop_first());
            assert(b =~= seq![b[0]] + b.drop_first());
        }
    }
}

/// The order is irreflexive and asymmetric.
pub proof fn lemma_lex_asym(a: Seq<char>, b: Seq<char>)
    ensures
        !(lex_lt(a, b) && lex_lt(b, a)),
        !lex_lt(a, a),
    decreases a.len(),
{
    if a.len() > 0 && b.len() > 0 && (a[0] as u32) == (b[0] as u32) {
        lemma_lex_asym(a.drop_first(), b.drop_first());
    }
    if a.len() > 0 {
        lemma_lex_asym(a.drop_first(), a.drop_first());
    }
}

/// The order is transitive.
pub proof fn lemma_lex_trans(a: Seq<char>, b: Seq<char>, c: Seq<char>)
    requires
        lex_lt(a, b),
        lex_lt(b, c),
    ensures
        lex_lt(a, c),
    decreases a.len(),
{
    if c.len() == 0 {
        // lex_lt(b, c) would be false
    } else if a.len() == 0 {
        // lex_lt(a, c) holds directly
    } else {
        // b is nonempty since lex_lt(b, c) and lex_lt(a, b) with a nonempty
        if (a[0] as u32) == (b[0] as u32) && (b[0] as u32) == (c[0] as u32) {
            lemma_lex_trans(a.drop_first(), b.drop_first(), c.drop_first());
        }
    }
}

/// Compare two strings lexicographically; returns a negative ordering as
/// `true` in `lt`, equality in `eq`.
///
/// The result is encoded as an `i8`: -1 when `a` sorts before `b`, 0 when
/// the two are equal, 1 when `a` sorts after `b`.
pub fn str_compare(a: &str, b: &str) -> (r: i8)
    ensures
        r == -1 <==> lex_lt(a@, b@),
        r == 0 <==> a@ == b@,
        r == 1 <==> lex_lt(b@, a@),
{
    proof {
        lemma_lex_asym(a@, b@);
        lemma_lex_asym(a@, a@);
        assert(a@.skip(0) =~= a@);
        assert(b@.skip(0) =~= b@);
    }
    let na = a.unicode_len();
    let nb = b.unicode_len();
    let mut i: usize = 0;
    loop
        invariant
            na == a@.len(),
            nb == b@.len(),
            0 <= i <= na,
            0 <= i <= nb,
            a@.subrange(0, i as int) =~= b@.subrange(0, i as int),
            lex_lt(a@, b@) <==> lex_lt(a@.skip(i as int), b@.skip(i as int)),
            lex_lt(b@, a@) <==> lex_lt(b@.skip(i as int), a@.skip(i as int)),
            !(lex_lt(a@, b@) && lex_lt(b@, a@)),
            a@ == b@ ==> !lex_lt(a@, b@) && !lex_lt(b@, a@),
        decreases na - i,
    {
        if i == na && i == nb {
            proof {
                assert(a@ =~= a@.subrange(0, i as int));
                assert(b@ =~= b@.subrange(0, i as int));
                assert(a@ =~= b@);
            }
            return 0;
        }
        if i == na {
            // `a` is a proper prefix of `b`
            proof {
                assert(a@.skip(i as int).len() == 0);
                assert(b@.skip(i as int).len() > 0);
                assert(lex_lt(a@.skip(i as int), b@.skip(i as int)));
            }
            return -1;
        }
        if i == nb {
            proof {
                assert(b@.skip(i as int).len() == 0);
                assert(a@.skip(i as int).len() > 0);
                assert(lex_lt(b@.skip(i as int), a@.skip(i as int)));
            }
            return 1;
        }
        let ca = a.get_char(i);
        let cb = b.get_char(i);
        proof {
            assert(a@.skip(i as int)[0] == a@[i as int]);
            assert(b@.skip(i as int)[0] == b@[i as int]);
        }
        if (ca as u32) < (cb as u32) {
            proof {
                assert(lex_lt(a@.skip(i as int), b@.skip(i as int)));
            }
            return -1;
        }
        if (ca as u32) > (cb as u32) {
            proof {
                assert(lex_lt(b@.skip(i as int), a@.skip(i as int)));
            }
            return 1;
        }
        proof {
            assert(a@.skip(i as int).drop_first() =~= a@.skip(i + 1));
            assert(b@.skip(i as int).drop_first() =~= b@.skip(i + 1));
            assert(a@.subrange(0, i + 1) =~= b@.subrange(0, i + 1));
        }
        i += 1;
    }
}

/// Whether `a` sorts strictly before `b`.
pub fn str_lt(a: &str, b: &str) -> (r: bool)
    ensures
        r == lex_lt(a@, b@),
{
    str_compare(a, b) == -1
}

/// Whether the two strings are equal.
pub fn str_eq(a: &str, b: &str) -> (r: bool)
    ensures
        r == (a@ == b@),
{
    str_compare(a, b) == 0
}

/// Whether `c` separates tokens: a space, tab, carriage return or line
/// feed.
pub open spec fn is_space(c: char) -> bool {
    c == ' ' || c == '\t' || c == '\r' || c == '\n'
}

/// The tokens of a string: maximal runs of non-space characters.
pub open spec fn split_ws(s: Seq<char>) -> Seq<Seq<char>>
    decreases s.len(),
{
    if s.len() == 0 {
        seq![]
    } else if is_space(s[0]) {
        split_ws(s.drop_first())
    } else if s.len() == 1 || is_space(s[1]) {
        seq![seq![s[0]]] + split_ws(s.drop_first())
    } else {
        let r = split_ws(s.drop_first());
        seq![seq![s[0]] + r[0]] + r.drop_first()
    }
}

/// A maximal non-space run is the first token, and the rest of the
/// string splits independently.
pub proof fn lemma_split_run(s: Seq<char>, k: int)
    requires
        0 < k <= s.len(),
        forall|j: int| 0 <= j < k ==> !is_space(s[j]),
        k < s.len() ==> is_space(s[k]),
    ensures
        split_ws(s) == seq![s.take(k)] + split_ws(s.skip(k)),
    decreases k,
{
    if k == 1 {
        if s.len() == 1 {
            assert(s.skip(1) =~= s.drop_first());
            assert(s.take(1) =~= seq![s[0]]);
        } else {
            assert(is_space(s[1]));
            assert(s.skip(1) =~= s.drop_first());
            assert(s.take(1) =~= seq![s[0]]);
        }
    } else {
        let t = s.drop_first();
        assert(forall|j: int| 0 <= j < k - 1 ==> t[j] == s[j + 1]);
        lemma_split_run(t, k - 1);
        assert(!is_space(s[1])) by {
            assert(s[1] == t[0]);
        }
        let r = split_ws(t);
        assert(r == seq![t.take(k - 1)] + split_ws(t.skip(k - 1)));
        assert(r[0] == t.take(k - 1));
        assert(seq![s[0]] + r[0] =~= s.take(k));
        assert(r.drop_first() =~= split_ws(t.skip(k - 1)));
        assert(t.skip(k - 1) =~= s.skip(k));
    }
}

/// Whether `c` is a token separator.
pub fn exec_is_space(c: char) -> (b: bool)
    ensures
        b == is_space(c),
{
    c == ' ' || c == '\t' || c == '\r' || c == '\n'
}

/// Build a string from a range of a character vector.
pub fn string_of_range(v: &Vec<char>, from: usize, to: usize) -> (r: String)
    requires
        from <= to <= v.len(),
    ensures
        r@ == v@.subrange(from as int, to as int),
{
    let mut s = String::new();
    let mut i: usize = from;
    while i < to
        invariant
            from <= i <= to <= v.len(),
            s@ =~= v@.subrange(from as int, i as int),
        decreases to - i,
    {
        push_char(&mut s, v[i]);
        proof {
            assert(v@.subrange(from as int, i + 1) =~= v@.subrange(from as int, i as int).push(
                v@[i as int],
            ));
        }
        i = i + 1;
    }
    s
}

/// Split a string into its whitespace-separated tokens.
pub fn exec_split_ws(s: &str) -> (r: Vec<String>)
    ensures
        r.deep_view() == split_ws(s@),
{
    let v = crate::strutil::to_char_vec(s);
    let n = v.len();
    let mut r: Vec<String> = Vec::new();
    let mut i: usize = 0;
    proof {
        assert(s@.skip(0) =~= s@);
        assert(r.deep_view() =~= Seq::<Seq<char>>::empty());
        assert(Seq::<Seq<char>>::empty() + split_ws(s@) =~= split_ws(s@));
    }
    while i < n
        invariant
            0 <= i <= n,
            n == v@.len(),
            v@ == s@,
            split_ws(s@) == r.deep_view() + split_ws(s@.skip(i as int)),
        decreases n - i,
    {
        let c = v[i];
        if exec_is_space(c) {
            proof {
                assert(s@.skip(i as int).drop_first() =~= s@.skip(i + 1));
            }
            i = i + 1;
        } else {
            // Find the end of the current token.
            let start = i;
            let mut j = i;
            let mut done = false;
            while !done
                invariant
                    start <= j <= n,
                    n == v@.len(),
                    v@ == s@,
                    forall|k: int| start <= k < j ==> !is_space(s@[k]),
                    done ==> j == n || is_space(s@[j as int]),
                decreases n - j + (if done {
                    0int
                } else {
                    1int
                }),
            {
                if j >= n {
                    done = true;
                } else {
                    let cj = v[j];
                    if exec_is_space(cj) {
                        done = true;
                    } else {
                        j = j + 1;
                    }
                }
            }
            proof {
                let rest = s@.skip(start as int);
                assert(forall|k: int| 0 <= k < rest.len() ==> rest[k] == s@[k + start]);
                lemma_split_run(rest, j - start);
                assert(rest.take(j - start) =~= s@.subrange(start as int, j as int));
                assert(rest.skip(j - start) =~= s@.skip(j as int));
            }
            let w = string_of_range(&v, start, j);
            let ghost prev = r.deep_view();
            let ghost tok = s@.subrange(start as int, j as int);
            r.push(w);
            proof {
                assert(r.deep_view() =~= prev.push(tok));
                assert(prev + (seq![tok] + split_ws(s@.skip(j as int))) =~= prev.push(tok)
                    + split_ws(s@.skip(j as int)));
            }
            i = j;
        }
    }
    proof {
        assert(s@.skip(n as int) =~= Seq::<char>::empty());
        assert(split_ws(Seq::<char>::empty()) =~= Seq::<Seq<char>>::empty());
        assert(r.deep_view() + Seq::<Seq<char>>::empty() =~= r.deep_view());
    }
    r
}

/// The tokens of a string separated by single spaces only, empty pieces
/// dropped: maximal runs of non-space characters.
pub open spec fn split_sp(s: Seq<char>) -> Seq<Seq<char>>
    decreases s.len(),
{
    if s.len() == 0 {
        seq![]
    } else if s[0] == ' ' {
        split_sp(s.drop_first())
    } else if s.len() == 1 || s[1] == ' ' {
        seq![seq![s[0]]] + split_sp(s.drop_first())
    } else {
        let r = split_sp(s.drop_first());
        seq![seq![s[0]] + r[0]] + r.drop_first()
    }
}

/// A maximal non-space run is the first token of the space split.
pub proof fn lemma_split_sp_run(s: Seq<char>, k: int)
    requires
        0 < k <= s.len(),
        forall|j: int| 0 <= j < k ==> s[j] != ' ',
        k < s.len() ==> s[k] == ' ',
    ensures
        split_sp(s) == seq![s.take(k)] + split_sp(s.skip(k)),
    decreases k,
{
    if k == 1 {
        if s.len() == 1 {
            assert(s.skip(1) =~= s.drop_first());
            assert(s.take(1) =~= seq![s[0]]);
        } else {
            assert(s[1] == ' ');
            assert(s.skip(1) =~= s.drop_first());
            assert(s.take(1) =~= seq![s[0]]);
        }
    } else {
        let t = s.drop_first();
        assert(forall|j: int| 0 <= j < k - 1 ==> t[j] == s[j + 1]);
        lemma_split_sp_run(t, k - 1);
        assert(s[1] != ' ') by {
            assert(s[1] == t[0]);
        }
        let r = split_sp(t);
        assert(r == seq![t.take(k - 1)] + split_sp(t.skip(k - 1)));
        assert(r[0] == t.take(k - 1));
        assert(seq![s[0]] + r[0] =~= s.take(k));
        assert(r.drop_first() =~= split_sp(t.skip(k - 1)));
        assert(t.skip(k - 1) =~= s.skip(k));
    }
}

/// Split a string on single spaces, dropping empty pieces.
pub fn exec_split_sp(s: &str) -> (r: Vec<String>)
    ensures
        r.deep_view() == split_sp(s@),
{
    let v = crate::strutil::to_char_vec(s);
    let n = v.len();
    let mut r: Vec<String> = Vec::new();
    let mut i: usize = 0;
    proof {
        assert(s@.skip(0) =~= s@);
        assert(r.deep_view() =~= Seq::<Seq<char>>::empty());
        assert(Seq::<Seq<char>>::empty() + split_sp(s@) =~= split_sp(s@));
    }
    while i < n
        invariant
            0 <= i <= n,
            n == v@.len(),
            v@ == s@,
            split_sp(s@) == r.deep_view() + split_sp(s@.skip(i as int)),
        decreases n - i,
    {
        let c = v[i];
        if c == ' ' {
            proof {
                assert(s@.skip(i as int).drop_first() =~= s@.skip(i + 1));
            }
            i = i + 1;
        } else {
            let start = i;
            let mut j = i;
            let mut done = false;
            while !done
                invariant
                    start <= j <= n,
                    n == v@.len(),
                    v@ == s@,
                    forall|k: int| start <= k < j ==> s@[k] != ' ',
                    done ==> j == n || s@[j as int] == ' ',
                decreases n - j + (if done {
                    0int
                } else {
                    1int
                }),
            {
                if j >= n {
                    done = true;
                } else {
                    let cj = v[j];
                    if cj == ' ' {
                        done = true;
                    } else {
                        j = j + 1;
                    }
                }
            }
            proof {
                let rest = s@.skip(start as int);
                assert(forall|k: int| 0 <= k < rest.len() ==> rest[k] == s@[k + start]);
                lemma_split_sp_run(rest, j - start);
                assert(rest.take(j - start) =~= s@.subrange(start as int, j as int));
                assert(rest.skip(j - start) =~= s@.skip(j as int));
            }
            let w = string_of_range(&v, start, j);
            let ghost prev = r.deep_view();
            let ghost tok = s@.subrange(start as int, j as int);
            r.push(w);
            proof {
                assert(r.deep_view() =~= prev.push(tok));
                assert(prev + (seq![tok] + split_sp(s@.skip(j as int))) =~= prev.push(tok)
                    + split_sp(s@.skip(j as int)));
            }
            i = j;
        }
    }
    proof {
        assert(s@.skip(n as int) =~= Seq::<char>::empty());
        assert(split_sp(Seq::<char>::empty()) =~= Seq::<Seq<char>>::empty());
        assert(r.deep_view() + Seq::<Seq<char>>::empty() =~= r.deep_view());
    }
    r
}

} // verus!
