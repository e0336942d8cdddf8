//! Unsigned decimal numbers, held exactly.
//!
//! A number literal is a run of digits, optionally followed by a dot and a
//! second run of digits. The number is kept as canonical text: the whole
//! part without superfluous leading zeros and the fraction without trailing
//! zeros, and without the dot where no fraction is left. No digit is lost
//! to rounding.

use vstd::prelude::*;
use crate::sexpr::text::{chars_of, push_chars};

verus! {

/// One of the ten digits `0` to `9`.
pub open spec fn is_digit(c: char) -> bool {
    '0' <= c && c <= '9'
}

/// A non-empty run of digits.
pub open spec fn is_digits(s: Seq<char>) -> bool {
    s.len() > 0 && forall|i: int| 0 <= i < s.len() ==> is_digit(#[trigger] s[i])
}

/// The position of the first dot of `s`, or the length of `s` if it has none.
pub open spec fn dot_index(s: Seq<char>) -> int
    decreases s.len(),
{
    if s.len() == 0 || s[0] == '.' {
        0
    } else {
        1 + dot_index(s.drop_first())
    }
}

/// What stands before the first dot.
pub open spec fn whole_part(s: Seq<char>) -> Seq<char> {
    s.take(dot_index(s))
}

/// What stands after the first dot; empty if there is no dot.
pub open spec fn fraction_part(s: Seq<char>) -> Seq<char> {
    if dot_index(s) < s.len() {
        s.skip(dot_index(s) + 1)
    } else {
        Seq::empty()
    }
}

/// The number grammar: digits, or digits, a dot and digits.
pub open spec fn is_number(s: Seq<char>) -> bool {
    is_digits(whole_part(s)) && (dot_index(s) == s.len() || is_digits(fraction_part(s)))
}

/// `s` without its leading zeros, but for the last character.
pub open spec fn trim_leading_zeros(s: Seq<char>) -> Seq<char>
    decreases s.len(),
{
    if s.len() > 1 && s[0] == '0' {
        trim_leading_zeros(s.drop_first())
    } else {
        s
    }
}

/// `s` without its trailing zeros.
pub open spec fn trim_trailing_zeros(s: Seq<char>) -> Seq<char>
    decreases s.len(),
{
    if s.len() > 0 && s.last() == '0' {
        trim_trailing_zeros(s.drop_last())
    } else {
        s
    }
}

/// Whole part `whole` and fraction `fraction` written as one literal; the
/// dot is left out when the fraction is empty.
pub open spec fn join_parts(whole: Seq<char>, fraction: Seq<char>) -> Seq<char> {
    if fraction.len() > 0 {
        whole + seq!['.'] + fraction
    } else {
        whole
    }
}

/// The canonical text of the number that the literal `s` denotes.
pub open spec fn canonical(s: Seq<char>) -> Seq<char> {
    join_parts(trim_leading_zeros(whole_part(s)), trim_trailing_zeros(fraction_part(s)))
}

/// A number literal that is its own canonical text.
pub open spec fn is_canonical(s: Seq<char>) -> bool {
    is_number(s) && canonical(s) == s
}

/// The first dot lies within the text or at its end, with no dot before it.
pub proof fn lemma_dot_index(s: Seq<char>)
    ensures
        0 <= dot_index(s) <= s.len(),
        forall|i: int| 0 <= i < dot_index(s) ==> s[i] != '.',
        dot_index(s) < s.len() ==> s[dot_index(s)] == '.',
    decreases s.len(),
{
    if s.len() == 0 || s[0] == '.' {
    } else {
        let t = s.drop_first();
        lemma_dot_index(t);
        assert forall|i: int| 0 <= i < dot_index(s) implies s[i] != '.' by {
            if i > 0 {
                assert(s[i] == t[i - 1]);
            }
        }
        assert(dot_index(s) < s.len() ==> s[dot_index(s)] == t[dot_index(t)]);
    }
}

/// The first dot is where a dot stands with none before it.
pub proof fn lemma_dot_index_is(s: Seq<char>, p: int)
    requires
        0 <= p <= s.len(),
        forall|i: int| 0 <= i < p ==> s[i] != '.',
        p < s.len() ==> s[p] == '.',
    ensures
        dot_index(s) == p,
{
    lemma_dot_index(s);
    let d = dot_index(s);
    if d < p {
        assert(s[d] == '.');
    } else if p < d {
        assert(s[p] == '.');
    }
}

/// Trimming at the front drops the zeros before position `k`, where the
/// first other digit or the last digit stands.
pub proof fn lemma_trim_leading_zeros(s: Seq<char>, k: int)
    requires
        0 <= k < s.len(),
        forall|i: int| 0 <= i < k ==> s[i] == '0',
        k == s.len() - 1 || s[k] != '0',
    ensures
        trim_leading_zeros(s) == s.skip(k),
    decreases k,
{
    if k == 0 {
        assert(s.skip(0) =~= s);
    } else {
        let t = s.drop_first();
        assert(s[0] == '0');
        assert forall|i: int| 0 <= i < k - 1 implies t[i] == '0' by {
            assert(t[i] == s[i + 1]);
        }
        lemma_trim_leading_zeros(t, k - 1);
        assert(t.skip(k - 1) =~= s.skip(k));
    }
}

/// Trimming at the end drops the zeros from position `k` on, before which
/// another digit or nothing stands.
pub proof fn lemma_trim_trailing_zeros(s: Seq<char>, k: int)
    requires
        0 <= k <= s.len(),
        forall|i: int| k <= i < s.len() ==> s[i] == '0',
        k == 0 || s[k - 1] != '0',
    ensures
        trim_trailing_zeros(s) == s.take(k),
    decreases s.len() - k,
{
    if k == s.len() {
        assert(s.take(k) =~= s);
    } else {
        let t = s.drop_last();
        assert(s.last() == '0');
        lemma_trim_trailing_zeros(t, k);
        assert(t.take(k) =~= s.take(k));
    }
}

/// Canonical text is a number literal, and canonical once more.
pub proof fn lemma_canonical_is_canonical(s: Seq<char>)
    requires
        is_number(s),
    ensures
        is_canonical(canonical(s)),
{
    lemma_dot_index(s);
    let w = whole_part(s);
    let f = fraction_part(s);
    let w2 = trim_leading_zeros(w);
    let f2 = trim_trailing_zeros(f);
    lemma_trimmed_whole(w);
    lemma_trimmed_fraction(f);
    let c = canonical(s);
    assert forall|i: int| 0 <= i < w2.len() implies w2[i] != '.' by {
        assert(is_digit(w2[i]));
    }
    if f2.len() > 0 {
        assert(c[w2.len() as int] == '.');
        lemma_dot_index_is(c, w2.len() as int);
        assert(whole_part(c) =~= w2);
        assert(fraction_part(c) =~= f2);
    } else {
        lemma_dot_index_is(c, w2.len() as int);
        assert(whole_part(c) =~= w2);
        assert(fraction_part(c) =~= f2);
    }
    lemma_trim_leading_zeros(w2, 0);
    assert(w2.skip(0) =~= w2);
    lemma_trim_trailing_zeros(f2, f2.len() as int);
    assert(f2.take(f2.len() as int) =~= f2);
}

/// Trimming a run of digits leaves a run of digits that starts with a zero
/// only if it is the single digit zero.
pub proof fn lemma_trimmed_whole(w: Seq<char>)
    requires
        is_digits(w),
    ensures
        is_digits(trim_leading_zeros(w)),
        trim_leading_zeros(w).len() == 1 || trim_leading_zeros(w)[0] != '0',
    decreases w.len(),
{
    if w.len() > 1 && w[0] == '0' {
        let t = w.drop_first();
        assert forall|i: int| 0 <= i < t.len() implies is_digit(#[trigger] t[i]) by {
            assert(t[i] == w[i + 1]);
        }
        lemma_trimmed_whole(t);
    }
}

/// Trimming digits at the end leaves digits, or nothing, and no zero at the
/// end.
pub proof fn lemma_trimmed_fraction(f: Seq<char>)
    requires
        f.len() == 0 || is_digits(f),
    ensures
        trim_trailing_zeros(f).len() == 0 || is_digits(trim_trailing_zeros(f)),
        trim_trailing_zeros(f).len() > 0 ==> trim_trailing_zeros(f).last() != '0',
    decreases f.len(),
{
    if f.len() > 0 && f.last() == '0' {
        let t = f.drop_last();
        assert forall|i: int| 0 <= i < t.len() implies is_digit(#[trigger] t[i]) by {
            assert(t[i] == f[i]);
        }
        lemma_trimmed_fraction(t);
    }
}

/// An unsigned decimal number in canonical text.
#[derive(Debug, PartialEq, Eq)]
pub struct Decimal {
    text: String,
}

impl View for Decimal {
    type V = Seq<char>;

    closed spec fn view(&self) -> Seq<char> {
        self.text@
    }
}

impl Clone for Decimal {
    fn clone(&self) -> (r: Self)
        ensures
            r@ == self@,
    {
        proof {
            use_type_invariant(self);
        }
        Decimal { text: self.text.clone() }
    }
}

/// Decides whether `c` is a digit.
pub fn is_digit_char(c: char) -> (b: bool)
    ensures
        b == is_digit(c),
{
    '0' <= c && c <= '9'
}

impl Decimal {
    #[verifier::type_invariant]
    spec fn holds_canonical_text(&self) -> bool {
        is_canonical(self.text@)
    }

    /// Reads a number literal. The result is `None` exactly when `chars` is
    /// not in the number grammar.
    pub fn from_chars(chars: &Vec<char>) -> (r: Option<Decimal>)
        ensures
            r is Some <==> is_number(chars@),
            r matches Some(d) ==> d@ == canonical(chars@),
    {
        let n = chars.len();
        let mut p: usize = 0;
        while p < n && is_digit_char(chars[p])
            invariant
                p <= n == chars.len(),
                forall|i: int| 0 <= i < p ==> is_digit(#[trigger] chars@[i]),
            decreases n - p,
        {
            p += 1;
        }
        proof {
            lemma_dot_index(chars@);
        }
        if p == 0 {
            assert(!is_number(chars@)) by {
                if dot_index(chars@) > 0 {
                    assert(whole_part(chars@)[0] == chars@[0]);
                }
            }
            return None;
        }
        if p < n && chars[p] != '.' {
            assert(!is_number(chars@)) by {
                let d = dot_index(chars@);
                if d < p {
                    assert(is_digit(chars@[d]));
                }
                assert(whole_part(chars@)[p as int] == chars@[p as int]);
            }
            return None;
        }
        proof {
            assert forall|i: int| 0 <= i < p implies chars@[i] != '.' by {
                assert(is_digit(chars@[i]));
            }
            lemma_dot_index_is(chars@, p as int);
            assert(whole_part(chars@) =~= chars@.take(p as int));
        }
        let mut e: usize = n;
        if p < n {
            let mut j: usize = p + 1;
            while j < n && is_digit_char(chars[j])
                invariant
                    p < j <= n == chars.len(),
                    forall|i: int| p < i < j ==> is_digit(#[trigger] chars@[i]),
                decreases n - j,
            {
                j += 1;
            }
            if j < n || j == p + 1 {
                assert(!is_number(chars@)) by {
                    if j < n {
                        assert(fraction_part(chars@)[j - p - 1] == chars@[j as int]);
                    }
                }
                return None;
            }
            assert(is_digits(fraction_part(chars@))) by {
                assert forall|i: int| 0 <= i < fraction_part(chars@).len() implies is_digit(
                    #[trigger] fraction_part(chars@)[i],
                ) by {
                    assert(fraction_part(chars@)[i] == chars@[i + p + 1]);
                }
            }
            while e > p + 1 && chars[e - 1] == '0'
                invariant
                    p < e <= n == chars.len(),
                    forall|i: int| e <= i < n ==> chars@[i] == '0',
                decreases e,
            {
                e -= 1;
            }
        }
        let mut start: usize = 0;
        while start + 1 < p && chars[start] == '0'
            invariant
                start < p <= chars.len(),
                forall|i: int| 0 <= i < start ==> chars@[i] == '0',
            decreases p - start,
        {
            start += 1;
        }
        let mut text = String::new();
        push_chars(&mut text, chars, start, p);
        if p < n && e > p + 1 {
            text.push('.');
            push_chars(&mut text, chars, p + 1, e);
        }
        proof {
            let s = chars@;
            let w = whole_part(s);
            let f = fraction_part(s);
            assert(is_number(s));
            lemma_trim_leading_zeros(w, start as int);
            assert(w.skip(start as int) =~= s.subrange(start as int, p as int));
            if p < n {
                assert forall|i: int| e - p - 1 <= i < f.len() implies f[i] == '0' by {
                    assert(f[i] == s[i + p + 1]);
                }
                lemma_trim_trailing_zeros(f, e - p - 1);
                assert(f.take(e - p - 1) =~= s.subrange(p + 1, e as int));
            } else {
                lemma_trim_trailing_zeros(f, 0);
                assert(f.take(0) =~= Seq::<char>::empty());
            }
            assert(text@ =~= canonical(s));
            lemma_canonical_is_canonical(s);
        }
        Some(Decimal { text })
    }

    /// Reads a number literal from a string slice.
    pub fn from_text(text: &str) -> (r: Option<Decimal>)
        ensures
            r is Some <==> is_number(text@),
            r matches Some(d) ==> d@ == canonical(text@),
    {
        let chars = chars_of(text);
        Decimal::from_chars(&chars)
    }

    /// The canonical text of the number.
    pub fn as_str(&self) -> (s: &str)
        ensures
            s@ == self@,
            is_canonical(self@),
    {
        proof {
            use_type_invariant(self);
        }
        self.text.as_str()
    }
}

} // verus!
