//! Verified text helpers over the characters of a string.

use vstd::prelude::*;
use vstd::utf8::{encode_scalar, encode_utf8};

verus! {

broadcast use vstd::string::group_string_axioms;

/// The characters of `s`, in order.
pub fn chars_of(s: &str) -> (r: Vec<char>)
    ensures
        r@ == s@,
{
    let mut out: Vec<char> = Vec::new();
    for c in it: s.chars()
        invariant
            out@ == it.seq().take(it.index()),
            it.seq() == s@,
    {
        out.push(c);
    }
    out
}

/// `String`'s `FromIterator<&char>` of std (`collect`): the string made of
/// the characters in order.
#[verifier::external_body]
pub(crate) fn string_of(chars: &Vec<char>) -> (s: String)
    ensures
        s@ == chars@,
{
    chars.iter().collect()
}

/// Whether `pat` occurs in `s` at position `i`.
pub open spec fn occurs_at(s: Seq<char>, pat: Seq<char>, i: int) -> bool {
    0 <= i && i + pat.len() <= s.len() && s.subrange(i, i + pat.len()) == pat
}

/// Whether `pat` occurs somewhere in `s` (what `str::contains` answers).
pub open spec fn has_infix(s: Seq<char>, pat: Seq<char>) -> bool {
    exists|i: int| #[trigger] occurs_at(s, pat, i)
}

/// `s` with every occurrence of `pat` replaced by `rep`, matched from left
/// to right without overlap (what `str::replace` does for a non-empty
/// pattern).
pub open spec fn replaced(s: Seq<char>, pat: Seq<char>, rep: Seq<char>) -> Seq<char>
    decreases s.len(),
{
    if pat.len() == 0 || s.len() < pat.len() {
        s
    } else if s.take(pat.len() as int) == pat {
        rep + replaced(s.skip(pat.len() as int), pat, rep)
    } else {
        seq![s[0]] + replaced(s.skip(1), pat, rep)
    }
}

/// Whether `pat` occurs in `s` at position `i`.
fn matches_at(s: &Vec<char>, pat: &Vec<char>, i: usize) -> (r: bool)
    requires
        i + pat@.len() <= s@.len(),
    ensures
        r == occurs_at(s@, pat@, i as int),
{
    let p = pat.len();
    let n = s.len();
    let mut j: usize = 0;
    while j < p
        invariant
            p == pat@.len(),
            n == s@.len(),
            i + p <= s@.len(),
            j <= p,
            forall|k: int| 0 <= k < j ==> s@[i + k] == pat@[k],
        decreases p - j,
    {
        if s[i + j] != pat[j] {
            proof {
                assert(s@.subrange(i as int, i + p)[j as int] != pat@[j as int]);
            }
            return false;
        }
        j = j + 1;
    }
    proof {
        assert(s@.subrange(i as int, i + p) =~= pat@);
    }
    true
}

/// Whether `pat` occurs in `s`.
pub fn contains(s: &Vec<char>, pat: &Vec<char>) -> (r: bool)
    ensures
        r == has_infix(s@, pat@),
{
    let n = s.len();
    let p = pat.len();
    if p > n {
        proof {
            assert forall|i: int| !#[trigger] occurs_at(s@, pat@, i) by {}
        }
        return false;
    }
    let mut i: usize = 0;
    loop
        invariant
            n == s@.len(),
            p == pat@.len(),
            p <= n,
            i <= n - p,
            forall|k: int| 0 <= k < i ==> !#[trigger] occurs_at(s@, pat@, k),
        ensures
            forall|k: int| 0 <= k <= n - p ==> !#[trigger] occurs_at(s@, pat@, k),
        decreases n - p - i,
    {
        if matches_at(s, pat, i) {
            return true;
        }
        if i == n - p {
            break;
        }
        i = i + 1;
    }
    proof {
        assert forall|k: int| !#[trigger] occurs_at(s@, pat@, k) by {
            if 0 <= k <= n - p {
            }
        }
    }
    false
}

/// `s` with every occurrence of the non-empty `pat` replaced by `rep`.
pub fn replace_all(s: &Vec<char>, pat: &Vec<char>, rep: &Vec<char>) -> (r: Vec<char>)
    requires
        pat@.len() > 0,
    ensures
        r@ == replaced(s@, pat@, rep@),
{
    let n = s.len();
    let p = pat.len();
    let mut out: Vec<char> = Vec::new();
    let mut i: usize = 0;
    proof {
        assert(s@.skip(0) =~= s@);
        assert(out@ + replaced(s@, pat@, rep@) =~= replaced(s@, pat@, rep@));
    }
    while i < n
        invariant
            n == s@.len(),
            p == pat@.len(),
            p > 0,
            i <= n,
            out@ + replaced(s@.skip(i as int), pat@, rep@) == replaced(s@, pat@, rep@),
        decreases n - i,
    {
        let ghost rest = s@.skip(i as int);
        if p <= n - i && matches_at(s, pat, i) {
            proof {
                assert(rest.take(p as int) =~= s@.subrange(i as int, i + p));
                assert(rest.skip(p as int) =~= s@.skip(i + p));
            }
            let ghost before = out@;
            let mut chunk = rep.clone();
            out.append(&mut chunk);
            proof {
                let tail = replaced(s@.skip(i + p), pat@, rep@);
                assert(out@ + tail =~= before + (rep@ + tail));
            }
            i = i + p;
        } else {
            proof {
                if rest.len() >= p {
                    assert(rest.take(p as int) =~= s@.subrange(i as int, i + p));
                }
                assert(rest.skip(1) =~= s@.skip(i + 1));
                assert(rest[0] == s@[i as int]);
            }
            let ghost before = out@;
            out.push(s[i]);
            proof {
                let tail = replaced(s@.skip(i + 1), pat@, rep@);
                if rest.len() < p {
                    assert(rest =~= seq![rest[0]] + rest.skip(1));
                }
                assert(replaced(rest, pat@, rep@) == seq![rest[0]] + tail);
                assert(out@ + tail =~= before + (seq![rest[0]] + tail));
            }
            i = i + 1;
        }
    }
    proof {
        assert(s@.skip(n as int) =~= Seq::<char>::empty());
        assert(out@ + Seq::<char>::empty() =~= out@);
    }
    out
}

/// The decimal digit character for `d` (0 to 9).
pub open spec fn digit_char(d: int) -> char {
    ((d + 48) as u8) as char
}

/// Decimal notation of `n`, without leading zeros.
pub open spec fn decimal(n: nat) -> Seq<char>
    decreases n,
{
    if n < 10 {
        seq![digit_char(n as int)]
    } else {
        decimal(n / 10).push(digit_char((n % 10) as int))
    }
}

/// Decimal notation of `n` padded on the left with `'0'` to at least two
/// characters (what the format `{:0>2}` writes).
pub open spec fn two_digits(n: nat) -> Seq<char> {
    if n < 10 {
        seq!['0'] + decimal(n)
    } else {
        decimal(n)
    }
}

/// Decimal notation of `n`.
pub fn decimal_of(n: u64) -> (r: Vec<char>)
    ensures
        r@ == decimal(n as nat),
    decreases n,
{
    let d: u8 = (n % 10) as u8;
    let c: char = (d + 48u8) as char;
    if n < 10 {
        let mut v: Vec<char> = Vec::new();
        v.push(c);
        v
    } else {
        let mut v = decimal_of(n / 10);
        v.push(c);
        v
    }
}

/// Decimal notation of `n`, padded with `'0'` to at least two characters.
pub fn two_digits_of(n: u64) -> (r: Vec<char>)
    ensures
        r@ == two_digits(n as nat),
{
    let mut digits = decimal_of(n);
    if n < 10 {
        let mut v: Vec<char> = Vec::new();
        v.push('0');
        v.append(&mut digits);
        v
    } else {
        digits
    }
}

/// UTF-8 encoding distributes over concatenation.
pub proof fn lemma_encode_utf8_concat(a: Seq<char>, b: Seq<char>)
    ensures
        encode_utf8(a + b) == encode_utf8(a) + encode_utf8(b),
    decreases a.len(),
{
    if a.len() == 0 {
        assert(a + b =~= b);
    } else {
        lemma_encode_utf8_concat(a.drop_first(), b);
        assert((a + b).drop_first() =~= a.drop_first() + b);
        assert((a + b)[0] == a[0]);
        assert(encode_utf8(a + b) =~= encode_scalar(a[0] as u32) + (encode_utf8(a.drop_first())
            + encode_utf8(b)));
    }
}

/// Number of bytes of the UTF-8 encoding of the characters (what `str::len`
/// gives for the string made of them).
pub fn utf8_byte_len(chars: &Vec<char>) -> (r: u128)
    ensures
        r == encode_utf8(chars@).len(),
{
    let n = chars.len();
    let mut total: u128 = 0;
    let mut i: usize = 0;
    while i < n
        invariant
            n == chars@.len(),
            i <= n,
            total == encode_utf8(chars@.take(i as int)).len(),
            total <= 4 * i,
        decreases n - i,
    {
        let c = chars[i];
        let u: u32 = c as u32;
        let w: u128 = if u <= 0x7f {
            1
        } else if u <= 0x7ff {
            2
        } else if u <= 0xffff {
            3
        } else {
            4
        };
        proof {
            let one = seq![c];
            lemma_encode_utf8_concat(chars@.take(i as int), one);
            assert(chars@.take(i + 1) =~= chars@.take(i as int) + one);
            assert(one.drop_first() =~= Seq::<char>::empty());
            assert(encode_utf8(one) =~= encode_scalar(c as u32) + encode_utf8(Seq::<char>::empty()));
            vstd::utf8::char_is_scalar(c);
        }
        total = total + w;
        i = i + 1;
    }
    proof {
        assert(chars@.take(n as int) =~= chars@);
    }
    total
}

/// Where the pattern does not occur, replacing changes nothing.
pub proof fn lemma_replaced_without_match(s: Seq<char>, pat: Seq<char>, rep: Seq<char>)
    requires
        !has_infix(s, pat),
    ensures
        replaced(s, pat, rep) == s,
    decreases s.len(),
{
    if pat.len() == 0 || s.len() < pat.len() {
    } else {
        assert(!occurs_at(s, pat, 0));
        assert(s.take(pat.len() as int) =~= s.subrange(0, pat.len() as int));
        let rest = s.skip(1);
        assert forall|i: int| !#[trigger] occurs_at(rest, pat, i) by {
            if occurs_at(rest, pat, i) {
                assert(rest.subrange(i, i + pat.len()) =~= s.subrange(i + 1, i + 1 + pat.len()));
                assert(occurs_at(s, pat, i + 1));
            }
        }
        lemma_replaced_without_match(rest, pat, rep);
        assert(s =~= seq![s[0]] + rest);
    }
}

/// Replacing a pattern by something no longer never lengthens the text, and
/// by something shorter shortens it wherever the pattern occurs.
pub proof fn lemma_replaced_len(s: Seq<char>, pat: Seq<char>, rep: Seq<char>)
    requires
        pat.len() > 0,
        rep.len() <= pat.len(),
    ensures
        replaced(s, pat, rep).len() <= s.len(),
        rep.len() < pat.len() && has_infix(s, pat) ==> replaced(s, pat, rep).len() < s.len(),
    decreases s.len(),
{
    if s.len() < pat.len() {
        if has_infix(s, pat) {
            let i = choose|i: int| #[trigger] occurs_at(s, pat, i);
            assert(false);
        }
    } else if s.take(pat.len() as int) == pat {
        lemma_replaced_len(s.skip(pat.len() as int), pat, rep);
    } else {
        let rest = s.skip(1);
        lemma_replaced_len(rest, pat, rep);
        if has_infix(s, pat) {
            let i = choose|i: int| #[trigger] occurs_at(s, pat, i);
            if i == 0 {
                assert(s.take(pat.len() as int) =~= s.subrange(0, pat.len() as int));
            } else {
                assert(rest.subrange(i - 1, i - 1 + pat.len()) =~= s.subrange(i, i + pat.len()));
                assert(occurs_at(rest, pat, i - 1));
            }
        }
    }
}

} // verus!
