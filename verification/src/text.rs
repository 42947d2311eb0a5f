//! Character-level helpers on strings, each with an exact contract over the
//! string's character sequence.

use vstd::prelude::*;
use vstd::string::*;

verus! {

/// Collects characters into a `String`, in order.
/// Wraps `FromIterator<&char> for String`; claims the result holds exactly
/// the given characters in the given order.
#[verifier::external_body]
pub(crate) fn string_from_chars(chars: &Vec<char>) -> (r: String)
    ensures
        r@ == chars@,
{
    chars.iter().collect()
}

/// What `str::to_lowercase` gives for a character sequence (full Unicode
/// case mapping, independent of any locale).
pub uninterp spec fn unicode_lowercase(s: Seq<char>) -> Seq<char>;

/// Wraps `str::to_lowercase`; claims only that the result is the Unicode
/// lowercase form of the argument, a function of the argument alone.
#[verifier::external_body]
pub(crate) fn to_lowercase(s: &str) -> (r: String)
    ensures
        r@ == unicode_lowercase(s@),
{
    s.to_lowercase()
}

/// The characters of `s`, in order.
pub fn chars_of(s: &str) -> (r: Vec<char>)
    ensures
        r@ == s@,
{
    let n = s.unicode_len();
    let mut v: Vec<char> = Vec::new();
    let mut i: usize = 0;
    while i < n
        invariant
            n == s@.len(),
            i <= n,
            v@ == s@.subrange(0, i as int),
        decreases n - i,
    {
        let c = s.get_char(i);
        v.push(c);
        i += 1;
        assert(v@ =~= s@.subrange(0, i as int));
    }
    assert(v@ =~= s@);
    v
}

/// Whether two character vectors are equal.
pub fn chars_eq(a: &Vec<char>, b: &Vec<char>) -> (r: bool)
    ensures
        r == (a@ == b@),
{
    if a.len() != b.len() {
        return false;
    }
    let mut i: usize = 0;
    while i < a.len()
        invariant
            a@.len() == b@.len(),
            i <= a@.len(),
            forall|k: int| 0 <= k < i ==> a@[k] == b@[k],
        decreases a.len() - i,
    {
        if a[i] != b[i] {
            return false;
        }
        i += 1;
    }
    assert(a@ =~= b@);
    true
}

/// Whether two strings hold the same characters.
pub fn str_eq(a: &str, b: &str) -> (r: bool)
    ensures
        r == (a@ == b@),
{
    let ca = chars_of(a);
    let cb = chars_of(b);
    chars_eq(&ca, &cb)
}

/// `a` followed by `b`.
pub fn str_concat(a: &str, b: &str) -> (r: String)
    ensures
        r@ == a@ + b@,
{
    let mut ca = chars_of(a);
    let mut cb = chars_of(b);
    ca.append(&mut cb);
    string_from_chars(&ca)
}

/// The lowercase form of `c` if it is an ASCII uppercase letter; `c` otherwise.
pub open spec fn ascii_lower_char(c: char) -> char {
    if 'A' <= c && c <= 'Z' {
        ((c as u32) + 32) as char
    } else {
        c
    }
}

/// What `str::to_ascii_lowercase` computes: each ASCII uppercase letter
/// mapped to its lowercase form, every other character kept.
pub open spec fn ascii_lowercase(s: Seq<char>) -> Seq<char> {
    s.map_values(|c: char| ascii_lower_char(c))
}

/// `s` with every occurrence of the character `from` replaced by `to`.
pub open spec fn replace_char(s: Seq<char>, from: char, to: char) -> Seq<char> {
    s.map_values(|c: char| if c == from { to } else { c })
}

fn lower_ascii_char(c: char) -> (r: char)
    ensures
        r == ascii_lower_char(c),
{
    if 'A' <= c && c <= 'Z' {
        let b: u8 = (c as u32) as u8;
        let l: u8 = b + 32;
        let r = l as char;
        assert(r == ((c as u32) + 32) as char);
        r
    } else {
        c
    }
}

/// The string with its ASCII uppercase letters made lowercase
/// (the behaviour of `str::to_ascii_lowercase`).
pub fn to_ascii_lowercase(s: &str) -> (r: String)
    ensures
        r@ == ascii_lowercase(s@),
{
    let cs = chars_of(s);
    let mut out: Vec<char> = Vec::new();
    let mut i: usize = 0;
    while i < cs.len()
        invariant
            cs@ == s@,
            i <= cs@.len(),
            out@ == ascii_lowercase(s@.subrange(0, i as int)),
        decreases cs.len() - i,
    {
        let c = lower_ascii_char(cs[i]);
        out.push(c);
        i += 1;
        assert(out@ =~= ascii_lowercase(s@.subrange(0, i as int)));
    }
    assert(s@.subrange(0, i as int) =~= s@);
    string_from_chars(&out)
}

/// The string with every `from` character replaced by `to`
/// (the behaviour of `str::replace` with one-character arguments).
pub fn replace_char_in(s: &str, from: char, to: char) -> (r: String)
    ensures
        r@ == replace_char(s@, from, to),
{
    let cs = chars_of(s);
    let mut out: Vec<char> = Vec::new();
    let mut i: usize = 0;
    while i < cs.len()
        invariant
            cs@ == s@,
            i <= cs@.len(),
            out@ == replace_char(s@.subrange(0, i as int), from, to),
        decreases cs.len() - i,
    {
        let c = cs[i];
        if c == from {
            out.push(to);
        } else {
            out.push(c);
        }
        i += 1;
        assert(out@ =~= replace_char(s@.subrange(0, i as int), from, to));
    }
    assert(s@.subrange(0, i as int) =~= s@);
    string_from_chars(&out)
}

/// The digit characters of bases up to sixteen, lowercase.
pub open spec fn digit_chars() -> Seq<char> {
    seq!['0', '1', '2', '3', '4', '5', '6', '7', '8', '9', 'a', 'b', 'c', 'd', 'e', 'f']
}

/// The digits of `n` in base `base`, most significant first, with no
/// leading zeros (a single `0` for zero).
pub open spec fn digits(n: nat, base: nat) -> Seq<char>
    decreases n,
{
    if base < 2 || base > 16 {
        Seq::empty()
    } else if n < base {
        seq![digit_chars()[n as int]]
    } else {
        proof {
            assert(n / base < n) by (nonlinear_arith)
                requires
                    n >= base,
                    base >= 2,
            ;
        }
        digits(n / base, base).push(digit_chars()[(n % base) as int])
    }
}

/// The decimal notation of `n`, as `format!("{}", n)` writes it.
pub open spec fn decimal(n: nat) -> Seq<char> {
    digits(n, 10)
}

/// Lowercase hexadecimal notation of `n` padded with zeros to at least two
/// characters, as `format!("{:02x}", n)` writes it.
pub open spec fn hex_padded2(n: nat) -> Seq<char> {
    if n < 16 {
        seq!['0'] + digits(n, 16)
    } else {
        digits(n, 16)
    }
}

fn digit_char(d: u32) -> (r: char)
    requires
        d < 16,
    ensures
        r == digit_chars()[d as int],
{
    match d {
        0 => '0',
        1 => '1',
        2 => '2',
        3 => '3',
        4 => '4',
        5 => '5',
        6 => '6',
        7 => '7',
        8 => '8',
        9 => '9',
        10 => 'a',
        11 => 'b',
        12 => 'c',
        13 => 'd',
        14 => 'e',
        _ => 'f',
    }
}

fn push_digits(n: u32, base: u32, out: &mut Vec<char>)
    requires
        2 <= base <= 16,
    ensures
        final(out)@ == old(out)@ + digits(n as nat, base as nat),
    decreases n,
{
    if n >= base {
        assert(n / base < n) by (nonlinear_arith)
            requires
                n >= base,
                base >= 2,
        ;
        push_digits(n / base, base, out);
    }
    assert(n < base ==> n % base == n) by (nonlinear_arith)
        requires
            base >= 2,
    ;
    let d = digit_char(n % base);
    out.push(d);
    assert(out@ =~= old(out)@ + digits(n as nat, base as nat));
}

/// The decimal notation of `n`.
pub fn u32_to_decimal(n: u32) -> (r: String)
    ensures
        r@ == decimal(n as nat),
{
    let mut out: Vec<char> = Vec::new();
    push_digits(n, 10, &mut out);
    assert(out@ =~= decimal(n as nat));
    string_from_chars(&out)
}

/// The lowercase hexadecimal notation of `n`, at least two characters wide.
pub fn u32_to_hex_padded2(n: u32) -> (r: String)
    ensures
        r@ == hex_padded2(n as nat),
{
    let mut out: Vec<char> = Vec::new();
    if n < 16 {
        out.push('0');
    }
    push_digits(n, 16, &mut out);
    assert(out@ =~= hex_padded2(n as nat));
    string_from_chars(&out)
}

/// The first index at or after `i` where `pat` occurs in `s`.
pub open spec fn find_from(s: Seq<char>, pat: Seq<char>, i: int) -> Option<int>
    decreases s.len() + 1 - i,
{
    if i < 0 || i + pat.len() > s.len() {
        None
    } else if s.subrange(i, i + pat.len()) == pat {
        Some(i)
    } else {
        find_from(s, pat, i + 1)
    }
}

/// The part of `s` before the first occurrence of `pat`, or all of `s`
/// where `pat` does not occur (the first half of
/// `s.split_once(pat).unwrap_or((s, ""))`).
pub open spec fn prefix_before(s: Seq<char>, pat: Seq<char>) -> Seq<char> {
    match find_from(s, pat, 0) {
        Some(i) => s.subrange(0, i),
        None => s,
    }
}

fn matches_at(s: &Vec<char>, pat: &Vec<char>, i: usize) -> (r: bool)
    requires
        i + pat.len() <= s.len(),
    ensures
        r == (s@.subrange(i as int, i + pat@.len()) == pat@),
{
    let mut k: usize = 0;
    while k < pat.len()
        invariant
            i + pat.len() <= s.len(),
            k <= pat@.len(),
            forall|j: int| 0 <= j < k ==> s@[i + j] == pat@[j],
        decreases pat.len() - k,
    {
        if s[i + k] != pat[k] {
            assert(s@.subrange(i as int, i + pat@.len())[k as int] != pat@[k as int]);
            return false;
        }
        k += 1;
    }
    assert(s@.subrange(i as int, i + pat@.len()) =~= pat@);
    true
}

/// The part of `s` before the first occurrence of `pat` (all of `s` when
/// `pat` does not occur).
pub fn str_prefix_before(s: &str, pat: &str) -> (r: String)
    ensures
        r@ == prefix_before(s@, pat@),
{
    let cs = chars_of(s);
    let cp = chars_of(pat);
    if cp.len() > cs.len() {
        return string_from_chars(&cs);
    }
    let last = cs.len() - cp.len();
    let mut i: usize = 0;
    loop
        invariant
            cs@ == s@,
            cp@ == pat@,
            last + cp.len() == cs.len(),
            i <= last,
            find_from(s@, pat@, 0) == find_from(s@, pat@, i as int),
        ensures
            find_from(s@, pat@, 0) is None,
        decreases last - i,
    {
        if matches_at(&cs, &cp, i) {
            let mut out: Vec<char> = Vec::new();
            let mut k: usize = 0;
            while k < i
                invariant
                    cs@ == s@,
                    i <= cs@.len(),
                    k <= i,
                    out@ == s@.subrange(0, k as int),
                decreases i - k,
            {
                out.push(cs[k]);
                k += 1;
                assert(out@ =~= s@.subrange(0, k as int));
            }
            return string_from_chars(&out);
        }
        if i == last {
            assert(find_from(s@, pat@, i + 1) is None);
            break;
        }
        i += 1;
    }
    string_from_chars(&cs)
}

/// Lexicographic order of character sequences by code point: `a` sorts
/// strictly before `b` (the order `str::cmp` gives, UTF-8 byte order being
/// code point order).
pub open spec fn seq_lt(a: Seq<char>, b: Seq<char>) -> bool
    decreases a.len(),
{
    if a.len() == 0 {
        b.len() > 0
    } else if b.len() == 0 {
        false
    } else if a[0] != b[0] {
        a[0] < b[0]
    } else {
        seq_lt(a.drop_first(), b.drop_first())
    }
}

/// No sequence sorts before itself.
pub proof fn lemma_seq_lt_irreflexive(a: Seq<char>)
    ensures
        !seq_lt(a, a),
    decreases a.len(),
{
    if a.len() > 0 {
        lemma_seq_lt_irreflexive(a.drop_first());
    }
}

/// The order is transitive.
pub proof fn lemma_seq_lt_transitive(a: Seq<char>, b: Seq<char>, c: Seq<char>)
    requires
        seq_lt(a, b),
        seq_lt(b, c),
    ensures
        seq_lt(a, c),
    decreases a.len(),
{
    if a.len() > 0 && b.len() > 0 && c.len() > 0 && a[0] == b[0] && b[0] == c[0] {
        lemma_seq_lt_transitive(a.drop_first(), b.drop_first(), c.drop_first());
    }
}

/// Of two different sequences, one sorts before the other.
pub proof fn lemma_seq_lt_total(a: Seq<char>, b: Seq<char>)
    ensures
        a == b || seq_lt(a, b) || seq_lt(b, a),
    decreases a.len(),
{
    if a.len() > 0 && b.len() > 0 && a[0] == b[0] {
        lemma_seq_lt_total(a.drop_first(), b.drop_first());
        if a.drop_first() == b.drop_first() {
            assert(a =~= seq![a[0]] + a.drop_first());
            assert(b =~= seq![b[0]] + b.drop_first());
        }
    } else if a.len() == 0 && b.len() == 0 {
        assert(a =~= b);
    }
}

/// "Not after" is transitive: if `b` is not before `a` and `c` not before
/// `b`, then `c` is not before `a`.
pub proof fn lemma_seq_not_lt_transitive(a: Seq<char>, b: Seq<char>, c: Seq<char>)
    requires
        !seq_lt(b, a),
        !seq_lt(c, b),
    ensures
        !seq_lt(c, a),
{
    lemma_seq_lt_total(a, b);
    lemma_seq_lt_total(b, c);
    if seq_lt(c, a) {
        if a != b {
            lemma_seq_lt_transitive(c, a, b);
        }
    }
}


/// Where two sequences first differ at index `k`, the one whose character
/// there has the smaller code point sorts first.
pub proof fn lemma_seq_lt_first_difference(a: Seq<char>, b: Seq<char>, k: int)
    requires
        0 <= k < a.len(),
        k < b.len(),
        forall|i: int| 0 <= i < k ==> a[i] == b[i],
        a[k] != b[k],
    ensures
        seq_lt(a, b) <==> (a[k] as int) < (b[k] as int),
    decreases k,
{
    if k > 0 {
        assert(a[0] == b[0]);
        lemma_seq_lt_first_difference(a.drop_first(), b.drop_first(), k - 1);
    }
}

/// A proper prefix sorts before the longer sequence, and not after it.
pub proof fn lemma_seq_lt_proper_prefix(a: Seq<char>, b: Seq<char>)
    requires
        a.len() < b.len(),
        forall|i: int| 0 <= i < a.len() ==> a[i] == b[i],
    ensures
        seq_lt(a, b),
        !seq_lt(b, a),
    decreases a.len(),
{
    if a.len() > 0 {
        lemma_seq_lt_proper_prefix(a.drop_first(), b.drop_first());
    }
}

/// The value of a numeral in `base`, read with the usual digit characters
/// (`0`-`9`, then `a`-`f`).
pub open spec fn numeral_value(s: Seq<char>, base: nat) -> nat
    decreases s.len(),
{
    if s.len() == 0 {
        0
    } else {
        numeral_value(s.drop_last(), base) * base + digit_value(s.last())
    }
}

/// The value of one digit character.
pub open spec fn digit_value(c: char) -> nat {
    if '0' <= c && c <= '9' {
        (c as u32 - '0' as u32) as nat
    } else if 'a' <= c && c <= 'f' {
        (c as u32 - 'a' as u32 + 10) as nat
    } else {
        0
    }
}

/// Whether every character is a digit below `base`.
pub open spec fn all_digits(s: Seq<char>, base: nat) -> bool {
    forall|i: int|
        0 <= i < s.len() ==> (('0' <= #[trigger] s[i] && s[i] <= '9') || ('a' <= s[i] && s[i] <= 'f'))
            && digit_value(s[i]) < base
}

proof fn lemma_digit_chars_values(d: nat)
    requires
        d < 16,
    ensures
        digit_value(digit_chars()[d as int]) == d,
        ('0' <= digit_chars()[d as int] && digit_chars()[d as int] <= '9') || ('a' <= digit_chars()[d as int]
            && digit_chars()[d as int] <= 'f'),
        digit_chars()[d as int] == '0' <==> d == 0,
{
}

proof fn lemma_digits_numeral(n: nat, base: nat)
    requires
        2 <= base <= 16,
    ensures
        numeral_value(digits(n, base), base) == n,
        all_digits(digits(n, base), base),
        digits(n, base).len() >= 1,
        digits(n, base)[0] == '0' ==> n == 0 && digits(n, base).len() == 1,
    decreases n,
{
    if n < base {
        lemma_digit_chars_values(n);
        let d = digits(n, base);
        assert(d.drop_last() =~= Seq::<char>::empty());
        assert(numeral_value(d.drop_last(), base) == 0);
        assert(numeral_value(d, base) == 0 * base + digit_value(d.last()));
    } else {
        assert(n / base < n) by (nonlinear_arith)
            requires
                n >= base,
                base >= 2,
        ;
        assert(n == (n / base) * base + n % base && n % base < base) by (nonlinear_arith)
            requires
                base >= 2,
        ;
        assert(n / base >= 1) by (nonlinear_arith)
            requires
                n >= base,
                base >= 2,
        ;
        lemma_digits_numeral(n / base, base);
        lemma_digit_chars_values(n % base);
        let d = digits(n, base);
        assert(d.drop_last() =~= digits(n / base, base));
        assert(d[0] == digits(n / base, base)[0]);
        assert(numeral_value(d, base) == numeral_value(d.drop_last(), base) * base + digit_value(d.last()));
        assert(d.last() == digit_chars()[(n % base) as int]);
    }
}

/// The decimal notation of `n` is a numeral of decimal digits whose value
/// is `n`, with no leading zero (`0` alone for zero).
pub proof fn lemma_decimal_reads_back(n: nat)
    ensures
        numeral_value(decimal(n), 10) == n,
        all_digits(decimal(n), 10),
        decimal(n).len() >= 1,
        decimal(n)[0] == '0' ==> n == 0 && decimal(n).len() == 1,
{
    lemma_digits_numeral(n, 10);
}

proof fn lemma_leading_zero_value(s: Seq<char>, base: nat)
    ensures
        numeral_value(seq!['0'] + s, base) == numeral_value(s, base),
    decreases s.len(),
{
    if s.len() == 0 {
        let z = seq!['0'] + s;
        assert(z =~= seq!['0']);
        assert(z.drop_last() =~= Seq::<char>::empty());
        assert(numeral_value(z.drop_last(), base) == 0);
        assert(numeral_value(z, base) == 0 * base + digit_value('0'));
        assert(numeral_value(s, base) == 0);
    } else {
        lemma_leading_zero_value(s.drop_last(), base);
        let z = seq!['0'] + s;
        assert(z.drop_last() =~= seq!['0'] + s.drop_last());
        assert(z.last() == s.last());
        assert(numeral_value(z, base) == numeral_value(z.drop_last(), base) * base + digit_value(z.last()));
        assert(numeral_value(s, base) == numeral_value(s.drop_last(), base) * base + digit_value(s.last()));
    }
}

/// The padded hexadecimal notation of `n` is a numeral of lowercase hex
/// digits, at least two long, whose value is `n`; it has a leading zero only
/// where `n` is below sixteen.
pub proof fn lemma_hex_padded2_reads_back(n: nat)
    ensures
        numeral_value(hex_padded2(n), 16) == n,
        all_digits(hex_padded2(n), 16),
        hex_padded2(n).len() >= 2,
        hex_padded2(n)[0] == '0' <==> n < 16,
{
    lemma_digits_numeral(n, 16);
    if n < 16 {
        lemma_leading_zero_value(digits(n, 16), 16);
        let h = hex_padded2(n);
        assert forall|i: int| 0 <= i < h.len() implies (('0' <= #[trigger] h[i] && h[i] <= '9') || ('a' <= h[i] && h[i] <= 'f'))
            && digit_value(h[i]) < 16 by {
            if i > 0 {
                assert(h[i] == digits(n, 16)[i - 1]);
            }
        }
    } else {
        assert(digits(n, 16).len() >= 2) by {
            assert(n / 16 >= 1) by (nonlinear_arith)
                requires
                    n >= 16,
            ;
            lemma_digits_numeral(n / 16, 16);
            assert(digits(n, 16) == digits(n / 16, 16).push(digit_chars()[(n % 16) as int]));
        }
    }
}

/// ASCII lowercasing keeps the length, leaves no ASCII uppercase letter,
/// moves each uppercase letter to its lowercase counterpart (32 code points
/// up), and keeps every other character.
pub proof fn lemma_ascii_lowercase_law(s: Seq<char>)
    ensures
        ascii_lowercase(s).len() == s.len(),
        forall|i: int| #![trigger ascii_lowercase(s)[i]]
            0 <= i < s.len() ==> {
                let r = ascii_lowercase(s)[i];
                &&& !('A' <= r && r <= 'Z')
                &&& ('A' <= s[i] && s[i] <= 'Z') ==> r as u32 == s[i] as u32 + 32
                &&& !('A' <= s[i] && s[i] <= 'Z') ==> r == s[i]
            },
{
    assert forall|i: int| #![trigger ascii_lowercase(s)[i]] 0 <= i < s.len() implies {
        let r = ascii_lowercase(s)[i];
        &&& !('A' <= r && r <= 'Z')
        &&& ('A' <= s[i] && s[i] <= 'Z') ==> r as u32 == s[i] as u32 + 32
        &&& !('A' <= s[i] && s[i] <= 'Z') ==> r == s[i]
    } by {
        let c = s[i];
        if 'A' <= c && c <= 'Z' {
            let x: u32 = ((c as u32) + 32) as u32;
            assert(97 <= x <= 122);
            assert((x as char) as u32 == x);
        }
    }
}

/// Replacing `from` by `to` keeps the length, leaves no `from` (where it
/// differs from `to`), puts `to` where `from` was, and keeps every other
/// character.
pub proof fn lemma_replace_char_law(s: Seq<char>, from: char, to: char)
    ensures
        replace_char(s, from, to).len() == s.len(),
        forall|i: int| #![trigger replace_char(s, from, to)[i]]
            0 <= i < s.len() ==> replace_char(s, from, to)[i] == if s[i] == from { to } else { s[i] },
{
}

/// `prefix_before(s, pat)` is the longest prefix of `s` in which `pat` does
/// not start: either `pat` starts right after it, or `pat` occurs nowhere in
/// `s` and it is all of `s`.
pub proof fn lemma_prefix_before_law(s: Seq<char>, pat: Seq<char>)
    ensures
        ({
            let r = prefix_before(s, pat);
            &&& r.len() <= s.len()
            &&& r == s.take(r.len() as int)
            &&& forall|j: int| 0 <= j < r.len() && j + pat.len() <= s.len() ==> #[trigger] s.subrange(j, j + pat.len()) != pat
            &&& (r.len() + pat.len() <= s.len() && s.subrange(r.len() as int, (r.len() + pat.len()) as int) == pat) || (r == s
                && forall|j: int| 0 <= j && j + pat.len() <= s.len() ==> #[trigger] s.subrange(j, j + pat.len()) != pat)
        }),
{
    lemma_find_from_law(s, pat, 0);
    match find_from(s, pat, 0) {
        Some(i) => {
            assert(s.subrange(0, i) =~= s.take(i));
        },
        None => {
            assert(s.take(s.len() as int) =~= s);
        },
    }
}

proof fn lemma_find_from_law(s: Seq<char>, pat: Seq<char>, i: int)
    requires
        0 <= i,
    ensures
        match find_from(s, pat, i) {
            Some(k) => i <= k && k + pat.len() <= s.len() && s.subrange(k, k + pat.len()) == pat
                && forall|j: int| i <= j < k ==> #[trigger] s.subrange(j, j + pat.len()) != pat,
            None => forall|j: int| i <= j && j + pat.len() <= s.len() ==> #[trigger] s.subrange(j, j + pat.len()) != pat,
        },
    decreases s.len() + 1 - i,
{
    if i + pat.len() <= s.len() && s.subrange(i, i + pat.len()) != pat {
        lemma_find_from_law(s, pat, i + 1);
    }
}

/// Whether `a` sorts strictly before `b`.
pub fn str_lt(a: &str, b: &str) -> (r: bool)
    ensures
        r == seq_lt(a@, b@),
{
    let ca = chars_of(a);
    let cb = chars_of(b);
    let mut i: usize = 0;
    assert(a@.skip(0) =~= a@);
    assert(b@.skip(0) =~= b@);
    while i < ca.len() && i < cb.len() && ca[i] == cb[i]
        invariant
            ca@ == a@,
            cb@ == b@,
            i <= ca@.len(),
            i <= cb@.len(),
            seq_lt(a@, b@) == seq_lt(a@.skip(i as int), b@.skip(i as int)),
        decreases ca.len() - i,
    {
        assert(a@.skip(i as int).drop_first() =~= a@.skip(i + 1));
        assert(b@.skip(i as int).drop_first() =~= b@.skip(i + 1));
        i += 1;
    }
    if i == cb.len() {
        false
    } else if i == ca.len() {
        true
    } else {
        ca[i] < cb[i]
    }
}

} // verus!
