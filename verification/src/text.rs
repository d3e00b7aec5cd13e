//! Character-sequence utilities with their specifications: search, prefix and
//! suffix tests, replacement, trimming, line splitting and decimal numbers.
use vstd::prelude::*;

verus! {

/// `p` occurs in `s` starting at position `i`.
pub open spec fn occurs_at(s: Seq<char>, p: Seq<char>, i: int) -> bool {
    0 <= i && i + p.len() <= s.len() && s.subrange(i, i + p.len()) == p
}

/// `p` is a prefix of `s`.
pub open spec fn has_prefix(s: Seq<char>, p: Seq<char>) -> bool {
    occurs_at(s, p, 0)
}

/// `p` is a suffix of `s`.
pub open spec fn has_suffix(s: Seq<char>, p: Seq<char>) -> bool {
    p.len() <= s.len() && occurs_at(s, p, s.len() - p.len())
}

/// `p` occurs somewhere in `s` (the empty sequence occurs everywhere).
pub open spec fn contains(s: Seq<char>, p: Seq<char>) -> bool {
    exists|i: int| occurs_at(s, p, i)
}

/// The position of the first occurrence of `p` in `s` at or after `i`.
pub open spec fn first_from(s: Seq<char>, p: Seq<char>, i: int) -> Option<int>
    decreases s.len() + 1 - i,
{
    if i < 0 || i + p.len() > s.len() {
        None
    } else if occurs_at(s, p, i) {
        Some(i)
    } else {
        first_from(s, p, i + 1)
    }
}

/// The position of the first occurrence of `p` in `s`, if any.
pub open spec fn first_occurrence(s: Seq<char>, p: Seq<char>) -> Option<int> {
    first_from(s, p, 0)
}

/// The first occurrence is an occurrence, and no earlier one exists.
pub proof fn lemma_first_occurrence(s: Seq<char>, p: Seq<char>)
    ensures
        match first_occurrence(s, p) {
            Some(k) => 0 <= k && occurs_at(s, p, k) && forall|j: int| 0 <= j < k ==> !occurs_at(s, p, j),
            None => !contains(s, p),
        },
{
    lemma_first_from(s, p, 0);
}

proof fn lemma_first_from(s: Seq<char>, p: Seq<char>, i: int)
    requires
        0 <= i,
    ensures
        match first_from(s, p, i) {
            Some(k) => i <= k && occurs_at(s, p, k) && forall|j: int| i <= j < k ==> !occurs_at(s, p, j),
            None => forall|j: int| i <= j ==> !occurs_at(s, p, j),
        },
    decreases s.len() + 1 - i,
{
    if i + p.len() <= s.len() && !occurs_at(s, p, i) {
        lemma_first_from(s, p, i + 1);
    }
}

/// Left-to-right replacement of every non-overlapping occurrence of a
/// non-empty pattern `from` by `to`.
pub open spec fn replace_all(s: Seq<char>, from: Seq<char>, to: Seq<char>) -> Seq<char>
    recommends
        from.len() > 0,
    decreases s.len(),
{
    if s.len() == 0 || from.len() == 0 {
        s
    } else if has_prefix(s, from) {
        to + replace_all(s.skip(from.len() as int), from, to)
    } else {
        seq![s[0]] + replace_all(s.skip(1), from, to)
    }
}

/// Unicode `White_Space` characters, the set that `char::is_whitespace`
/// tests and that `str::trim` removes.
pub open spec fn is_ws(c: char) -> bool {
    ||| ('\u{9}' <= c && c <= '\u{d}')
    ||| c == ' '
    ||| c == '\u{85}'
    ||| c == '\u{a0}'
    ||| c == '\u{1680}'
    ||| ('\u{2000}' <= c && c <= '\u{200a}')
    ||| c == '\u{2028}'
    ||| c == '\u{2029}'
    ||| c == '\u{202f}'
    ||| c == '\u{205f}'
    ||| c == '\u{3000}'
}

/// `s` without its trailing white space.
pub open spec fn trim_end(s: Seq<char>) -> Seq<char>
    decreases s.len(),
{
    if s.len() > 0 && is_ws(s.last()) {
        trim_end(s.drop_last())
    } else {
        s
    }
}

/// `s` without its leading white space.
pub open spec fn trim_start(s: Seq<char>) -> Seq<char>
    decreases s.len(),
{
    if s.len() > 0 && is_ws(s[0]) {
        trim_start(s.drop_first())
    } else {
        s
    }
}

/// `s` without leading and trailing white space.
pub open spec fn trim(s: Seq<char>) -> Seq<char> {
    trim_end(trim_start(s))
}

/// The decimal digits of `n`, without leading zeros.
pub open spec fn dec(n: nat) -> Seq<char>
    decreases n,
{
    if n < 10 {
        seq![digit_char(n)]
    } else {
        dec(n / 10) + seq![digit_char(n % 10)]
    }
}

/// The ASCII digit for a value below ten.
pub open spec fn digit_char(d: nat) -> char {
    if d == 0 { '0' }
    else if d == 1 { '1' }
    else if d == 2 { '2' }
    else if d == 3 { '3' }
    else if d == 4 { '4' }
    else if d == 5 { '5' }
    else if d == 6 { '6' }
    else if d == 7 { '7' }
    else if d == 8 { '8' }
    else { '9' }
}

/// The value of an ASCII digit.
pub open spec fn digit_value(c: char) -> nat {
    (c as nat - '0' as nat) as nat
}

pub open spec fn is_digit(c: char) -> bool {
    '0' <= c && c <= '9'
}

/// The value of a non-empty sequence of ASCII digits.
pub open spec fn digits_value(s: Seq<char>) -> nat
    decreases s.len(),
{
    if s.len() == 0 {
        0
    } else {
        digits_value(s.drop_last()) * 10 + digit_value(s.last())
    }
}

/// The characters of a string.
pub fn chars_of(s: &str) -> (v: Vec<char>)
    ensures
        v@ == s@,
{
    broadcast use vstd::string::group_string_axioms;
    let mut v: Vec<char> = Vec::new();
    for c in it: s.chars()
        invariant
            v@ == it.seq().take(it.index()),
            it.seq() == s@,
    {
        v.push(c);
    }
    v
}

/// A string made of the given characters: `String`'s `FromIterator<&char>`
/// (`collect`), which appends the characters in order, so the string holds
/// exactly them.
#[verifier::external_body]
pub(crate) fn string_of(v: &[char]) -> (s: String)
    ensures
        s@ == v@,
{
    v.iter().collect()
}

/// Whether `p` occurs in `s` at position `i`.
pub fn matches_at(s: &[char], p: &[char], i: usize) -> (b: bool)
    ensures
        b == occurs_at(s@, p@, i as int),
{
    if i > s.len() || p.len() > s.len() - i {
        return false;
    }
    let mut k: usize = 0;
    while k < p.len()
        invariant
            i + p.len() <= s.len(),
            k <= p.len(),
            forall|j: int| 0 <= j < k ==> s@[i + j] == p@[j],
        decreases p.len() - k,
    {
        if s[i + k] != p[k] {
            assert(s@.subrange(i as int, i + p.len())[k as int] != p@[k as int]);
            return false;
        }
        k = k + 1;
    }
    assert(s@.subrange(i as int, i + p.len()) =~= p@);
    true
}

/// The position of the first occurrence of `p` in `s` at or after `start`.
pub fn find_from(s: &[char], p: &[char], start: usize) -> (r: Option<usize>)
    ensures
        match r {
            Some(i) => start <= i && occurs_at(s@, p@, i as int)
                && forall|j: int| start <= j < i ==> !occurs_at(s@, p@, j),
            None => forall|j: int| start <= j ==> !occurs_at(s@, p@, j),
        },
{
    if start > s.len() {
        return None;
    }
    let mut i = start;
    loop
        invariant
            start <= i <= s.len(),
            forall|j: int| start <= j < i ==> !occurs_at(s@, p@, j),
        decreases s.len() - i,
    {
        if matches_at(s, p, i) {
            return Some(i);
        }
        if i == s.len() {
            return None;
        }
        i = i + 1;
    }
}

/// The position of the first occurrence of `p` in `s`.
pub fn find(s: &[char], p: &[char]) -> (r: Option<usize>)
    ensures
        r matches Some(i) ==> first_occurrence(s@, p@) == Some(i as int) && occurs_at(s@, p@, i as int),
        r is None ==> first_occurrence(s@, p@) is None,
        r is None <==> !contains(s@, p@),
{
    let r = find_from(s, p, 0);
    proof {
        lemma_first_from(s@, p@, 0);
        match first_from(s@, p@, 0) {
            Some(k) => {
                assert(contains(s@, p@));
            },
            None => {},
        }
    }
    r
}

/// Whether `p` occurs anywhere in `s`.
pub fn has(s: &[char], p: &[char]) -> (b: bool)
    ensures
        b == contains(s@, p@),
{
    find(s, p).is_some()
}

/// Whether `s` begins with `p`.
pub fn starts_with(s: &[char], p: &[char]) -> (b: bool)
    ensures
        b == has_prefix(s@, p@),
{
    matches_at(s, p, 0)
}

/// Whether `s` ends with `p`.
pub fn ends_with(s: &[char], p: &[char]) -> (b: bool)
    ensures
        b == has_suffix(s@, p@),
{
    if p.len() > s.len() {
        false
    } else {
        matches_at(s, p, s.len() - p.len())
    }
}

/// Appends `b` to `a`.
pub fn push_all(a: &mut Vec<char>, b: &[char])
    ensures
        final(a)@ == old(a)@ + b@,
{
    let mut i: usize = 0;
    while i < b.len()
        invariant
            i <= b.len(),
            a@ == old(a)@ + b@.take(i as int),
        decreases b.len() - i,
    {
        a.push(b[i]);
        i = i + 1;
        assert(b@.take(i as int) =~= b@.take(i - 1) + seq![b@[i - 1]]);
    }
    assert(b@.take(b.len() as int) =~= b@);
}

/// The sub-sequence `s[from..to]`.
pub fn slice_of(s: &[char], from: usize, to: usize) -> (r: Vec<char>)
    requires
        from <= to <= s.len(),
    ensures
        r@ == s@.subrange(from as int, to as int),
{
    let mut r: Vec<char> = Vec::new();
    let mut i = from;
    while i < to
        invariant
            from <= i <= to <= s.len(),
            r@ == s@.subrange(from as int, i as int),
        decreases to - i,
    {
        r.push(s[i]);
        i = i + 1;
        assert(r@ =~= s@.subrange(from as int, i as int));
    }
    r
}

proof fn lemma_skip_skip(s: Seq<char>, a: int, b: int)
    requires
        0 <= a,
        0 <= b,
        a + b <= s.len(),
    ensures
        s.skip(a).skip(b) == s.skip(a + b),
{
    assert(s.skip(a).skip(b) =~= s.skip(a + b));
}

/// Replaces every non-overlapping occurrence of a non-empty pattern, scanning
/// from left to right, as `str::replace` does.
pub fn replace_chars(s: &[char], from: &[char], to: &[char]) -> (r: Vec<char>)
    requires
        from@.len() > 0,
    ensures
        r@ == replace_all(s@, from@, to@),
{
    let mut r: Vec<char> = Vec::new();
    let mut i: usize = 0;
    assert(s@.skip(0) =~= s@);
    while i < s.len()
        invariant
            from@.len() > 0,
            i <= s.len(),
            r@ + replace_all(s@.skip(i as int), from@, to@) == replace_all(s@, from@, to@),
        decreases s.len() - i,
    {
        let ghost rest = s@.skip(i as int);
        if matches_at(s, from, i) {
            assert(has_prefix(rest, from@)) by {
                assert(rest.subrange(0, from@.len() as int) =~= s@.subrange(i as int, i + from@.len()));
            }
            proof { lemma_skip_skip(s@, i as int, from@.len() as int); }
            push_all(&mut r, to);
            i = i + from.len();
            assert(r@ + replace_all(s@.skip(i as int), from@, to@) =~= replace_all(s@, from@, to@));
        } else {
            assert(!has_prefix(rest, from@)) by {
                if has_prefix(rest, from@) {
                    assert(rest.subrange(0, from@.len() as int) =~= s@.subrange(i as int, i + from@.len()));
                }
            }
            proof { lemma_skip_skip(s@, i as int, 1); }
            r.push(s[i]);
            i = i + 1;
            assert(r@ + replace_all(s@.skip(i as int), from@, to@) =~= replace_all(s@, from@, to@));
        }
    }
    assert(s@.skip(i as int).len() == 0);
    r
}


/// Whether `c` is white space.
pub fn is_whitespace(c: char) -> (b: bool)
    ensures
        b == is_ws(c),
{
    ('\u{9}' <= c && c <= '\u{d}') || c == ' ' || c == '\u{85}' || c == '\u{a0}' || c == '\u{1680}'
        || ('\u{2000}' <= c && c <= '\u{200a}') || c == '\u{2028}' || c == '\u{2029}'
        || c == '\u{202f}' || c == '\u{205f}' || c == '\u{3000}'
}

proof fn lemma_trim_end_prefix(s: Seq<char>, k: int)
    requires
        0 <= k <= s.len(),
        forall|j: int| k <= j < s.len() ==> is_ws(s[j]),
    ensures
        trim_end(s) == trim_end(s.take(k)),
    decreases s.len() - k,
{
    if k < s.len() {
        assert(s.drop_last() =~= s.take(s.len() - 1));
        lemma_trim_end_prefix(s.drop_last(), k);
        assert(s.drop_last().take(k) =~= s.take(k));
    } else {
        assert(s.take(k) =~= s);
    }
}

proof fn lemma_trim_start_suffix(s: Seq<char>, k: int)
    requires
        0 <= k <= s.len(),
        forall|j: int| 0 <= j < k ==> is_ws(s[j]),
    ensures
        trim_start(s) == trim_start(s.skip(k)),
    decreases k,
{
    if k > 0 {
        lemma_trim_start_suffix(s.drop_first(), k - 1);
        assert(s.drop_first().skip(k - 1) =~= s.skip(k));
    } else {
        assert(s.skip(0) =~= s);
    }
}

/// `s` without trailing white space.
pub fn trim_end_chars(s: &[char]) -> (r: Vec<char>)
    ensures
        r@ == trim_end(s@),
{
    let mut k = s.len();
    while k > 0 && is_whitespace(s[k - 1])
        invariant
            k <= s.len(),
            forall|j: int| k <= j < s.len() ==> is_ws(s@[j]),
        decreases k,
    {
        k = k - 1;
    }
    proof {
        lemma_trim_end_prefix(s@, k as int);
        if k > 0 {
            assert(!is_ws(s@.take(k as int).last()));
        }
    }
    slice_of(s, 0, k)
}

/// `s` without leading white space.
pub fn trim_start_chars(s: &[char]) -> (r: Vec<char>)
    ensures
        r@ == trim_start(s@),
{
    let mut k: usize = 0;
    while k < s.len() && is_whitespace(s[k])
        invariant
            k <= s.len(),
            forall|j: int| 0 <= j < k ==> is_ws(s@[j]),
        decreases s.len() - k,
    {
        k = k + 1;
    }
    proof {
        lemma_trim_start_suffix(s@, k as int);
    }
    let r = slice_of(s, k, s.len());
    assert(r@ =~= s@.skip(k as int));
    r
}

/// `s` without leading and trailing white space.
pub fn trim_chars(s: &[char]) -> (r: Vec<char>)
    ensures
        r@ == trim(s@),
{
    let a = trim_start_chars(s);
    trim_end_chars(a.as_slice())
}

/// The character for a digit value.
pub fn digit(d: u32) -> (c: char)
    requires
        d < 10,
    ensures
        c == digit_char(d as nat),
{
    if d == 0 { '0' }
    else if d == 1 { '1' }
    else if d == 2 { '2' }
    else if d == 3 { '3' }
    else if d == 4 { '4' }
    else if d == 5 { '5' }
    else if d == 6 { '6' }
    else if d == 7 { '7' }
    else if d == 8 { '8' }
    else { '9' }
}

/// The decimal representation of `n`.
pub fn decimal(n: u32) -> (r: Vec<char>)
    ensures
        r@ == dec(n as nat),
    decreases n,
{
    if n < 10 {
        let mut r: Vec<char> = Vec::new();
        r.push(digit(n));
        assert(r@ =~= dec(n as nat));
        r
    } else {
        let mut r = decimal(n / 10);
        r.push(digit(n % 10));
        assert(r@ =~= dec(n as nat));
        r
    }
}

proof fn lemma_digit(d: nat)
    requires
        d < 10,
    ensures
        is_digit(digit_char(d)),
        digit_value(digit_char(d)) == d,
{
    if d == 0 {} else if d == 1 {} else if d == 2 {} else if d == 3 {} else if d == 4 {}
    else if d == 5 {} else if d == 6 {} else if d == 7 {} else if d == 8 {} else {}
}

pub proof fn lemma_dec_digits(n: nat)
    ensures
        dec(n).len() > 0,
        forall|i: int| 0 <= i < dec(n).len() ==> is_digit(#[trigger] dec(n)[i]),
        digits_value(dec(n)) == n,
    decreases n,
{
    if n < 10 {
        lemma_digit(n);
        assert(dec(n).drop_last() =~= Seq::<char>::empty());
        assert(digits_value(dec(n).drop_last()) == 0);
        assert(dec(n).last() == digit_char(n));
    } else {
        lemma_digit(n % 10);
        lemma_dec_digits(n / 10);
        assert(dec(n).drop_last() =~= dec(n / 10));
        assert(dec(n).last() == digit_char(n % 10));
        assert(digits_value(dec(n)) == digits_value(dec(n / 10)) * 10 + digit_value(digit_char(n % 10)));
        assert(n == (n / 10) * 10 + n % 10) by (nonlinear_arith);
    }
}

/// The pieces of `s` between occurrences of the character `c`, as
/// `str::split` gives them (one more piece than there are occurrences).
pub open spec fn split_char(s: Seq<char>, c: char) -> Seq<Seq<char>>
    decreases s.len(),
{
    if s.len() == 0 {
        seq![Seq::empty()]
    } else {
        let rest = split_char(s.drop_first(), c);
        if s[0] == c {
            seq![Seq::<char>::empty()] + rest
        } else {
            rest.update(0, seq![s[0]] + rest[0])
        }
    }
}

pub proof fn lemma_split_char_len(s: Seq<char>, c: char)
    ensures
        split_char(s, c).len() >= 1,
    decreases s.len(),
{
    if s.len() > 0 {
        lemma_split_char_len(s.drop_first(), c);
    }
}

/// `s` without one trailing carriage return.
pub open spec fn strip_cr(s: Seq<char>) -> Seq<char> {
    if s.len() > 0 && s.last() == '\r' {
        s.drop_last()
    } else {
        s
    }
}

/// The lines of `s`, as `str::lines` and `BufRead::lines` give them: split at
/// line feeds, a carriage return before a line feed dropped, and no empty
/// line after a final line feed.
pub open spec fn lines_of(s: Seq<char>) -> Seq<Seq<char>> {
    let parts = split_char(s, '\n');
    let n = parts.len();
    let kept: int = if parts[n - 1].len() == 0 { n - 1 } else { n as int };
    Seq::new(kept as nat, |i: int| if i < n - 1 { strip_cr(parts[i]) } else { parts[i] })
}

/// Splits `s` at every occurrence of `c`.
pub fn split_chars(s: &[char], c: char) -> (r: Vec<Vec<char>>)
    ensures
        r@.len() == split_char(s@, c).len(),
        forall|i: int| 0 <= i < r@.len() ==> #[trigger] r@[i]@ == split_char(s@, c)[i],
{
    let mut r: Vec<Vec<char>> = Vec::new();
    let mut cur: Vec<char> = Vec::new();
    let mut i: usize = 0;
    let ghost s0 = s@;
    proof {
        assert(s0.skip(0) =~= s0);
        lemma_split_char_len(s0, c);
        assert(cur@ + split_char(s0, c)[0] =~= split_char(s0, c)[0]);
    }
    // Invariant: the pieces of s[..i] are r ++ [cur], and the pieces of s
    // are r ++ [cur ++ first piece of s[i..]] ++ the rest of s[i..]'s pieces.
    while i < s.len()
        invariant
            i <= s.len(),
            s@ == s0,
            ({
                let rest = split_char(s0.skip(i as int), c);
                &&& split_char(s0, c).len() == r@.len() + rest.len()
                &&& forall|j: int| 0 <= j < r@.len() ==> #[trigger] r@[j]@ == split_char(s0, c)[j]
                &&& split_char(s0, c)[r@.len() as int] == cur@ + rest[0]
                &&& forall|j: int| 0 < j < rest.len() ==> #[trigger] split_char(s0, c)[r@.len() + j] == rest[j]
            }),
        decreases s.len() - i,
    {
        let ghost rest = split_char(s0.skip(i as int), c);
        let ghost rest2 = split_char(s0.skip(i + 1), c);
        proof {
            assert(s0.skip(i as int).drop_first() =~= s0.skip(i + 1));
            lemma_split_char_len(s0.skip(i + 1), c);
        }
        if s[i] == c {
            proof {
                assert(rest == seq![Seq::<char>::empty()] + rest2);
                assert(rest[0] =~= Seq::<char>::empty());
            }
            let ghost r_old = r@;
            r.push(cur);
            cur = Vec::new();
            proof {
                assert(split_char(s0, c)[r_old.len() as int] =~= r@[r_old.len() as int]@);
                assert forall|j: int| 0 <= j < r@.len() implies #[trigger] r@[j]@ == split_char(s0, c)[j] by {
                    if j < r_old.len() {
                        assert(r@[j] == r_old[j]);
                    }
                }
                assert(split_char(s0, c)[r@.len() as int] == rest[1]);
                assert(cur@ + rest2[0] =~= rest2[0]);
                assert forall|j: int| 0 < j < rest2.len() implies #[trigger] split_char(s0, c)[r@.len() + j] == rest2[j] by {
                    assert(split_char(s0, c)[r_old.len() + (j + 1)] == rest[j + 1]);
                }
            }
        } else {
            proof {
                assert(rest == rest2.update(0, seq![s0[i as int]] + rest2[0]));
                assert(cur@.push(s0[i as int]) + rest2[0] =~= cur@ + rest[0]);
                assert forall|j: int| 0 < j < rest2.len() implies #[trigger] split_char(s0, c)[r@.len() + j] == rest2[j] by {
                    assert(split_char(s0, c)[r@.len() + j] == rest[j]);
                }
            }
            cur.push(s[i]);
        }
        i = i + 1;
    }
    proof {
        assert(s0.skip(i as int) =~= Seq::<char>::empty());
        assert(split_char(Seq::<char>::empty(), c) =~= seq![Seq::<char>::empty()]);
        assert(cur@ + Seq::<char>::empty() =~= cur@);
    }
    let ghost r_old = r@;
    r.push(cur);
    proof {
        assert forall|j: int| 0 <= j < r@.len() implies #[trigger] r@[j]@ == split_char(s0, c)[j] by {
            if j < r_old.len() {
                assert(r@[j] == r_old[j]);
            }
        }
    }
    r
}

/// `s` without one trailing carriage return.
pub fn strip_cr_chars(s: Vec<char>) -> (r: Vec<char>)
    ensures
        r@ == strip_cr(s@),
{
    let mut s = s;
    let ghost s0 = s@;
    if s.len() > 0 && s[s.len() - 1] == '\r' {
        s.pop();
        assert(s@ =~= s0.drop_last());
    }
    s
}

/// The lines of `s`.
pub fn lines_chars(s: &[char]) -> (r: Vec<Vec<char>>)
    ensures
        r@.len() == lines_of(s@).len(),
        forall|i: int| 0 <= i < r@.len() ==> #[trigger] r@[i]@ == lines_of(s@)[i],
{
    let parts = split_chars(s, '\n');
    proof { lemma_split_char_len(s@, '\n'); }
    let n = parts.len();
    let kept = if parts[n - 1].len() == 0 { n - 1 } else { n };
    let mut r: Vec<Vec<char>> = Vec::new();
    let mut i: usize = 0;
    while i < kept
        invariant
            i <= kept,
            n == parts@.len(),
            n >= 1,
            kept as int == (if split_char(s@, '\n')[n - 1].len() == 0 { n - 1 } else { n as int }),
            parts@.len() == split_char(s@, '\n').len(),
            forall|j: int| 0 <= j < parts@.len() ==> #[trigger] parts@[j]@ == split_char(s@, '\n')[j],
            r@.len() == i,
            forall|j: int| 0 <= j < i ==> #[trigger] r@[j]@ == lines_of(s@)[j],
        decreases kept - i,
    {
        let p = parts[i].clone();
        let line = if i < n - 1 { strip_cr_chars(p) } else { p };
        let ghost r_old = r@;
        r.push(line);
        proof {
            assert forall|j: int| 0 <= j < i + 1 implies #[trigger] r@[j]@ == lines_of(s@)[j] by {
                if j < i {
                    assert(r@[j] == r_old[j]);
                }
            }
        }
        i = i + 1;
    }
    r
}


/// `to` before every character of `s` and after the last one: what
/// `str::replace` gives for an empty pattern.
pub open spec fn interleave(s: Seq<char>, to: Seq<char>) -> Seq<char>
    decreases s.len(),
{
    if s.len() == 0 {
        to
    } else {
        to + seq![s[0]] + interleave(s.skip(1), to)
    }
}

/// What `str::replace` gives: every non-overlapping occurrence of `from`,
/// left to right, replaced by `to`; an empty `from` matches between every
/// two characters and at both ends.
pub open spec fn str_replace(s: Seq<char>, from: Seq<char>, to: Seq<char>) -> Seq<char> {
    if from.len() == 0 {
        interleave(s, to)
    } else {
        replace_all(s, from, to)
    }
}

/// The lines `ls` joined with `sep` between each two.
pub open spec fn join_with(ls: Seq<Seq<char>>, sep: Seq<char>) -> Seq<char>
    decreases ls.len(),
{
    if ls.len() == 0 {
        Seq::empty()
    } else if ls.len() == 1 {
        ls[0]
    } else {
        join_with(ls.drop_last(), sep) + sep + ls.last()
    }
}

/// Replacement as `str::replace` does it, an empty pattern included.
pub fn replace_any(s: &[char], from: &[char], to: &[char]) -> (r: Vec<char>)
    ensures
        r@ == str_replace(s@, from@, to@),
{
    if from.len() > 0 {
        return replace_chars(s, from, to);
    }
    let mut r: Vec<char> = Vec::new();
    let mut i: usize = 0;
    assert(s@.skip(0) =~= s@);
    while i < s.len()
        invariant
            i <= s.len(),
            from@.len() == 0,
            r@ + interleave(s@.skip(i as int), to@) == interleave(s@, to@),
        decreases s.len() - i,
    {
        proof { lemma_skip_skip(s@, i as int, 1); }
        push_all(&mut r, to);
        r.push(s[i]);
        i = i + 1;
        assert(r@ + interleave(s@.skip(i as int), to@) =~= interleave(s@, to@));
    }
    assert(s@.skip(i as int) =~= Seq::<char>::empty());
    push_all(&mut r, to);
    assert(r@ =~= interleave(s@, to@));
    r
}

/// The lines `ls` joined with `sep` between each two.
pub fn join_lines(ls: &Vec<Vec<char>>, sep: &[char]) -> (r: Vec<char>)
    ensures
        r@ == join_with(ls@.map_values(|l: Vec<char>| l@), sep@),
{
    let ghost vs = ls@.map_values(|l: Vec<char>| l@);
    let mut r: Vec<char> = Vec::new();
    let mut i: usize = 0;
    while i < ls.len()
        invariant
            i <= ls@.len(),
            vs == ls@.map_values(|l: Vec<char>| l@),
            r@ == join_with(vs.take(i as int), sep@),
        decreases ls@.len() - i,
    {
        if i > 0 {
            push_all(&mut r, sep);
        }
        push_all(&mut r, ls[i].as_slice());
        proof {
            assert(vs.take(i + 1).drop_last() =~= vs.take(i as int));
            if i == 0 {
                assert(r@ =~= vs.take(1)[0]);
            }
        }
        i = i + 1;
    }
    assert(vs.take(i as int) =~= vs);
    r
}


/// The position of the first occurrence of `p` in `s` at or after `start`.
pub fn find_after(s: &[char], p: &[char], start: usize) -> (r: Option<usize>)
    ensures
        r matches Some(i) ==> first_from(s@, p@, start as int) == Some(i as int) && occurs_at(s@, p@, i as int)
            && start <= i,
        r is None ==> first_from(s@, p@, start as int) is None,
{
    let r = find_from(s, p, start);
    proof {
        lemma_first_from(s@, p@, start as int);
    }
    r
}


/// Splitting at `c` a text that begins with a piece `a` free of `c` gives
/// `a`, then the pieces of the rest.
pub proof fn lemma_split_char_concat(a: Seq<char>, b: Seq<char>, c: char)
    requires
        forall|i: int| 0 <= i < a.len() ==> a[i] != c,
    ensures
        split_char(a + seq![c] + b, c) == seq![a] + split_char(b, c),
    decreases a.len(),
{
    let s = a + seq![c] + b;
    if a.len() == 0 {
        assert(a =~= Seq::<char>::empty());
        assert(s.drop_first() =~= b);
        assert(s[0] == c);
        assert(seq![Seq::<char>::empty()] + split_char(b, c) =~= seq![a] + split_char(b, c));
    } else {
        let a2 = a.drop_first();
        assert(s.drop_first() =~= a2 + seq![c] + b);
        lemma_split_char_concat(a2, b, c);
        let rest = split_char(s.drop_first(), c);
        assert(rest == seq![a2] + split_char(b, c));
        assert(seq![a[0]] + a2 =~= a);
        assert(rest.update(0, seq![s[0]] + rest[0]) =~= seq![a] + split_char(b, c));
    }
}


/// Replacement leaves a leading piece `x` alone when no occurrence of the
/// pattern starts inside it.
pub proof fn lemma_replace_keep_prefix(x: Seq<char>, r: Seq<char>, p: Seq<char>, q: Seq<char>)
    requires
        p.len() > 0,
        forall|i: int| 0 <= i < x.len() ==> !occurs_at(x + r, p, i),
    ensures
        replace_all(x + r, p, q) == x + replace_all(r, p, q),
    decreases x.len(),
{
    if x.len() == 0 {
        assert(x + r =~= r);
        assert(x + replace_all(r, p, q) =~= replace_all(r, p, q));
    } else {
        let s = x + r;
        assert(!occurs_at(s, p, 0));
        assert(!has_prefix(s, p));
        let x2 = x.skip(1);
        assert(s.skip(1) =~= x2 + r);
        assert forall|i: int| 0 <= i < x2.len() implies !occurs_at(x2 + r, p, i) by {
            assert(!occurs_at(s, p, i + 1));
            if occurs_at(x2 + r, p, i) {
                assert((x2 + r).subrange(i, i + p.len()) =~= s.subrange(i + 1, i + 1 + p.len()));
            }
        }
        lemma_replace_keep_prefix(x2, r, p, q);
        assert(seq![s[0]] + (x2 + replace_all(r, p, q)) =~= x + replace_all(r, p, q));
    }
}

/// Replacement of a text that begins with the pattern.
pub proof fn lemma_replace_at_prefix(r: Seq<char>, p: Seq<char>, q: Seq<char>)
    requires
        p.len() > 0,
    ensures
        replace_all(p + r, p, q) == q + replace_all(r, p, q),
{
    let s = p + r;
    assert(s.subrange(0, p.len() as int) =~= p);
    assert(has_prefix(s, p));
    assert(s.skip(p.len() as int) =~= r);
}

/// A text without the pattern is left unchanged.
pub proof fn lemma_replace_none(x: Seq<char>, p: Seq<char>, q: Seq<char>)
    requires
        p.len() > 0,
        !contains(x, p),
    ensures
        replace_all(x, p, q) == x,
{
    assert(x + Seq::<char>::empty() =~= x);
    assert forall|i: int| 0 <= i < x.len() implies !occurs_at(x + Seq::<char>::empty(), p, i) by {
        assert(!occurs_at(x, p, i));
    }
    lemma_replace_keep_prefix(x, Seq::empty(), p, q);
    assert(replace_all(Seq::<char>::empty(), p, q) =~= Seq::<char>::empty());
}

/// Lexicographic order on texts, character by character: `a` comes no
/// later than `b`. It is the order in which Rust compares strings.
pub open spec fn text_le(a: Seq<char>, b: Seq<char>) -> bool
    decreases a.len(),
{
    if a.len() == 0 {
        true
    } else if b.len() == 0 {
        false
    } else if a[0] != b[0] {
        (a[0] as int) < (b[0] as int)
    } else {
        text_le(a.drop_first(), b.drop_first())
    }
}

/// Of any two texts, one comes no later than the other.
pub proof fn lemma_text_le_total(a: Seq<char>, b: Seq<char>)
    ensures
        text_le(a, b) || text_le(b, a),
    decreases a.len(),
{
    if a.len() > 0 && b.len() > 0 && a[0] == b[0] {
        lemma_text_le_total(a.drop_first(), b.drop_first());
    }
}

/// The order on texts is transitive.
pub proof fn lemma_text_le_transitive(a: Seq<char>, b: Seq<char>, c: Seq<char>)
    requires
        text_le(a, b),
        text_le(b, c),
    ensures
        text_le(a, c),
    decreases a.len(),
{
    if a.len() > 0 && b.len() > 0 && c.len() > 0 && a[0] == b[0] && b[0] == c[0] {
        lemma_text_le_transitive(a.drop_first(), b.drop_first(), c.drop_first());
    }
}

/// Whether text `a` comes no later than text `b`.
pub fn text_le_chars(a: &[char], b: &[char]) -> (r: bool)
    ensures
        r == text_le(a@, b@),
{
    let mut i: usize = 0;
    assert(a@.skip(0) =~= a@ && b@.skip(0) =~= b@);
    while i < a.len() && i < b.len() && a[i] == b[i]
        invariant
            i <= a@.len(),
            i <= b@.len(),
            text_le(a@, b@) == text_le(a@.skip(i as int), b@.skip(i as int)),
        decreases a@.len() - i,
    {
        proof {
            let x = a@.skip(i as int);
            let y = b@.skip(i as int);
            assert(x.drop_first() =~= a@.skip(i + 1));
            assert(y.drop_first() =~= b@.skip(i + 1));
        }
        i = i + 1;
    }
    if i == a.len() {
        true
    } else if i == b.len() {
        false
    } else {
        a[i] < b[i]
    }
}

} // verus!
