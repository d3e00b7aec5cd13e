//! The on-disk form of the snapshot tree.
//!
//! The tree file holds one line: the tree as nested dictionaries in Python
//! literal syntax, a node being `{'name': N}` or
//! `{'name': N, 'children': [...]}` and the root being named `'root'`, e.g.
//! `{'name': 'root', 'children': [{'name': 0}, {'name': 1, 'children': [{'name': 2}]}]}`.
use vstd::prelude::*;
use crate::text::{chars_of, matches_at, decimal, push_all, string_of, dec, digit_char, digit_value, digits_value, is_digit, lemma_dec_digits, occurs_at};
use crate::tree::{depths_wf, entries_wf, ids_unique, SnapshotTree};

verus! {

/// `{'name': `
pub open spec fn name_key() -> Seq<char> {
    seq!['{', '\'', 'n', 'a', 'm', 'e', '\'', ':', ' ']
}

/// `, 'children': [`
pub open spec fn children_key() -> Seq<char> {
    seq![',', ' ', '\'', 'c', 'h', 'i', 'l', 'd', 'r', 'e', 'n', '\'', ':', ' ', '[']
}

/// `{'name': 'root'`
pub open spec fn root_head() -> Seq<char> {
    name_key() + seq!['\'', 'r', 'o', 'o', 't', '\'']
}

/// `]}`: closes a list of children and the node that owns it.
pub open spec fn closer() -> Seq<char> {
    seq![']', '}']
}

/// `, `: separates siblings.
pub open spec fn separator() -> Seq<char> {
    seq![',', ' ']
}

/// `c` closers in a row.
pub open spec fn closers(c: nat) -> Seq<char>
    decreases c,
{
    if c == 0 {
        Seq::empty()
    } else {
        closer() + closers((c - 1) as nat)
    }
}

/// The text of entry `i`: its name, then either the opening of its children
/// or its end followed by the lists it closes and what comes next.
pub open spec fn piece(ids: Seq<u32>, d: Seq<usize>, i: int) -> Seq<char> {
    name_key() + dec(ids[i] as nat) + tail_text(d, i)
}

/// What follows the name of entry `i`: the opening of its children, or its
/// end, the lists it closes, and a separator or (after the last entry) the
/// end of the root.
pub open spec fn tail_text(d: Seq<usize>, i: int) -> Seq<char> {
    if i + 1 < d.len() {
        if d[i + 1] > d[i] {
            children_key()
        } else {
            seq!['}'] + closers((d[i] - d[i + 1]) as nat) + separator()
        }
    } else {
        seq!['}'] + closers((d[i] - 1) as nat) + closer()
    }
}

/// The texts of entries `a` up to `b`.
pub open spec fn pieces(ids: Seq<u32>, d: Seq<usize>, a: int, b: int) -> Seq<char>
    decreases b - a,
{
    if b <= a {
        Seq::empty()
    } else {
        pieces(ids, d, a, b - 1) + piece(ids, d, b - 1)
    }
}

/// The root and the texts of the entries before `k`.
pub open spec fn text_prefix(ids: Seq<u32>, d: Seq<usize>, k: int) -> Seq<char> {
    root_head() + children_key() + pieces(ids, d, 0, k)
}

/// The line that stores a tree.
pub open spec fn fstree_text(ids: Seq<u32>, d: Seq<usize>) -> Seq<char> {
    if ids.len() == 0 {
        root_head() + seq!['}']
    } else {
        root_head() + children_key() + pieces(ids, d, 0, ids.len() as int)
    }
}

proof fn lemma_pieces_split(ids: Seq<u32>, d: Seq<usize>, a: int, b: int, c: int)
    requires
        a <= b <= c,
    ensures
        pieces(ids, d, a, c) == pieces(ids, d, a, b) + pieces(ids, d, b, c),
    decreases c - b,
{
    if c > b {
        lemma_pieces_split(ids, d, a, b, c - 1);
        assert(pieces(ids, d, a, c) =~= pieces(ids, d, a, b) + pieces(ids, d, b, c));
    } else {
        assert(pieces(ids, d, b, c) =~= Seq::<char>::empty());
        assert(pieces(ids, d, a, c) =~= pieces(ids, d, a, b) + pieces(ids, d, b, c));
    }
}

/// The pieces before `k` only depend on the entries before `k`, the depth
/// of entry `k`, and on there being an entry `k`.
proof fn lemma_pieces_congruent(
    ids1: Seq<u32>,
    d1: Seq<usize>,
    ids2: Seq<u32>,
    d2: Seq<usize>,
    k: int,
)
    requires
        0 <= k,
        k < d1.len(),
        k < d2.len(),
        k <= ids1.len(),
        k <= ids2.len(),
        ids1.take(k) == ids2.take(k),
        d1.take(k + 1) == d2.take(k + 1),
    ensures
        pieces(ids1, d1, 0, k) == pieces(ids2, d2, 0, k),
    decreases k,
{
    if k > 0 {
        assert(ids1.take(k - 1) =~= ids1.take(k).take(k - 1));
        assert(ids2.take(k - 1) =~= ids2.take(k).take(k - 1));
        assert(d1.take(k) =~= d1.take(k + 1).take(k));
        assert(d2.take(k) =~= d2.take(k + 1).take(k));
        lemma_pieces_congruent(ids1, d1, ids2, d2, k - 1);
        assert(ids1[k - 1] == ids1.take(k)[k - 1]);
        assert(ids2[k - 1] == ids2.take(k)[k - 1]);
        assert(d1[k - 1] == d1.take(k + 1)[k - 1]);
        assert(d1[k] == d1.take(k + 1)[k]);
        assert(d2[k - 1] == d2.take(k + 1)[k - 1]);
        assert(d2[k] == d2.take(k + 1)[k]);
        assert(piece(ids1, d1, k - 1) == piece(ids2, d2, k - 1));
    }
}

proof fn lemma_occurs_concat(a: Seq<char>, p: Seq<char>, b: Seq<char>)
    ensures
        occurs_at(a + p + b, p, a.len() as int),
{
    assert((a + p + b).subrange(a.len() as int, (a.len() + p.len()) as int) =~= p);
}

proof fn lemma_occurs_prefix(s: Seq<char>, p: Seq<char>, i: int, q: Seq<char>)
    requires
        occurs_at(s, p + q, i),
    ensures
        occurs_at(s, p, i),
        occurs_at(s, q, i + p.len()),
{
    let w = s.subrange(i, i + p.len() + q.len());
    assert(w == p + q);
    assert(s.subrange(i, i + p.len()) =~= w.subrange(0, p.len() as int));
    assert(w.subrange(0, p.len() as int) =~= p);
    assert(s.subrange(i + p.len(), i + p.len() + q.len()) =~= w.subrange(
        p.len() as int,
        (p + q).len() as int,
    ));
    assert(w.subrange(p.len() as int, (p + q).len() as int) =~= q);
}

/// `p` and `q` cannot both occur at the same place when they differ at a
/// position that both cover.
proof fn lemma_occurs_differ(s: Seq<char>, p: Seq<char>, q: Seq<char>, i: int, j: int)
    requires
        occurs_at(s, p, i),
        0 <= j < p.len(),
        j < q.len(),
        p[j] != q[j],
    ensures
        !occurs_at(s, q, i),
{
    assert(s.subrange(i, i + p.len())[j] == s[i + j]);
    if occurs_at(s, q, i) {
        assert(s.subrange(i, i + q.len())[j] == s[i + j]);
    }
}

proof fn lemma_closers_len(c: nat)
    ensures
        closers(c).len() == 2 * c,
    decreases c,
{
    if c > 0 {
        lemma_closers_len((c - 1) as nat);
    }
}

proof fn lemma_closers_push(c: nat)
    ensures
        closers(c) + closer() == closers(c + 1),
    decreases c,
{
    if c > 0 {
        lemma_closers_push((c - 1) as nat);
        assert(closers(c) + closer() =~= closer() + (closers((c - 1) as nat) + closer()));
    } else {
        assert(closers(0) + closer() =~= closers(1));
    }
}

proof fn lemma_digit_char_of(c: char)
    requires
        is_digit(c),
    ensures
        digit_value(c) < 10,
        digit_char(digit_value(c)) == c,
{
    if c == '0' {} else if c == '1' {} else if c == '2' {} else if c == '3' {} else if c == '4' {}
    else if c == '5' {} else if c == '6' {} else if c == '7' {} else if c == '8' {} else {}
}

/// The decimal form of `v` occurs at `pos` and no digit follows it.
pub open spec fn number_at(t: Seq<char>, pos: int, v: nat) -> bool {
    &&& occurs_at(t, dec(v), pos)
    &&& (pos + dec(v).len() == t.len() || !is_digit(t[pos + dec(v).len()]))
}

/// A run of digits without a leading zero.
pub open spec fn canonical_digits(s: Seq<char>) -> bool {
    &&& s.len() > 0
    &&& forall|i: int| 0 <= i < s.len() ==> is_digit(#[trigger] s[i])
    &&& (s.len() == 1 || s[0] != '0')
}

proof fn lemma_digits_positive(s: Seq<char>)
    requires
        s.len() > 0,
        forall|i: int| 0 <= i < s.len() ==> is_digit(#[trigger] s[i]),
        s[0] != '0',
    ensures
        digits_value(s) >= 1,
    decreases s.len(),
{
    if s.len() == 1 {
        assert(s.drop_last().len() == 0);
        assert(digits_value(s.drop_last()) == 0);
        assert(digit_value(s[0]) >= 1);
    } else {
        let t = s.drop_last();
        assert forall|i: int| 0 <= i < t.len() implies is_digit(#[trigger] t[i]) by {
            assert(t[i] == s[i]);
        }
        lemma_digits_positive(t);
    }
}

/// Canonical digit runs are exactly the decimal forms of their values.
proof fn lemma_canonical_dec(s: Seq<char>)
    requires
        canonical_digits(s),
    ensures
        dec(digits_value(s)) == s,
    decreases s.len(),
{
    let v = digits_value(s);
    lemma_digit_char_of(s.last());
    if s.len() == 1 {
        assert(digits_value(s.drop_last()) == 0);
        assert(v == digit_value(s[0]));
        assert(dec(v) =~= s);
    } else {
        let t = s.drop_last();
        assert forall|i: int| 0 <= i < t.len() implies is_digit(#[trigger] t[i]) by {
            assert(t[i] == s[i]);
        }
        assert(t[0] == s[0]);
        lemma_canonical_dec(t);
        lemma_digits_positive(t);
        let w = digits_value(t);
        let dl = digit_value(s.last());
        assert(v == w * 10 + dl);
        assert(v / 10 == w && v % 10 == dl) by (nonlinear_arith)
            requires
                v == w * 10 + dl,
                dl < 10,
        ;
        assert(v >= 10) by (nonlinear_arith)
            requires
                v == w * 10 + dl,
                w >= 1,
        ;
        assert(dec(v) =~= s);
    }
}

/// The longest run of digits starting at `pos`, read as a snapshot number.
/// It is refused when it is empty, has a leading zero, or does not fit.
pub(crate) fn parse_number(t: &[char], pos: usize) -> (r: Option<(u32, usize)>)
    requires
        pos <= t.len(),
    ensures
        r matches Some((v, e)) ==> pos < e <= t.len() && t@.subrange(pos as int, e as int) == dec(
            v as nat,
        ) && (e == t.len() || !is_digit(t@[e as int])) && (forall|j: int| pos <= j < e ==> is_digit(#[trigger] t@[j])),
        r is None ==> forall|v: u32| !#[trigger] number_at(t@, pos as int, v as nat),
{
    let mut e = pos;
    while e < t.len() && '0' <= t[e] && t[e] <= '9'
        invariant
            pos <= e <= t.len(),
            forall|j: int| pos <= j < e ==> is_digit(#[trigger] t@[j]),
        decreases t.len() - e,
    {
        e = e + 1;
    }
    let ghost run = t@.subrange(pos as int, e as int);
    if e == pos {
        assert forall|v: u32| !#[trigger] number_at(t@, pos as int, v as nat) by {
            if number_at(t@, pos as int, v as nat) {
                lemma_number_run(t@, pos as int, e as int, v as nat);
                lemma_dec_digits(v as nat);
            }
        }
        return None;
    }
    if e - pos > 1 && t[pos] == '0' {
        assert forall|v: u32| !#[trigger] number_at(t@, pos as int, v as nat) by {
            if number_at(t@, pos as int, v as nat) {
                lemma_number_run(t@, pos as int, e as int, v as nat);
                lemma_dec_digits(v as nat);
                if v >= 10 {
                    lemma_dec_first_nonzero(v as nat);
                }
                assert(run[0] == t@[pos as int]);
            }
        }
        return None;
    }
    let mut acc: u64 = 0;
    let mut j = pos;
    while j < e
        invariant
            pos <= j <= e <= t.len(),
            run == t@.subrange(pos as int, e as int),
            e == t.len() || !is_digit(t@[e as int]),
            forall|m: int| pos <= m < e ==> is_digit(#[trigger] t@[m]),
            acc as nat == digits_value(t@.subrange(pos as int, j as int)),
            acc <= u32::MAX,
        decreases e - j,
    {
        let dv: u64 = (t[j] as u32 - '0' as u32) as u64;
        assert(is_digit(t@[j as int]));
        assert(t@.subrange(pos as int, j + 1).drop_last() =~= t@.subrange(pos as int, j as int));
        assert(dv as nat == digit_value(t@[j as int]));
        let next = acc * 10 + dv;
        assert(digits_value(t@.subrange(pos as int, j + 1)) == next as nat);
        if next > u32::MAX as u64 {
            assert forall|v: u32| !#[trigger] number_at(t@, pos as int, v as nat) by {
                if number_at(t@, pos as int, v as nat) {
                    lemma_number_run(t@, pos as int, e as int, v as nat);
                    lemma_dec_digits(v as nat);
                    lemma_digits_value_prefix_bound(run, (j + 1 - pos) as int);
                    assert(run.take((j + 1 - pos) as int) =~= t@.subrange(pos as int, j + 1));
                }
            }
            return None;
        }
        acc = next;
        j = j + 1;
    }
    proof {
        assert forall|i: int| 0 <= i < run.len() implies is_digit(#[trigger] run[i]) by {
            assert(run[i] == t@[pos + i]);
        }
        assert(run.len() == 1 || run[0] != '0') by {
            assert(run[0] == t@[pos as int]);
        }
        lemma_canonical_dec(run);
    }
    Some((acc as u32, e))
}

/// A decimal number that occurs at `pos` and is not followed by a digit is
/// the whole digit run `pos..e`.
pub(crate) proof fn lemma_number_run(t: Seq<char>, pos: int, e: int, v: nat)
    requires
        0 <= pos <= e <= t.len(),
        forall|j: int| pos <= j < e ==> is_digit(#[trigger] t[j]),
        e == t.len() || !is_digit(t[e]),
        number_at(t, pos, v),
    ensures
        dec(v) == t.subrange(pos, e),
{
    lemma_dec_digits(v);
    let dv = dec(v);
    let f = pos + dv.len();
    assert forall|j: int| pos <= j < f implies is_digit(#[trigger] t[j]) by {
        assert(t.subrange(pos, f)[j - pos] == t[j]);
        assert(is_digit(dv[j - pos]));
    }
    if f < e {
        assert(is_digit(t[f]));
    } else if f > e {
        assert(is_digit(t[e]));
    }
    assert(dv =~= t.subrange(pos, e));
}

proof fn lemma_dec_first_nonzero(n: nat)
    requires
        n >= 10,
    ensures
        dec(n)[0] != '0',
    decreases n,
{
    lemma_dec_digits(n);
    if n / 10 >= 10 {
        lemma_dec_first_nonzero(n / 10);
        assert(dec(n)[0] == dec(n / 10)[0]);
    } else {
        assert(dec(n / 10) =~= seq![digit_char(n / 10)]);
        assert(n / 10 >= 1);
        assert(dec(n)[0] == digit_char(n / 10));
    }
}

/// The value of a digit run is at least the value of any of its prefixes.
proof fn lemma_digits_value_prefix_bound(s: Seq<char>, k: int)
    requires
        0 <= k <= s.len(),
    ensures
        digits_value(s.take(k)) <= digits_value(s),
    decreases s.len() - k,
{
    if k < s.len() {
        assert(s.drop_last().take(k) =~= s.take(k));
        if k < s.len() - 1 {
            lemma_digits_value_prefix_bound(s.drop_last(), k);
        } else {
            assert(s.drop_last() =~= s.take(k));
        }
        assert(digits_value(s) == digits_value(s.drop_last()) * 10 + digit_value(s.last()));
        assert(digits_value(s.drop_last()) <= digits_value(s.drop_last()) * 10) by (nonlinear_arith);
    } else {
        assert(s.take(k) =~= s);
    }
}


/// `t` is the stored form of a well-formed tree with entries `ids`, `d`.
#[verifier::opaque]
pub open spec fn serializes(t: Seq<char>, ids: Seq<u32>, d: Seq<usize>) -> bool {
    entries_wf(ids, d) && fstree_text(ids, d) == t
}

proof fn lemma_closers_add(a: nat, b: nat)
    ensures
        closers(a + b) == closers(a) + closers(b),
    decreases a,
{
    if a > 0 {
        lemma_closers_add((a - 1) as nat, b);
        assert(closers(a + b) =~= closers(a) + closers(b));
    } else {
        assert(closers(b) =~= closers(0) + closers(b));
    }
}

/// The stored form of a non-empty tree, cut at entry `k`.
proof fn lemma_piece_at(ids: Seq<u32>, d: Seq<usize>, k: int)
    requires
        ids.len() == d.len(),
        0 <= k < ids.len(),
    ensures
        fstree_text(ids, d) == text_prefix(ids, d, k) + (name_key() + (dec(ids[k] as nat)
            + tail_text(d, k))) + pieces(ids, d, k + 1, ids.len() as int),
        text_prefix(ids, d, k + 1) == text_prefix(ids, d, k) + piece(ids, d, k),
{
    lemma_pieces_split(ids, d, 0, k, ids.len() as int);
    lemma_pieces_split(ids, d, k, k + 1, ids.len() as int);
    assert(pieces(ids, d, k, k) =~= Seq::<char>::empty());
    assert(pieces(ids, d, k, k + 1) =~= piece(ids, d, k));
    assert(fstree_text(ids, d) =~= text_prefix(ids, d, k) + (name_key() + (dec(ids[k] as nat)
        + tail_text(d, k))) + pieces(ids, d, k + 1, ids.len() as int));
    assert(text_prefix(ids, d, k + 1) =~= text_prefix(ids, d, k) + piece(ids, d, k));
}

proof fn lemma_text_prefix_congruent(
    ids1: Seq<u32>,
    d1: Seq<usize>,
    ids2: Seq<u32>,
    d2: Seq<usize>,
    k: int,
)
    requires
        0 <= k,
        k < d1.len(),
        k < d2.len(),
        k <= ids1.len(),
        k <= ids2.len(),
        ids1.take(k) == ids2.take(k),
        d1.take(k + 1) == d2.take(k + 1),
    ensures
        text_prefix(ids1, d1, k) == text_prefix(ids2, d2, k),
{
    lemma_pieces_congruent(ids1, d1, ids2, d2, k);
}

/// Writes the entry texts one after the other.
fn push_closers(out: &mut Vec<char>, c: usize)
    ensures
        final(out)@ == old(out)@ + closers(c as nat),
{
    let mut k: usize = 0;
    while k < c
        invariant
            k <= c,
            out@ == old(out)@ + closers(k as nat),
        decreases c - k,
    {
        out.push(']');
        out.push('}');
        proof { lemma_closers_push(k as nat); }
        k = k + 1;
        assert(out@ =~= old(out)@ + closers(k as nat));
    }
}

/// Writes what follows the name of entry `i`.
fn push_tail(out: &mut Vec<char>, tree: &SnapshotTree, i: usize, ck: &[char])
    requires
        tree.wf(),
        i < tree.ids().len(),
        ck@ == children_key(),
    ensures
        final(out)@ == old(out)@ + tail_text(tree.depths(), i as int),
{
    let ghost d = tree.depths();
    let n = tree.len();
    let di = tree.depth_at(i);
    if i + 1 < n {
        let dn = tree.depth_at(i + 1);
        if dn > di {
            push_all(out, ck);
        } else {
            out.push('}');
            push_closers(out, di - dn);
            out.push(',');
            out.push(' ');
            assert(out@ =~= old(out)@ + tail_text(d, i as int));
        }
    } else {
        assert(d[i as int] >= 1);
        out.push('}');
        push_closers(out, di - 1);
        out.push(']');
        out.push('}');
        assert(out@ =~= old(out)@ + tail_text(d, i as int));
    }
}

/// The line that stores `tree`.
pub fn write_tree(tree: &SnapshotTree) -> (line: String)
    requires
        tree.wf(),
    ensures
        line@ == fstree_text(tree.ids(), tree.depths()),
{
    let ghost ids = tree.ids();
    let ghost d = tree.depths();
    let n = tree.len();
    let mut out: Vec<char> = vec!['{', '\'', 'n', 'a', 'm', 'e', '\'', ':', ' ', '\'', 'r', 'o', 'o', 't', '\''];
    assert(out@ =~= root_head());
    if n == 0 {
        out.push('}');
        assert(out@ =~= fstree_text(ids, d));
        return string_of(out.as_slice());
    }
    let ck = vec![',', ' ', '\'', 'c', 'h', 'i', 'l', 'd', 'r', 'e', 'n', '\'', ':', ' ', '['];
    assert(ck@ =~= children_key());
    let nk = vec!['{', '\'', 'n', 'a', 'm', 'e', '\'', ':', ' '];
    assert(nk@ =~= name_key());
    push_all(&mut out, ck.as_slice());
    assert(out@ =~= text_prefix(ids, d, 0));
    let mut i: usize = 0;
    while i < n
        invariant
            tree.wf(),
            ids == tree.ids(),
            d == tree.depths(),
            n == ids.len(),
            i <= n,
            ck@ == children_key(),
            nk@ == name_key(),
            out@ == text_prefix(ids, d, i as int),
        decreases n - i,
    {
        let ghost before = out@;
        push_all(&mut out, nk.as_slice());
        let num = decimal(tree.id_at(i));
        push_all(&mut out, num.as_slice());
        push_tail(&mut out, tree, i, ck.as_slice());
        proof {
            lemma_piece_at(ids, d, i as int);
            assert(out@ =~= before + piece(ids, d, i as int));
        }
        i = i + 1;
    }
    assert(out@ =~= fstree_text(ids, d));
    string_of(out.as_slice())
}


/// Every other character of a run of closers, from the first, is `]`.
proof fn lemma_closers_even(c: nat, j: int)
    requires
        0 <= j < c,
    ensures
        closers(c)[2 * j] == ']',
        closers(c).len() == 2 * c,
    decreases c,
{
    lemma_closers_len(c);
    lemma_closers_len((c - 1) as nat);
    if j > 0 {
        lemma_closers_even((c - 1) as nat, j - 1);
        assert(closers(c)[2 * j] == closers((c - 1) as nat)[2 * (j - 1)]);
    }
}

/// A separator after `a` closers and the end of the root after `b >= a`
/// closers cannot both start at the same place; neither can separators after
/// two different numbers of closers.
proof fn lemma_closing_distinct(t: Seq<char>, pos: int, a: nat, b: nat, end_b: bool)
    requires
        occurs_at(t, closers(a) + separator(), pos),
        end_b ==> a <= b,
        !end_b ==> a < b,
    ensures
        end_b ==> !occurs_at(t, closers(b) + closer(), pos),
        !end_b ==> !occurs_at(t, closers(b) + separator(), pos),
{
    lemma_closers_len(a);
    lemma_closers_len(b);
    let p = closers(a) + separator();
    let q = if end_b { closers(b) + closer() } else { closers(b) + separator() };
    assert(p[2 * a as int] == ',');
    if a < b {
        lemma_closers_even(b, a as int);
        assert(q[2 * a as int] == ']');
    } else {
        assert(q[2 * a as int] == ']');
    }
    lemma_occurs_differ(t, p, q, pos, 2 * a as int);
}

/// How the closing of a node goes on after its `}`.
pub enum Closing {
    /// A sibling follows at the given position and depth.
    Sibling(usize, usize),
    /// The root is closed and the line ends.
    End,
    /// The text is not a closing.
    Fail,
}

/// Reads the closers after a node of depth `depth`, up to a separator or the
/// end of the root.
fn parse_closers(t: &[char], pos: usize, depth: usize) -> (r: Closing)
    requires
        pos <= t.len(),
        depth >= 1,
    ensures
        match r {
            Closing::Sibling(p2, d2) => 1 <= d2 <= depth && pos < p2 <= t.len() && t@.subrange(
                pos as int,
                p2 as int,
            ) == closers((depth - d2) as nat) + separator(),
            Closing::End => t@.subrange(pos as int, t.len() as int) == closers((depth - 1) as nat)
                + closer(),
            Closing::Fail => (forall|c: nat|
                c < depth ==> !occurs_at(t@, #[trigger] closers(c) + separator(), pos as int)) && !occurs_at(
                t@,
                closers((depth - 1) as nat) + closer(),
                pos as int,
            ) || (occurs_at(t@, closers((depth - 1) as nat) + closer(), pos as int) && (forall|c: nat|
                c < depth ==> !occurs_at(t@, #[trigger] closers(c) + separator(), pos as int))
                && t@.subrange(pos as int, t.len() as int) != closers((depth - 1) as nat) + closer()),
        },
{
    let sep = vec![',', ' '];
    let cl = vec![']', '}'];
    assert(sep@ =~= separator());
    assert(cl@ =~= closer());
    let mut cur = pos;
    let mut c: usize = 0;
    assert(t@.subrange(pos as int, pos as int) =~= closers(0));
    loop
        invariant
            sep@ == separator(),
            cl@ == closer(),
            pos <= cur <= t.len(),
            c < depth,
            cur == pos + 2 * c,
            t@.subrange(pos as int, cur as int) == closers(c as nat),
            forall|c2: nat| c2 < c ==> !occurs_at(t@, #[trigger] closers(c2) + separator(), pos as int),
        decreases t.len() - cur,
    {
        proof { lemma_closers_len(c as nat); }
        if matches_at(t, sep.as_slice(), cur) {
            assert(t@.subrange(pos as int, cur + 2) =~= t@.subrange(pos as int, cur as int)
                + t@.subrange(cur as int, cur + 2));
            return Closing::Sibling(cur + 2, depth - c);
        }
        // A separator after exactly `c` closers would sit at `cur`.
        assert(!occurs_at(t@, closers(c as nat) + separator(), pos as int)) by {
            if occurs_at(t@, closers(c as nat) + separator(), pos as int) {
                lemma_occurs_prefix(t@, closers(c as nat), pos as int, separator());
            }
        }
        if !matches_at(t, cl.as_slice(), cur) {
            proof {
                assert forall|c2: nat| c2 < depth implies !occurs_at(t@, #[trigger] closers(c2) + separator(), pos as int) by {
                    if c2 > c && occurs_at(t@, closers(c2) + separator(), pos as int) {
                        lemma_closers_add(c as nat, (c2 - c) as nat);
                        lemma_closers_len((c2 - c) as nat);
                        assert(closers((c2 - c) as nat) =~= closer() + closers((c2 - c - 1) as nat));
                        assert(closers(c2) + separator() =~= closers(c as nat) + (closer() + (closers((c2 - c - 1) as nat) + separator())));
                        lemma_occurs_prefix(t@, closers(c as nat), pos as int, closer() + (closers((c2 - c - 1) as nat) + separator()));
                        lemma_occurs_prefix(t@, closer(), cur as int, closers((c2 - c - 1) as nat) + separator());
                    }
                }
                if occurs_at(t@, closers((depth - 1) as nat) + closer(), pos as int) {
                    let b = (depth - 1) as nat;
                    lemma_closers_add(c as nat, (b - c) as nat);
                    assert(closers(b) + closer() =~= closers(c as nat) + (closers((b - c) as nat) + closer()));
                    lemma_occurs_prefix(t@, closers(c as nat), pos as int, closers((b - c) as nat) + closer());
                    if b > c {
                        assert(closers((b - c) as nat) =~= closer() + closers((b - c - 1) as nat));
                        assert(closers((b - c) as nat) + closer() =~= closer() + (closers((b - c - 1) as nat) + closer()));
                        lemma_occurs_prefix(t@, closer(), cur as int, closers((b - c - 1) as nat) + closer());
                    } else {
                        assert(closers(0) + closer() =~= closer() + Seq::<char>::empty());
                        lemma_occurs_prefix(t@, closer(), cur as int, Seq::<char>::empty());
                    }
                }
            }
            return Closing::Fail;
        }
        let ghost prev = cur;
        cur = cur + 2;
        c = c + 1;
        proof {
            lemma_closers_push((c - 1) as nat);
            assert(t@.subrange(pos as int, cur as int) =~= t@.subrange(pos as int, prev as int)
                + t@.subrange(prev as int, cur as int));
        }
        if c == depth {
            if cur == t.len() {
                return Closing::End;
            }
            proof {
                assert(occurs_at(t@, closers((depth - 1) as nat) + closer(), pos as int));
                assert(t@.subrange(pos as int, t.len() as int).len() != (closers((depth - 1) as nat) + closer()).len());
            }
            return Closing::Fail;
        }
    }
}


/// The parse so far agrees with the entries `ids`, `d`: the entries read are
/// their first ones, and the next entry exists and has depth `depth`.
pub open spec fn agrees(ids: Seq<u32>, d: Seq<usize>, read_ids: Seq<u32>, read_d: Seq<usize>, depth: usize) -> bool {
    &&& read_ids.len() < ids.len()
    &&& ids.len() == d.len()
    &&& read_ids == ids.take(read_ids.len() as int)
    &&& read_d == d.take(read_ids.len() as int)
    &&& depth == d[read_ids.len() as int]
}

/// Where the entry `k` of a stored tree begins, its name, number and tail
/// follow one another.
proof fn lemma_node_start(t: Seq<char>, ids: Seq<u32>, d: Seq<usize>, k: int, pos: int)
    requires
        serializes(t, ids, d),
        0 <= k < ids.len(),
        0 <= pos <= t.len(),
        t.take(pos) == text_prefix(ids, d, k),
    ensures
        occurs_at(t, name_key(), pos),
        number_at(t, pos + name_key().len(), ids[k] as nat),
        occurs_at(t, tail_text(d, k), pos + name_key().len() + dec(ids[k] as nat).len()),
        tail_text(d, k).len() > 0,
        tail_text(d, k)[0] == ',' || tail_text(d, k)[0] == '}',
        tail_text(d, k)[0] == ',' <==> tail_text(d, k) == children_key(),
        k + 1 == ids.len() ==> pos + name_key().len() + dec(ids[k] as nat).len() + tail_text(d, k).len() == t.len(),
{
    reveal(serializes);
    lemma_piece_at(ids, d, k);
    let p = text_prefix(ids, d, k);
    let x = name_key() + (dec(ids[k] as nat) + tail_text(d, k));
    let r = pieces(ids, d, k + 1, ids.len() as int);
    assert(t.take(pos).len() == pos);
    lemma_occurs_concat(p, x, r);
    lemma_occurs_prefix(t, name_key(), pos, dec(ids[k] as nat) + tail_text(d, k));
    lemma_occurs_prefix(t, dec(ids[k] as nat), pos + name_key().len(), tail_text(d, k));
    let tl = tail_text(d, k);
    let f = pos + name_key().len() + dec(ids[k] as nat).len();
    if k + 1 < d.len() && d[k + 1] > d[k] {
        assert(tl[0] == ',');
    } else {
        assert(tl[0] == '}');
    }
    assert(t.subrange(f, f + tl.len())[0] == t[f]);
    assert(t[f] == tl[0]);
    if k + 1 == ids.len() {
        assert(r =~= Seq::<char>::empty());
    }
}

fn contains_u32(v: &Vec<u32>, x: u32) -> (b: bool)
    ensures
        b == v@.contains(x),
{
    let mut i: usize = 0;
    while i < v.len()
        invariant
            i <= v.len(),
            forall|j: int| 0 <= j < i ==> v@[j] != x,
        decreases v.len() - i,
    {
        if v[i] == x {
            assert(v@[i as int] == x);
            return true;
        }
        i = i + 1;
    }
    false
}


/// Appending an entry whose successor is at most one level deeper keeps the
/// listing well formed.
proof fn lemma_push_entry(ids0: Seq<u32>, ds0: Seq<usize>, depth0: usize, v: u32, next: usize)
    requires
        depths_wf(ds0.push(depth0)),
        ids_unique(ids0),
        !ids0.contains(v),
        1 <= next <= depth0 + 1,
    ensures
        depths_wf(ds0.push(depth0).push(next)),
        ids_unique(ids0.push(v)),
{
    let d1 = ds0.push(depth0);
    let dn = d1.push(next);
    assert forall|a: int| 0 < a < dn.len() implies #[trigger] dn[a] <= dn[a - 1] + 1 by {
        if a < dn.len() - 1 {
            assert(dn[a] == d1[a]);
            assert(dn[a - 1] == d1[a - 1]);
        }
    }
    assert forall|a: int| 0 <= a < dn.len() implies #[trigger] dn[a] >= 1 by {
        if a < dn.len() - 1 {
            assert(dn[a] == d1[a]);
        }
    }
    assert(dn[0] == d1[0]);
    let ids1 = ids0.push(v);
    let k = ids0.len() as int;
    assert forall|a: int, b: int| 0 <= a < ids1.len() && 0 <= b < ids1.len() && a != b implies ids1[a] != ids1[b] by {
        if a < k && b < k {
            assert(ids1[a] == ids0[a] && ids1[b] == ids0[b]);
        } else if a == k {
            assert(ids1[b] == ids0[b]);
        } else {
            assert(ids1[a] == ids0[a]);
        }
    }
}

/// After an entry followed by the opening of its children, the parse state
/// for the first child.
proof fn lemma_children_step(
    ts: Seq<char>,
    ids0: Seq<u32>,
    ds0: Seq<usize>,
    depth0: usize,
    v: u32,
    pos0: int,
    e: int,
    ids1: Seq<u32>,
    ds1: Seq<usize>,
)
    requires
        ids0.len() == ds0.len(),
        1 <= depth0 < usize::MAX,
        depths_wf(ds0.push(depth0)),
        ids_unique(ids0),
        !ids0.contains(v),
        ids1 == ids0.push(v),
        ds1 == ds0.push(depth0),
        0 <= pos0 <= e,
        e + children_key().len() <= ts.len(),
        ts.take(pos0) == text_prefix(ids0.push(0), ds0.push(depth0), ids0.len() as int),
        ts.take(e) == ts.take(pos0) + name_key() + dec(v as nat),
        occurs_at(ts, children_key(), e),
        forall|ii: Seq<u32>, dd: Seq<usize>| #[trigger] serializes(ts, ii, dd) ==> agrees(ii, dd, ids0, ds0, depth0)
            && ii[ids0.len() as int] == v && ts.take(pos0) == text_prefix(ii, dd, ids0.len() as int),
    ensures
        ({
            let k = ids0.len() as int;
            let pos = e + children_key().len();
            let depth = (depth0 + 1) as usize;
            &&& depths_wf(ds1.push(depth))
            &&& ids_unique(ids1)
            &&& ts.take(pos) == text_prefix(ids1.push(0), ds1.push(depth), k + 1)
            &&& forall|ii: Seq<u32>, dd: Seq<usize>| #[trigger] serializes(ts, ii, dd) ==> agrees(ii, dd, ids1, ds1, depth)
        }),
{
    let k = ids0.len() as int;
    let pos = e + children_key().len();
    let depth = (depth0 + 1) as usize;
    let idn = ids1.push(0);
    let dn = ds1.push(depth);
    assert(ds0.push(depth0).take(k + 1) =~= dn.take(k + 1));
    assert(ids0.push(0).take(k) =~= idn.take(k));
    lemma_text_prefix_congruent(ids0.push(0), ds0.push(depth0), idn, dn, k);
    lemma_piece_at(idn, dn, k);
    assert(tail_text(dn, k) == children_key());
    assert(ts.subrange(e, pos) == children_key());
    assert(ts.take(pos) =~= ts.take(e) + ts.subrange(e, pos));
    assert(ts.take(pos) =~= text_prefix(idn, dn, k + 1));
    lemma_push_entry(ids0, ds0, depth0, v, depth);
    assert forall|ii: Seq<u32>, dd: Seq<usize>| #[trigger] serializes(ts, ii, dd) implies agrees(ii, dd, ids1, ds1, depth) by {
        reveal(serializes);
        lemma_node_start(ts, ii, dd, k, pos0);
        lemma_dec_digits(v as nat);
        lemma_children_agree(ts, ii, dd, ids0, ds0, depth0, v, e);
    }
}

/// One stored tree read up to an entry followed by the opening of its
/// children: its next entry is that first child.
proof fn lemma_children_agree(
    ts: Seq<char>,
    ii: Seq<u32>,
    dd: Seq<usize>,
    ids0: Seq<u32>,
    ds0: Seq<usize>,
    depth0: usize,
    v: u32,
    e: int,
)
    requires
        entries_wf(ii, dd),
        agrees(ii, dd, ids0, ds0, depth0),
        ii[ids0.len() as int] == v,
        occurs_at(ts, tail_text(dd, ids0.len() as int), e),
        occurs_at(ts, children_key(), e),
    ensures
        agrees(ii, dd, ids0.push(v), ds0.push(depth0), (depth0 + 1) as usize),
{
    let k = ids0.len() as int;
    lemma_tail_first(dd, k);
    let tl = tail_text(dd, k);
    assert(tl[0] == ',') by {
        assert(ts.subrange(e, e + 15)[0] == ts[e]);
        assert(ts.subrange(e, e + tl.len())[0] == ts[e]);
    }
    assert(k + 1 < dd.len() && dd[k + 1] > dd[k]);
    assert(dd[k + 1] <= dd[k] + 1);
    assert(ids0.push(v) =~= ii.take(k + 1));
    assert(ds0.push(depth0) =~= dd.take(k + 1));
}

/// The first character of what follows a name tells whether children follow.
proof fn lemma_tail_first(d: Seq<usize>, k: int)
    requires
        0 <= k < d.len(),
    ensures
        tail_text(d, k).len() > 0,
        tail_text(d, k)[0] == ',' <==> (k + 1 < d.len() && d[k + 1] > d[k]),
        tail_text(d, k)[0] == ',' || tail_text(d, k)[0] == '}',
        (k + 1 < d.len() && d[k + 1] > d[k]) ==> tail_text(d, k) == children_key(),
{
}

/// After an entry that closes with `}` at `e`, the stored text goes on with
/// the closers down to the next entry and a separator, or, after the last
/// entry, with all closers and the end of the root.
proof fn lemma_closing_cases(ts: Seq<char>, d: Seq<usize>, k: int, e: int)
    requires
        depths_wf(d),
        0 <= k < d.len(),
        occurs_at(ts, tail_text(d, k), e),
        ts[e] == '}',
        k + 1 == d.len() ==> e + tail_text(d, k).len() == ts.len(),
    ensures
        k + 1 < d.len() ==> 1 <= d[k + 1] <= d[k] && occurs_at(
            ts,
            closers((d[k] - d[k + 1]) as nat) + separator(),
            e + 1,
        ),
        k + 1 == d.len() ==> occurs_at(ts, closers((d[k] - 1) as nat) + closer(), e + 1) && ts.subrange(
            e + 1,
            ts.len() as int,
        ) == closers((d[k] - 1) as nat) + closer(),
{
    lemma_tail_first(d, k);
    let tl = tail_text(d, k);
    assert(ts.subrange(e, e + tl.len())[0] == ts[e]);
    assert(tl[0] == '}');
    if k + 1 < d.len() {
        assert(d[k + 1] >= 1);
        let rest = closers((d[k] - d[k + 1]) as nat) + separator();
        assert(tl =~= seq!['}'] + rest);
        lemma_occurs_prefix(ts, seq!['}'], e, rest);
    } else {
        let rest = closers((d[k] - 1) as nat) + closer();
        assert(tl =~= seq!['}'] + rest);
        lemma_occurs_prefix(ts, seq!['}'], e, rest);
        assert(ts.subrange(e + 1, ts.len() as int) =~= ts.subrange(e, e + tl.len()).subrange(1, tl.len() as int));
    }
}

/// After an entry, its closers and a separator, the parse state for the
/// entry's next sibling (or the next sibling of an ancestor).
proof fn lemma_sibling_step(
    ts: Seq<char>,
    ids0: Seq<u32>,
    ds0: Seq<usize>,
    depth0: usize,
    v: u32,
    pos0: int,
    e: int,
    p2: int,
    d2: usize,
)
    requires
        ids0.len() == ds0.len(),
        1 <= depth0,
        1 <= d2 <= depth0,
        depths_wf(ds0.push(depth0)),
        ids_unique(ids0),
        !ids0.contains(v),
        0 <= pos0 <= e,
        e + 1 <= p2 <= ts.len(),
        ts[e] == '}',
        ts.take(pos0) == text_prefix(ids0.push(0), ds0.push(depth0), ids0.len() as int),
        ts.take(e) == ts.take(pos0) + name_key() + dec(v as nat),
        ts.subrange(e + 1, p2) == closers((depth0 - d2) as nat) + separator(),
        forall|ii: Seq<u32>, dd: Seq<usize>| #[trigger] serializes(ts, ii, dd) ==> agrees(ii, dd, ids0, ds0, depth0)
            && ii[ids0.len() as int] == v && ts.take(pos0) == text_prefix(ii, dd, ids0.len() as int),
    ensures
        ({
            let k = ids0.len() as int;
            let ids1 = ids0.push(v);
            let ds1 = ds0.push(depth0);
            &&& depths_wf(ds1.push(d2))
            &&& ids_unique(ids1)
            &&& ts.take(p2) == text_prefix(ids1.push(0), ds1.push(d2), k + 1)
            &&& forall|ii: Seq<u32>, dd: Seq<usize>| #[trigger] serializes(ts, ii, dd) ==> agrees(ii, dd, ids1, ds1, d2)
        }),
{
    let k = ids0.len() as int;
    let ids1 = ids0.push(v);
    let ds1 = ds0.push(depth0);
    let idn = ids1.push(0);
    let dn = ds1.push(d2);
    lemma_push_entry(ids0, ds0, depth0, v, d2);
    assert(ds0.push(depth0).take(k + 1) =~= dn.take(k + 1));
    assert(ids0.push(0).take(k) =~= idn.take(k));
    lemma_text_prefix_congruent(ids0.push(0), ds0.push(depth0), idn, dn, k);
    lemma_piece_at(idn, dn, k);
    assert(tail_text(dn, k) =~= seq!['}'] + closers((depth0 - d2) as nat) + separator());
    assert(ts.take(p2) =~= ts.take(e) + ts.subrange(e, e + 1) + ts.subrange(e + 1, p2));
    assert(ts.subrange(e, e + 1) =~= seq!['}']);
    assert(ts.take(p2) =~= text_prefix(idn, dn, k + 1));
    assert forall|ii: Seq<u32>, dd: Seq<usize>| #[trigger] serializes(ts, ii, dd) implies agrees(ii, dd, ids1, ds1, d2) by {
        reveal(serializes);
        lemma_node_start(ts, ii, dd, k, pos0);
        lemma_dec_digits(v as nat);
        lemma_closing_cases(ts, dd, k, e);
        let c2 = (depth0 - d2) as nat;
        assert(occurs_at(ts, closers(c2) + separator(), e + 1)) by {
            assert(ts.subrange(e + 1, e + 1 + (closers(c2) + separator()).len()) == ts.subrange(e + 1, p2));
        }
        if k + 1 == dd.len() {
            lemma_closing_distinct(ts, e + 1, c2, (depth0 - 1) as nat, true);
        } else {
            let c = (dd[k] - dd[k + 1]) as nat;
            if c < c2 {
                lemma_closing_distinct(ts, e + 1, c, c2, false);
            } else if c2 < c {
                lemma_closing_distinct(ts, e + 1, c2, c, false);
            }
            assert(ids1 =~= ii.take(k + 1));
            assert(ds1 =~= dd.take(k + 1));
        }
    }
}

/// The last entry closed the root: the entries read are the whole tree.
proof fn lemma_end_step(
    ts: Seq<char>,
    ids0: Seq<u32>,
    ds0: Seq<usize>,
    depth0: usize,
    v: u32,
    pos0: int,
    e: int,
)
    requires
        ids0.len() == ds0.len(),
        1 <= depth0,
        depths_wf(ds0.push(depth0)),
        ids_unique(ids0),
        !ids0.contains(v),
        0 <= pos0 <= e < ts.len(),
        ts[e] == '}',
        ts.take(pos0) == text_prefix(ids0.push(0), ds0.push(depth0), ids0.len() as int),
        ts.take(e) == ts.take(pos0) + name_key() + dec(v as nat),
        ts.subrange(e + 1, ts.len() as int) == closers((depth0 - 1) as nat) + closer(),
    ensures
        serializes(ts, ids0.push(v), ds0.push(depth0)),
{
    reveal(serializes);
    let k = ids0.len() as int;
    let ids1 = ids0.push(v);
    let ds1 = ds0.push(depth0);
    lemma_push_entry(ids0, ds0, depth0, v, depth0);
    assert(ids0.push(0).take(k) =~= ids1.take(k));
    assert(ds0.push(depth0).take(k + 1) =~= ds1.take(k + 1));
    lemma_text_prefix_congruent(ids0.push(0), ds0.push(depth0), ids1, ds1, k);
    lemma_piece_at(ids1, ds1, k);
    assert(ts =~= ts.take(e) + ts.subrange(e, e + 1) + ts.subrange(e + 1, ts.len() as int));
    assert(ts.subrange(e, e + 1) =~= seq!['}']);
    assert(pieces(ids1, ds1, k + 1, k + 1) =~= Seq::<char>::empty());
    assert(ts =~= fstree_text(ids1, ds1));
}

#[verifier::rlimit(40)]
/// Reads the tree stored in `line`. The result is the one well-formed tree
/// whose stored form is `line`, or `None` when there is none.
pub fn fstree(line: &str) -> (r: Option<SnapshotTree>)
    ensures
        r matches Some(tree) ==> serializes(line@, tree.ids(), tree.depths()),
        r is None ==> forall|ids: Seq<u32>, d: Seq<usize>| !#[trigger] serializes(line@, ids, d),
        forall|ids: Seq<u32>, d: Seq<usize>| #[trigger] serializes(line@, ids, d) ==> (r matches Some(
            tree,
        ) && tree.ids() == ids && tree.depths() == d),
{
    let t = chars_of(line);
    let ghost ts = t@;
    let head = vec!['{', '\'', 'n', 'a', 'm', 'e', '\'', ':', ' ', '\'', 'r', 'o', 'o', 't', '\''];
    assert(head@ =~= root_head());
    let ck = vec![',', ' ', '\'', 'c', 'h', 'i', 'l', 'd', 'r', 'e', 'n', '\'', ':', ' ', '['];
    assert(ck@ =~= children_key());
    let nk = vec!['{', '\'', 'n', 'a', 'm', 'e', '\'', ':', ' '];
    assert(nk@ =~= name_key());
    if !matches_at(t.as_slice(), head.as_slice(), 0) {
        proof {
            assert forall|ids: Seq<u32>, d: Seq<usize>| !#[trigger] serializes(ts, ids, d) by {
                reveal(serializes);
                if serializes(ts, ids, d) {
                    if ids.len() == 0 {
                        lemma_occurs_concat(Seq::empty(), root_head(), seq!['}']);
                        assert(Seq::<char>::empty() + root_head() + seq!['}'] =~= ts);
                    } else {
                        lemma_occurs_concat(Seq::empty(), root_head(), children_key() + pieces(ids, d, 0, ids.len() as int));
                        assert(Seq::<char>::empty() + root_head() + (children_key() + pieces(ids, d, 0, ids.len() as int)) =~= ts);
                    }
                }
            }
        }
        return None;
    }
    let hl = head.len();
    if t.len() == hl + 1 && t[hl] == '}' {
        assert(ts =~= fstree_text(Seq::empty(), Seq::empty())) by {
            assert(ts.subrange(0, hl as int) == root_head());
        }
        assert(serializes(line@, Seq::empty(), Seq::empty())) by {
            reveal(serializes);
        }
        let tree = SnapshotTree::new();
        proof {
            assert forall|ii: Seq<u32>, dd: Seq<usize>| #[trigger] serializes(line@, ii, dd) implies tree.ids() == ii
                && tree.depths() == dd by {
                lemma_fstree_text_injective(line@, ii, dd, tree.ids(), tree.depths());
            }
        }
        return Some(tree);
    }
    if !matches_at(t.as_slice(), ck.as_slice(), hl) {
        proof {
            assert forall|ids: Seq<u32>, d: Seq<usize>| !#[trigger] serializes(ts, ids, d) by {
                reveal(serializes);
                if serializes(ts, ids, d) {
                    if ids.len() == 0 {
                        assert(ts[hl as int] == '}');
                    } else {
                        lemma_occurs_concat(root_head(), children_key(), pieces(ids, d, 0, ids.len() as int));
                    }
                }
            }
        }
        return None;
    }
    let mut pos = hl + ck.len();
    let mut ids: Vec<u32> = Vec::new();
    let mut ds: Vec<usize> = Vec::new();
    let mut depth: usize = 1;
    proof {
        assert(ts.take(pos as int) =~= ts.subrange(0, hl as int) + ts.subrange(hl as int, pos as int));
        assert(ts.take(pos as int) =~= text_prefix(ids@.push(0), ds@.push(depth), 0));
        assert forall|ii: Seq<u32>, dd: Seq<usize>| #[trigger] serializes(ts, ii, dd) implies agrees(ii, dd, ids@, ds@, depth) by {
            reveal(serializes);
            if ii.len() == 0 {
                assert(ts.len() == hl + 1);
                assert(ts[hl as int] == '}');
            }
            assert(ids@ =~= ii.take(0));
            assert(ds@ =~= dd.take(0));
        }
    }
    let tlen = t.len();
    loop
        invariant
            t@ == ts,
            ts == line@,
            tlen == ts.len(),
            nk@ == name_key(),
            ck@ == children_key(),
            pos <= ts.len(),
            ids@.len() == ds@.len(),
            ids@.len() + 1 <= pos,
            1 <= depth <= ids@.len() + 1,
            depths_wf(ds@.push(depth)),
            ids_unique(ids@),
            ts.take(pos as int) == text_prefix(ids@.push(0), ds@.push(depth), ids@.len() as int),
            forall|ii: Seq<u32>, dd: Seq<usize>| #[trigger] serializes(ts, ii, dd) ==> agrees(ii, dd, ids@, ds@, depth),
        decreases ts.len() - pos,
    {
        let ghost k = ids@.len() as int;
        let ghost ids0 = ids@;
        let ghost ds0 = ds@;
        let ghost depth0 = depth;
        let ghost pos0 = pos;
        // The stored entries agree with what was read so far.
        assert forall|ii: Seq<u32>, dd: Seq<usize>| #[trigger] serializes(ts, ii, dd) implies ts.take(pos as int)
            == text_prefix(ii, dd, k) by {
            assert(agrees(ii, dd, ids@, ds@, depth));
            assert(ids@.push(0).take(k) =~= ii.take(k));
            assert(ds@.push(depth).take(k + 1) =~= dd.take(k + 1));
            lemma_text_prefix_congruent(ids@.push(0), ds@.push(depth), ii, dd, k);
        }
        if !matches_at(t.as_slice(), nk.as_slice(), pos) {
            proof {
                assert forall|ii: Seq<u32>, dd: Seq<usize>| !#[trigger] serializes(ts, ii, dd) by {
                    if serializes(ts, ii, dd) {
                        lemma_node_start(ts, ii, dd, k, pos as int);
                    }
                }
            }
            return None;
        }
        let npos = pos + nk.len();
        let parsed = parse_number(t.as_slice(), npos);
        if parsed.is_none() {
            proof {
                assert forall|ii: Seq<u32>, dd: Seq<usize>| !#[trigger] serializes(ts, ii, dd) by {
                    if serializes(ts, ii, dd) {
                        lemma_node_start(ts, ii, dd, k, pos as int);
                        assert(!number_at(ts, npos as int, ii[k] as nat));
                    }
                }
            }
            return None;
        }
        let (v, e) = parsed.unwrap();
        proof {
            assert forall|ii: Seq<u32>, dd: Seq<usize>| #[trigger] serializes(ts, ii, dd) implies ii[k] == v by {
                lemma_node_start(ts, ii, dd, k, pos as int);
                lemma_number_run(ts, npos as int, e as int, ii[k] as nat);
                lemma_dec_digits(ii[k] as nat);
                lemma_dec_digits(v as nat);
            }
        }
        if contains_u32(&ids, v) {
            proof {
                assert forall|ii: Seq<u32>, dd: Seq<usize>| !#[trigger] serializes(ts, ii, dd) by {
                    reveal(serializes);
                    if serializes(ts, ii, dd) {
                        assert(agrees(ii, dd, ids0, ds0, depth0));
                        let j = choose|j: int| 0 <= j < ids0.len() && ids0[j] == v;
                        assert(ii[j] == ids0[j]);
                    }
                }
            }
            return None;
        }
        ids.push(v);
        ds.push(depth);
        proof {
            // What was read: the prefix, the name, the number.
            assert(ts.take(e as int) =~= ts.take(pos0 as int) + name_key() + dec(v as nat)) by {
                assert(ts.subrange(pos0 as int, npos as int) == name_key());
                assert(ts.take(e as int) =~= ts.take(pos0 as int) + ts.subrange(pos0 as int, npos as int)
                    + ts.subrange(npos as int, e as int));
            }
            assert(ids0.push(0).take(k) =~= ids@.take(k));
            assert(ids@.take(k) =~= ids@.push(0).take(k));
            assert forall|ii: Seq<u32>, dd: Seq<usize>| #[trigger] serializes(ts, ii, dd) implies
                ids@ == ii.take(k + 1) && ds@ == dd.take(k + 1) by {
                assert(agrees(ii, dd, ids0, ds0, depth0));
                assert(ids@ =~= ii.take(k + 1));
                assert(ds@ =~= dd.take(k + 1));
            }
        }
        if matches_at(t.as_slice(), ck.as_slice(), e) {
            pos = e + ck.len();
            depth = depth + 1;
            proof {
                lemma_children_step(ts, ids0, ds0, depth0, v, pos0 as int, e as int, ids@, ds@);
            }
            continue;
        }
        if !(e < tlen && t[e] == '}') {
            proof {
                assert forall|ii: Seq<u32>, dd: Seq<usize>| !#[trigger] serializes(ts, ii, dd) by {
                    reveal(serializes);
                    if serializes(ts, ii, dd) {
                        lemma_node_start(ts, ii, dd, k, pos0 as int);
                        lemma_dec_digits(v as nat);
                        let tl = tail_text(dd, k);
                        assert(ts.subrange(e as int, e + tl.len())[0] == ts[e as int]);
                    }
                }
            }
            return None;
        }
        let cpos = e + 1;
        match parse_closers(t.as_slice(), cpos, depth) {
            Closing::Fail => {
                proof {
                    assert forall|ii: Seq<u32>, dd: Seq<usize>| !#[trigger] serializes(ts, ii, dd) by {
                        reveal(serializes);
                        if serializes(ts, ii, dd) {
                            lemma_node_start(ts, ii, dd, k, pos0 as int);
                            lemma_dec_digits(v as nat);
                            lemma_closing_cases(ts, dd, k, e as int);
                            if k + 1 < dd.len() {
                                let c = (dd[k] - dd[k + 1]) as nat;
                                assert(c < depth);
                                assert(!occurs_at(ts, closers(c) + separator(), cpos as int));
                            }
                        }
                    }
                }
                return None;
            },
            Closing::End => {
                proof {
                    lemma_end_step(ts, ids0, ds0, depth0, v, pos0 as int, e as int);
                }
                let tree = SnapshotTree::from_entries(ids, ds);
                proof {
                    assert forall|ii: Seq<u32>, dd: Seq<usize>| #[trigger] serializes(line@, ii, dd) implies tree.ids()
                        == ii && tree.depths() == dd by {
                        lemma_fstree_text_injective(line@, ii, dd, tree.ids(), tree.depths());
                    }
                }
                return Some(tree);
            },
            Closing::Sibling(p2, d2) => {
                proof {
                    lemma_sibling_step(ts, ids0, ds0, depth0, v, pos0 as int, e as int, p2 as int, d2);
                }
                pos = p2;
                depth = d2;
            },
        }
    }
}


/// Two numbers read at the same place are the same number.
proof fn lemma_number_unique(t: Seq<char>, p: int, v1: nat, v2: nat)
    requires
        number_at(t, p, v1),
        number_at(t, p, v2),
    ensures
        v1 == v2,
{
    lemma_dec_digits(v1);
    lemma_dec_digits(v2);
    let a = dec(v1);
    let b = dec(v2);
    if a.len() < b.len() {
        assert(t.subrange(p, p + b.len())[a.len() as int] == t[p + a.len()]);
        assert(is_digit(b[a.len() as int]));
    } else if b.len() < a.len() {
        assert(t.subrange(p, p + a.len())[b.len() as int] == t[p + b.len()]);
        assert(is_digit(a[b.len() as int]));
    }
    assert(a =~= b);
}

/// Two stored trees that agree up to entry `k` agree on entry `k` and on
/// the depth of the entry after it.
proof fn lemma_injective_step(t: Seq<char>, i1: Seq<u32>, d1: Seq<usize>, i2: Seq<u32>, d2: Seq<usize>, k: int)
    requires
        serializes(t, i1, d1),
        serializes(t, i2, d2),
        0 <= k < i1.len(),
        k < i2.len(),
        i1.take(k) == i2.take(k),
        d1.take(k + 1) == d2.take(k + 1),
    ensures
        i1[k] == i2[k],
        k + 1 < i1.len() <==> k + 1 < i2.len(),
        k + 1 < i1.len() ==> d1[k + 1] == d2[k + 1],
{
    assert(entries_wf(i1, d1) && entries_wf(i2, d2) && t == fstree_text(i1, d1)) by {
        reveal(serializes);
    }
    lemma_text_prefix_congruent(i1, d1, i2, d2, k);
    let pos = text_prefix(i1, d1, k).len() as int;
    lemma_piece_at(i1, d1, k);
    assert(t.take(pos) =~= text_prefix(i1, d1, k));
    lemma_node_start(t, i1, d1, k, pos);
    lemma_node_start(t, i2, d2, k, pos);
    lemma_number_unique(t, pos + name_key().len(), i1[k] as nat, i2[k] as nat);
    let e = pos + name_key().len() + dec(i1[k] as nat).len();
    assert(d1[k] == d2[k]) by {
        assert(d1[k] == d1.take(k + 1)[k]);
        assert(d2[k] == d2.take(k + 1)[k]);
    }
    lemma_tail_first(d1, k);
    lemma_tail_first(d2, k);
    let t1 = tail_text(d1, k);
    let t2 = tail_text(d2, k);
    assert(t.subrange(e, e + t1.len())[0] == t[e]);
    assert(t.subrange(e, e + t2.len())[0] == t[e]);
    if t[e] == ',' {
        assert(d1[k + 1] == d1[k] + 1);
        assert(d2[k + 1] == d2[k] + 1);
    } else {
        lemma_closing_cases(t, d1, k, e);
        lemma_closing_cases(t, d2, k, e);
        if k + 1 < i1.len() && k + 1 < i2.len() {
            let c1 = (d1[k] - d1[k + 1]) as nat;
            let c2 = (d2[k] - d2[k + 1]) as nat;
            if c1 < c2 {
                lemma_closing_distinct(t, e + 1, c1, c2, false);
            } else if c2 < c1 {
                lemma_closing_distinct(t, e + 1, c2, c1, false);
            }
        } else if k + 1 < i1.len() {
            lemma_closing_distinct(t, e + 1, (d1[k] - d1[k + 1]) as nat, (d2[k] - 1) as nat, true);
        } else if k + 1 < i2.len() {
            lemma_closing_distinct(t, e + 1, (d2[k] - d2[k + 1]) as nat, (d1[k] - 1) as nat, true);
        }
    }
}

proof fn lemma_injective_upto(t: Seq<char>, i1: Seq<u32>, d1: Seq<usize>, i2: Seq<u32>, d2: Seq<usize>, k: int)
    requires
        serializes(t, i1, d1),
        serializes(t, i2, d2),
        0 <= k <= i1.len(),
        i1.len() > 0,
        i2.len() > 0,
    ensures
        k <= i2.len(),
        i1.take(k) == i2.take(k),
        k < i1.len() ==> k < i2.len() && d1.take(k + 1) == d2.take(k + 1),
        k == i1.len() ==> k == i2.len() && d1.take(k) == d2.take(k),
    decreases k,
{
    reveal(serializes);
    if k == 0 {
        assert(i1.take(0) =~= i2.take(0));
        assert(d1.take(1) =~= d2.take(1));
    } else {
        lemma_injective_upto(t, i1, d1, i2, d2, k - 1);
        lemma_injective_step(t, i1, d1, i2, d2, k - 1);
        assert(i1.take(k) =~= i1.take(k - 1).push(i1[k - 1]));
        assert(i2.take(k) =~= i2.take(k - 1).push(i2[k - 1]));
        if k < i1.len() {
            assert(d1.take(k + 1) =~= d1.take(k).push(d1[k]));
            assert(d2.take(k + 1) =~= d2.take(k).push(d2[k]));
        } else {
            assert(d1.take(k) =~= d1.take(k));
        }
    }
}

/// The stored form determines the tree: two well-formed trees with the same
/// stored line are the same tree.
pub proof fn lemma_fstree_text_injective(t: Seq<char>, ids1: Seq<u32>, d1: Seq<usize>, ids2: Seq<u32>, d2: Seq<usize>)
    requires
        serializes(t, ids1, d1),
        serializes(t, ids2, d2),
    ensures
        ids1 == ids2,
        d1 == d2,
{
    reveal(serializes);
    if ids1.len() == 0 || ids2.len() == 0 {
        if ids1.len() > 0 || ids2.len() > 0 {
            // `{'name': 'root'}` against a line with children.
            let full = if ids1.len() > 0 { fstree_text(ids1, d1) } else { fstree_text(ids2, d2) };
            assert(full[root_head().len() as int] == ',');
            assert((root_head() + seq!['}'])[root_head().len() as int] == '}');
        }
        assert(ids1 =~= ids2);
        assert(d1 =~= d2);
    } else {
        lemma_injective_upto(t, ids1, d1, ids2, d2, ids1.len() as int);
        assert(ids1 =~= ids1.take(ids1.len() as int));
        assert(ids2 =~= ids2.take(ids2.len() as int));
        assert(d1 =~= d1.take(d1.len() as int));
        assert(d2 =~= d2.take(d2.len() as int));
    }
}


/// Reading back the line written for a tree gives that very tree: the
/// stored form of a well-formed tree is a stored form of it and of no other.
pub proof fn lemma_fstree_roundtrip(ids: Seq<u32>, d: Seq<usize>, ids2: Seq<u32>, d2: Seq<usize>)
    requires
        entries_wf(ids, d),
    ensures
        serializes(fstree_text(ids, d), ids, d),
        serializes(fstree_text(ids, d), ids2, d2) ==> ids2 == ids && d2 == d,
{
    reveal(serializes);
    if serializes(fstree_text(ids, d), ids2, d2) {
        lemma_fstree_text_injective(fstree_text(ids, d), ids, d, ids2, d2);
    }
}

} // verus!
