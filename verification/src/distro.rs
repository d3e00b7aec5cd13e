//! Which distribution runs, from `/etc/lsb-release`, `/etc/os-release` and
//! the names of the `*-release` files in `/etc`.
use vstd::prelude::*;
use crate::text::{
    chars_of, has_prefix, has_suffix, lines_chars, lines_of, push_all, split_char, split_chars,
    starts_with, ends_with, string_of,
};

verus! {

// The text that `str::to_lowercase` gives for a text.
pub uninterp spec fn lowercase(s: Seq<char>) -> Seq<char>;

// The text that `char::to_uppercase` gives for a character.
pub uninterp spec fn uppercase(c: char) -> Seq<char>;

/// `str::to_lowercase`: the lowercase form of `s` under Unicode's case
/// mapping, a function of `s` alone.
#[verifier::external_body]
pub(crate) fn to_lower(s: &str) -> (r: String)
    ensures
        r@ == lowercase(s@),
{
    s.to_lowercase()
}

/// `char::to_uppercase`, collected: the uppercase form of `c` under
/// Unicode's case mapping (one or more characters), a function of `c` alone.
#[verifier::external_body]
fn to_upper(c: char) -> (r: String)
    ensures
        r@ == uppercase(c),
{
    c.to_uppercase().collect()
}

/// `s` with its first character in upper case.
pub open spec fn capitalized(s: Seq<char>) -> Seq<char> {
    if s.len() == 0 { Seq::empty() } else { uppercase(s[0]) + s.skip(1) }
}

/// Capitalizes the first letter of `s`.
pub fn capitalize(s: &str) -> (r: String)
    ensures
        r@ == capitalized(s@),
{
    let c = chars_of(s);
    if c.len() == 0 {
        return String::new();
    }
    let up = to_upper(c[0]);
    let mut r = chars_of(up.as_str());
    let mut i: usize = 1;
    while i < c.len()
        invariant
            1 <= i <= c@.len(),
            c@ == s@,
            r@ == uppercase(s@[0]) + s@.subrange(1, i as int),
        decreases c@.len() - i,
    {
        r.push(c[i]);
        i = i + 1;
        assert(r@ =~= uppercase(s@[0]) + s@.subrange(1, i as int));
    }
    assert(s@.subrange(1, i as int) =~= s@.skip(1));
    string_of(r.as_slice())
}

/// `s` without the characters `c` at its start.
pub open spec fn strip_start(s: Seq<char>, c: char) -> Seq<char>
    decreases s.len(),
{
    if s.len() > 0 && s[0] == c { strip_start(s.drop_first(), c) } else { s }
}

/// `s` without the characters `c` at its end.
pub open spec fn strip_end(s: Seq<char>, c: char) -> Seq<char>
    decreases s.len(),
{
    if s.len() > 0 && s.last() == c { strip_end(s.drop_last(), c) } else { s }
}

/// `s` without double quotes at either end, as `trim_matches('"')` gives it.
pub open spec fn unquoted(s: Seq<char>) -> Seq<char> {
    strip_end(strip_start(s, '"'), '"')
}

fn unquote(s: &Vec<char>) -> (r: Vec<char>)
    ensures
        r@ == unquoted(s@),
{
    let mut a: usize = 0;
    assert(s@.skip(0) =~= s@);
    while a < s.len() && s[a] == '"'
        invariant
            a <= s@.len(),
            strip_start(s@, '"') == strip_start(s@.skip(a as int), '"'),
        decreases s@.len() - a,
    {
        assert(s@.skip(a as int).drop_first() =~= s@.skip(a + 1));
        a = a + 1;
    }
    assert(strip_start(s@.skip(a as int), '"') == s@.skip(a as int));
    let mut b: usize = s.len();
    while b > a && s[b - 1] == '"'
        invariant
            a <= b <= s@.len(),
            strip_start(s@, '"') == s@.skip(a as int),
            unquoted(s@) == strip_end(s@.subrange(a as int, b as int), '"'),
        decreases b,
    {
        assert(s@.subrange(a as int, b as int).drop_last() =~= s@.subrange(a as int, b - 1));
        b = b - 1;
    }
    proof {
        assert(s@.skip(a as int) =~= s@.subrange(a as int, s@.len() as int));
    }
    crate::text::slice_of(s.as_slice(), a, b)
}

/// The first line at or after `j` that begins with `p`.
pub open spec fn line_starting(ls: Seq<Seq<char>>, p: Seq<char>, j: int) -> Option<Seq<char>>
    decreases ls.len() - j,
{
    if j < 0 || j >= ls.len() {
        None
    } else if has_prefix(ls[j], p) {
        Some(ls[j])
    } else {
        line_starting(ls, p, j + 1)
    }
}

fn find_line(lines: &Vec<Vec<char>>, p: &Vec<char>, ls: Ghost<Seq<Seq<char>>>) -> (r: Option<Vec<char>>)
    requires
        lines@.len() == ls@.len(),
        forall|i: int| 0 <= i < lines@.len() ==> #[trigger] lines@[i]@ == ls@[i],
    ensures
        match r {
            Some(l) => line_starting(ls@, p@, 0) == Some(l@) && has_prefix(l@, p@),
            None => line_starting(ls@, p@, 0) is None,
        },
{
    let mut j: usize = 0;
    while j < lines.len()
        invariant
            j <= lines@.len(),
            lines@.len() == ls@.len(),
            forall|i: int| 0 <= i < lines@.len() ==> #[trigger] lines@[i]@ == ls@[i],
            line_starting(ls@, p@, 0) == line_starting(ls@, p@, j as int),
        decreases lines@.len() - j,
    {
        if starts_with(lines[j].as_slice(), p.as_slice()) {
            return Some(lines[j].clone());
        }
        j = j + 1;
    }
    None
}

/// The field after the first `=` of a `KEY=value` line.
pub open spec fn value_of(line: Seq<char>) -> Seq<char> {
    split_char(line, '=')[1]
}

/// The value of the first line of `text` that begins with `key` (which
/// ends with `=`), if there is one.
fn setting(text: &str, key: &str) -> (r: Option<Vec<char>>)
    requires
        key@.len() > 0,
        key@.last() == '=',
    ensures
        match line_starting(lines_of(text@), key@, 0) {
            Some(l) => r matches Some(v) && v@ == value_of(l),
            None => r is None,
        },
{
    let t = chars_of(text);
    let lines = lines_chars(t.as_slice());
    let k = chars_of(key);
    match find_line(&lines, &k, Ghost(lines_of(text@))) {
        None => None,
        Some(l) => {
            proof { lemma_value_exists(l@, key@); }
            let parts = split_chars(l.as_slice(), '=');
            Some(parts[1].clone())
        },
    }
}

/// A line that begins with a key ending in `=` has a value field.
proof fn lemma_value_exists(l: Seq<char>, key: Seq<char>)
    requires
        key.len() > 0,
        key.last() == '=',
        has_prefix(l, key),
    ensures
        split_char(l, '=').len() >= 2,
{
    let k = key.len() - 1;
    assert(l[k] == '=') by {
        assert(l.subrange(0, key.len() as int)[k] == key[k]);
    }
    lemma_split_count(l, '=', k);
}

/// A text with the separator at position `k` splits into at least two pieces.
proof fn lemma_split_count(s: Seq<char>, c: char, k: int)
    requires
        0 <= k < s.len(),
        s[k] == c,
    ensures
        split_char(s, c).len() >= 2,
    decreases k,
{
    crate::text::lemma_split_char_len(s.drop_first(), c);
    if k > 0 {
        lemma_split_count(s.drop_first(), c, k - 1);
    }
}

/// The stem of a file name, as `Path::file_stem` gives it: the name without
/// its last extension; a name whose only dot leads it has none.
pub open spec fn file_stem(name: Seq<char>) -> Seq<char> {
    match last_dot(name, name.len() as int) {
        Some(i) => if i == 0 { name } else { name.take(i) },
        None => name,
    }
}

/// The position of the last `.` before position `j`.
pub open spec fn last_dot(name: Seq<char>, j: int) -> Option<int>
    decreases j,
{
    if j <= 0 {
        None
    } else if name[j - 1] == '.' {
        Some(j - 1)
    } else {
        last_dot(name, j - 1)
    }
}

fn stem_of(name: &Vec<char>) -> (r: Vec<char>)
    ensures
        r@ == file_stem(name@),
{
    let mut j = name.len();
    while j > 0 && name[j - 1] != '.'
        invariant
            j <= name@.len(),
            last_dot(name@, name@.len() as int) == last_dot(name@, j as int),
        decreases j,
    {
        j = j - 1;
    }
    if j == 0 || j == 1 {
        name.clone()
    } else {
        crate::text::slice_of(name.as_slice(), 0, j - 1)
    }
}

/// The first of `names` that ends with `-release`.
pub open spec fn release_name(names: Seq<String>, j: int) -> Option<Seq<char>>
    decreases names.len() - j,
{
    if j < 0 || j >= names.len() {
        None
    } else if has_suffix(names[j]@, "-release"@) {
        Some(names[j]@)
    } else {
        release_name(names, j + 1)
    }
}

fn find_release(names: &Vec<String>) -> (r: Option<Vec<char>>)
    ensures
        match release_name(names@, 0) {
            Some(n) => r matches Some(v) && v@ == n,
            None => r is None,
        },
{
    let suffix = chars_of("-release");
    let mut j: usize = 0;
    while j < names.len()
        invariant
            j <= names@.len(),
            suffix@ == "-release"@,
            release_name(names@, 0) == release_name(names@, j as int),
        decreases names@.len() - j,
    {
        let n = chars_of(names[j].as_str());
        if ends_with(n.as_slice(), suffix.as_slice()) {
            return Some(n);
        }
        j = j + 1;
    }
    None
}

/// The distribution named by a release file: its stem in lower case, up to
/// the first `-`.
pub open spec fn release_id(name: Seq<char>) -> Seq<char> {
    split_char(lowercase(file_stem(name)), '-')[0]
}

fn release_id_of(name: &Vec<char>) -> (r: Vec<char>)
    ensures
        r@ == release_id(name@),
{
    let stem = stem_of(name);
    let s = string_of(stem.as_slice());
    let low = to_lower(s.as_str());
    let w = stem_word(low.as_str());
    chars_of(w.as_str())
}

/// The identifier of the distribution: the `DISTRIB_ID` of
/// `/etc/lsb-release`, else the `ID` of `/etc/os-release` (each in lower
/// case, without quotes), else the name of the first `*-release` file in
/// `/etc` up to its first `-`; empty when none of these gives one.
pub open spec fn distro_id_text(lsb: Option<Seq<char>>, os: Option<Seq<char>>, names: Seq<String>) -> Seq<char> {
    let from_lsb = match lsb {
        Some(t) => match line_starting(lines_of(t), "DISTRIB_ID="@, 0) {
            Some(l) => unquoted(lowercase(value_of(l))),
            None => Seq::empty(),
        },
        None => Seq::empty(),
    };
    let from_os = if from_lsb.len() > 0 {
        from_lsb
    } else {
        match os {
            Some(t) => match line_starting(lines_of(t), "ID="@, 0) {
                Some(l) => unquoted(lowercase(value_of(l))),
                None => Seq::empty(),
            },
            None => Seq::empty(),
        }
    };
    if from_os.len() > 0 {
        from_os
    } else {
        match release_name(names, 0) {
            Some(n) => release_id(n),
            None => Seq::empty(),
        }
    }
}

fn setting_lower(text: Option<&str>, key: &str) -> (r: Vec<char>)
    requires
        key@.len() > 0,
        key@.last() == '=',
    ensures
        r@ == match text {
            Some(t) => match line_starting(lines_of(t@), key@, 0) {
                Some(l) => unquoted(lowercase(value_of(l))),
                None => Seq::empty(),
            },
            None => Seq::empty(),
        },
{
    match text {
        None => Vec::new(),
        Some(t) => match setting(t, key) {
            None => Vec::new(),
            Some(v) => {
                let s = string_of(v.as_slice());
                let low = to_lower(s.as_str());
                let u = unquote_str(low.as_str());
                chars_of(u.as_str())
            },
        },
    }
}

/// The identifier of the distribution, from the texts of
/// `/etc/lsb-release` and `/etc/os-release` where they could be read, and
/// the names of the regular files in `/etc`.
pub fn distro_id(lsb: Option<&str>, os_release: Option<&str>, names: &Vec<String>) -> (id: String)
    ensures
        id@ == distro_id_text(
            match lsb { Some(t) => Some(t@), None => None },
            match os_release { Some(t) => Some(t@), None => None },
            names@,
        ),
{
    proof {
        reveal_strlit("DISTRIB_ID=");
        reveal_strlit("ID=");
    }
    let a = setting_lower(lsb, "DISTRIB_ID=");
    if a.len() > 0 {
        return string_of(a.as_slice());
    }
    let b = setting_lower(os_release, "ID=");
    if b.len() > 0 {
        return string_of(b.as_slice());
    }
    match find_release(names) {
        Some(n) => {
            let r = release_id_of(&n);
            string_of(r.as_slice())
        },
        None => String::new(),
    }
}

/// The name of the distribution: the `NAME` of `/etc/os-release` without
/// quotes, else the first word of the `DISTRIB_DESCRIPTION` of
/// `/etc/lsb-release` without quotes, else the capitalized identifier of the
/// first `*-release` file in `/etc`; empty when none of these gives one.
pub open spec fn distro_name_text(os: Option<Seq<char>>, lsb: Option<Seq<char>>, names: Seq<String>) -> Seq<char> {
    let from_os = match os {
        Some(t) => match line_starting(lines_of(t), "NAME="@, 0) {
            Some(l) => unquoted(value_of(l)),
            None => Seq::empty(),
        },
        None => Seq::empty(),
    };
    let from_lsb = if from_os.len() > 0 {
        from_os
    } else {
        match lsb {
            Some(t) => match line_starting(lines_of(t), "DISTRIB_DESCRIPTION="@, 0) {
                Some(l) => unquoted(split_char(value_of(l), ' ')[0]),
                None => Seq::empty(),
            },
            None => Seq::empty(),
        }
    };
    if from_lsb.len() > 0 {
        from_lsb
    } else {
        match release_name(names, 0) {
            Some(n) => capitalized(release_id(n)),
            None => Seq::empty(),
        }
    }
}

/// The name of the distribution, from the same sources as its identifier.
pub fn distro_name(os_release: Option<&str>, lsb: Option<&str>, names: &Vec<String>) -> (name: String)
    ensures
        name@ == distro_name_text(
            match os_release { Some(t) => Some(t@), None => None },
            match lsb { Some(t) => Some(t@), None => None },
            names@,
        ),
{
    proof {
        reveal_strlit("NAME=");
        reveal_strlit("DISTRIB_DESCRIPTION=");
    }
    let from_os = match os_release {
        None => Vec::new(),
        Some(t) => match setting(t, "NAME=") {
            None => Vec::new(),
            Some(v) => unquote(&v),
        },
    };
    if from_os.len() > 0 {
        return string_of(from_os.as_slice());
    }
    let from_lsb = match lsb {
        None => Vec::new(),
        Some(t) => match setting(t, "DISTRIB_DESCRIPTION=") {
            None => Vec::new(),
            Some(v) => {
                let words = split_chars(v.as_slice(), ' ');
                proof { crate::text::lemma_split_char_len(v@, ' '); }
                unquote(&words[0])
            },
        },
    };
    if from_lsb.len() > 0 {
        return string_of(from_lsb.as_slice());
    }
    match find_release(names) {
        Some(n) => {
            let r = release_id_of(&n);
            let s = string_of(r.as_slice());
            capitalize(s.as_str())
        },
        None => String::new(),
    }
}


/// A value without double quotes at either end.
pub fn unquote_str(s: &str) -> (r: String)
    ensures
        r@ == unquoted(s@),
{
    let c = chars_of(s);
    let r = unquote(&c);
    string_of(r.as_slice())
}

/// The part of a lower-case file stem before its first `-`: the
/// distribution that a release file names.
pub fn stem_word(lowered: &str) -> (r: String)
    ensures
        r@ == split_char(lowered@, '-')[0],
{
    let l = chars_of(lowered);
    let parts = split_chars(l.as_slice(), '-');
    proof { crate::text::lemma_split_char_len(l@, '-'); }
    string_of(parts[0].as_slice())
}

} // verus!
