//! Setting the clock from the `date` header of an HTTPS response.
use vstd::prelude::*;
use crate::text::{chars_of, is_whitespace, is_ws, join_lines, join_with, lines_chars, lines_of, push_all, string_of};
use crate::distro::line_starting;

verus! {

/// The words of `s` from position `i` on, `cur` being the word read so far:
/// the runs of characters between white space, as `split_whitespace` gives
/// them.
pub open spec fn words_from(s: Seq<char>, i: int, cur: Seq<char>) -> Seq<Seq<char>>
    decreases s.len() - i,
{
    if i < 0 || i >= s.len() {
        if cur.len() > 0 { seq![cur] } else { Seq::empty() }
    } else if is_ws(s[i]) {
        (if cur.len() > 0 { seq![cur] } else { Seq::empty() }) + words_from(s, i + 1, Seq::empty())
    } else {
        words_from(s, i + 1, cur.push(s[i]))
    }
}

/// The words of `s`.
pub open spec fn words(s: Seq<char>) -> Seq<Seq<char>> {
    words_from(s, 0, Seq::empty())
}

/// The words of `s`, split at white space.
pub fn words_of(s: &str) -> (r: Vec<String>)
    ensures
        r@.map_values(|w: String| w@) == words(s@),
{
    let c = chars_of(s);
    let mut out: Vec<String> = Vec::new();
    let mut cur: Vec<char> = Vec::new();
    let mut i: usize = 0;
    while i < c.len()
        invariant
            i <= c@.len(),
            c@ == s@,
            out@.map_values(|w: String| w@) + words_from(s@, i as int, cur@) == words(s@),
        decreases c@.len() - i,
    {
        let ghost before = out@.map_values(|w: String| w@);
        if is_whitespace(c[i]) {
            if cur.len() > 0 {
                out.push(string_of(cur.as_slice()));
                proof {
                    assert(out@.map_values(|w: String| w@) =~= before.push(cur@));
                }
            }
            cur = Vec::new();
            proof {
                assert(out@.map_values(|w: String| w@) + words_from(s@, i + 1, cur@) =~= words(s@));
            }
        } else {
            cur.push(c[i]);
        }
        i = i + 1;
    }
    let ghost before = out@.map_values(|w: String| w@);
    if cur.len() > 0 {
        out.push(string_of(cur.as_slice()));
        proof {
            assert(out@.map_values(|w: String| w@) =~= before.push(cur@));
        }
    }
    proof {
        assert(out@.map_values(|w: String| w@) =~= words(s@));
    }
    out
}

/// The first line of the response headers that begins with `date:`.
pub fn date_header(headers: &str) -> (r: Option<String>)
    ensures
        match line_starting(lines_of(headers@), "date:"@, 0) {
            Some(l) => r matches Some(v) && v@ == l,
            None => r is None,
        },
{
    let h = chars_of(headers);
    let lines = lines_chars(h.as_slice());
    let key = chars_of("date:");
    let ghost ls = lines_of(headers@);
    let mut j: usize = 0;
    while j < lines.len()
        invariant
            j <= lines@.len(),
            lines@.len() == ls.len(),
            ls == lines_of(headers@),
            key@ == "date:"@,
            forall|i: int| 0 <= i < lines@.len() ==> #[trigger] lines@[i]@ == ls[i],
            line_starting(ls, "date:"@, 0) == line_starting(ls, "date:"@, j as int),
        decreases lines@.len() - j,
    {
        if crate::text::starts_with(lines[j].as_slice(), key.as_slice()) {
            return Some(string_of(lines[j].as_slice()));
        }
        j = j + 1;
    }
    None
}

/// The argument of `date -s` for the words of a date header: its third to
/// sixth words joined by blanks, in `"(…)Z"`.
pub open spec fn date_argument_text(ws: Seq<Seq<char>>) -> Seq<char> {
    "\"("@ + join_with(ws.subrange(2, 6), " "@) + ")Z\""@
}

/// The argument of `date -s` for the words of a date header, which has at
/// least six.
pub fn date_argument(ws: &Vec<String>) -> (r: String)
    requires
        ws@.len() >= 6,
    ensures
        r@ == date_argument_text(ws@.map_values(|w: String| w@)),
{
    let mut parts: Vec<Vec<char>> = Vec::new();
    let mut k: usize = 2;
    while k < 6
        invariant
            2 <= k <= 6,
            ws@.len() >= 6,
            parts@.map_values(|p: Vec<char>| p@) == ws@.map_values(|w: String| w@).subrange(2, k as int),
        decreases 6 - k,
    {
        let ghost before = parts@.map_values(|p: Vec<char>| p@);
        parts.push(chars_of(ws[k].as_str()));
        proof {
            assert(parts@.map_values(|p: Vec<char>| p@) =~= before.push(ws@[k as int]@));
            assert(ws@.map_values(|w: String| w@).subrange(2, k + 1) =~= ws@.map_values(|w: String| w@).subrange(2, k as int).push(ws@[k as int]@));
        }
        k = k + 1;
    }
    let sp = chars_of(" ");
    let joined = join_lines(&parts, sp.as_slice());
    let mut out = chars_of("\"(");
    push_all(&mut out, joined.as_slice());
    let end = chars_of(")Z\"");
    push_all(&mut out, end.as_slice());
    string_of(out.as_slice())
}

} // verus!
