//! Switching between installed distributions through the EFI boot order.
//!
//! The EFI partition holds a map, `map.txt`: a header line, then one line
//! per distribution of the form `<name>,<boot entry>`. Switching puts the
//! chosen distribution's boot entry first in the boot order.
use vstd::prelude::*;
use crate::text::{chars_of, contains, has, push_all, replace_all, replace_chars, string_of, trim, trim_chars};
use crate::config::vec_eq;

verus! {

// The rows that the `csv` crate reads from a text (a header line, comma
// separated fields, quotes taken literally) up to the first malformed row,
// and whether reading stopped at such a row.
pub uninterp spec fn csv_rows(text: Seq<u8>) -> (Seq<Seq<Seq<char>>>, bool);

/// The text of each field of each row.
pub open spec fn rows_view(rows: Seq<Vec<String>>) -> Seq<Seq<Seq<char>>> {
    rows.map_values(|r: Vec<String>| r@.map_values(|f: String| f@))
}

/// `csv::Reader::records` with the delimiter `,` and quoting off (the header
/// line skipped, as by default): the rows read before the first error, and
/// whether an error ended the reading. The rows are a function of the text
/// alone.
#[verifier::external_body]
fn read_map_rows(text: &[u8]) -> (r: (Vec<Vec<String>>, bool))
    ensures
        (rows_view(r.0@), r.1) == csv_rows(text@),
{
    let mut reader = csv::ReaderBuilder::new().delimiter(b',').quoting(false).from_reader(text);
    let mut rows: Vec<Vec<String>> = Vec::new();
    for row in reader.records() {
        match row {
            Ok(record) => rows.push(record.iter().map(|f| f.to_string()).collect()),
            Err(_) => return (rows, true),
        }
    }
    (rows, false)
}

/// What looking up `distro` in the rows gives, from row `k` on: `Some(Some(e))`
/// for the boot entry `e` of the first row named `distro`, `Some(None)` when
/// no row is, and `None` where the lookup cannot go on: a row without fields
/// or the matching row without a boot entry, or the end of a reading that
/// stopped at an error, reached before a match.
pub open spec fn lookup(rows: Seq<Seq<Seq<char>>>, failed: bool, distro: Seq<char>, k: int) -> Option<Option<Seq<char>>>
    decreases rows.len() - k,
{
    if k < 0 || k >= rows.len() {
        if failed { None } else { Some(None) }
    } else if rows[k].len() == 0 {
        None
    } else if rows[k][0] == distro {
        if rows[k].len() >= 2 { Some(Some(rows[k][1])) } else { None }
    } else {
        lookup(rows, failed, distro, k + 1)
    }
}

/// The boot entry of `distro` in rows that can be looked up.
pub fn find_boot_entry(rows: &Vec<Vec<String>>, failed: bool, distro: &str) -> (r: Option<String>)
    requires
        lookup(rows_view(rows@), failed, distro@, 0) is Some,
    ensures
        lookup(rows_view(rows@), failed, distro@, 0) == Some(match r {
            Some(e) => Some(e@),
            None => None::<Seq<char>>,
        }),
{
    let ghost rv = rows_view(rows@);
    let d = chars_of(distro);
    let mut k: usize = 0;
    while k < rows.len()
        invariant
            k <= rows@.len(),
            rv == rows_view(rows@),
            d@ == distro@,
            lookup(rv, failed, distro@, 0) == lookup(rv, failed, distro@, k as int),
            lookup(rv, failed, distro@, 0) is Some,
        decreases rows@.len() - k,
    {
        let row = &rows[k];
        assert(rv[k as int] == row@.map_values(|f: String| f@));
        assert(row@.len() > 0);
        let first = chars_of(row[0].as_str());
        if vec_eq(&first, &d) {
            let e = chars_of(row[1].as_str());
            return Some(string_of(e.as_slice()));
        }
        k = k + 1;
    }
    None
}

/// Whether the rows can be looked up for `distro`.
fn lookup_possible(rows: &Vec<Vec<String>>, failed: bool, distro: &str) -> (b: bool)
    ensures
        b == lookup(rows_view(rows@), failed, distro@, 0) is Some,
{
    let ghost rv = rows_view(rows@);
    let d = chars_of(distro);
    let mut k: usize = 0;
    while k < rows.len()
        invariant
            k <= rows@.len(),
            rv == rows_view(rows@),
            d@ == distro@,
            lookup(rv, failed, distro@, 0) == lookup(rv, failed, distro@, k as int),
        decreases rows@.len() - k,
    {
        let row = &rows[k];
        assert(rv[k as int] == row@.map_values(|f: String| f@));
        if row.len() == 0 {
            return false;
        }
        let first = chars_of(row[0].as_str());
        if vec_eq(&first, &d) {
            return row.len() >= 2;
        }
        k = k + 1;
    }
    !failed
}

/// The boot entry of `distro` in the map text: `None` where the lookup
/// cannot go on (see [`lookup`]), otherwise the entry, if a row names the
/// distribution.
pub fn boot_entry_of(map_text: &[u8], distro: &str) -> (r: Option<Option<String>>)
    ensures
        lookup(csv_rows(map_text@).0, csv_rows(map_text@).1, distro@, 0) == match r {
            Some(Some(e)) => Some(Some(e@)),
            Some(None) => Some(None::<Seq<char>>),
            None => None::<Option<Seq<char>>>,
        },
{
    let (rows, failed) = read_map_rows(map_text);
    if lookup_possible(&rows, failed, distro) {
        Some(find_boot_entry(&rows, failed, distro))
    } else {
        None
    }
}

/// The boot order with `entry` first: `entry`, a comma, and the old order
/// without `entry,`.
pub open spec fn boot_order_with(entry: Seq<char>, order: Seq<char>) -> Seq<char> {
    entry + ","@ + replace_all(order, entry + ","@, Seq::empty())
}

/// The new boot order that puts `entry` first.
pub fn new_boot_order(entry: &str, boot_order: &str) -> (r: String)
    ensures
        r@ == boot_order_with(entry@, boot_order@),
{
    proof { reveal_strlit(","); }
    let mut key = chars_of(entry);
    key.push(',');
    assert(key@ =~= entry@ + ","@);
    let o = chars_of(boot_order);
    let none: Vec<char> = Vec::new();
    let rest = replace_chars(o.as_slice(), key.as_slice(), none.as_slice());
    assert(none@ =~= Seq::<char>::empty());
    let mut r = key;
    push_all(&mut r, rest.as_slice());
    assert(r@ =~= boot_order_with(entry@, boot_order@));
    string_of(r.as_slice())
}

/// What the user asked for at the distribution prompt.
#[derive(Debug)]
pub enum DistroChoice {
    /// Leave the prompt.
    Quit,
    /// Show the distributions.
    List,
    /// Switch to the distribution of this name.
    Switch(String),
    /// The name is not in the map.
    Invalid,
}

/// The answer `input` to the distribution prompt, given the map's listing:
/// `q` quits, `list` lists, a name that the listing holds switches, and
/// anything else is invalid (surrounding white space ignored).
pub fn distro_choice(input: &str, listing: &str) -> (c: DistroChoice)
    ensures
        trim(input@) == "q"@ ==> c is Quit,
        trim(input@) != "q"@ && trim(input@) == "list"@ ==> c is List,
        trim(input@) != "q"@ && trim(input@) != "list"@ && contains(listing@, trim(input@)) ==> (c matches DistroChoice::Switch(n) && n@ == trim(input@)),
        trim(input@) != "q"@ && trim(input@) != "list"@ && !contains(listing@, trim(input@)) ==> c is Invalid,
{
    let i = chars_of(input);
    let next = trim_chars(i.as_slice());
    let q = chars_of("q");
    let l = chars_of("list");
    if vec_eq(&next, &q) {
        DistroChoice::Quit
    } else if vec_eq(&next, &l) {
        DistroChoice::List
    } else {
        let m = chars_of(listing);
        if has(m.as_slice(), next.as_slice()) {
            DistroChoice::Switch(string_of(next.as_slice()))
        } else {
            DistroChoice::Invalid
        }
    }
}

} // verus!
