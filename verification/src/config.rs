//! The per-snapshot configuration file `ash.conf`.
//!
//! Each line of the form `key::value` sets an option; text after a `#` is a
//! comment. A later line overrides an earlier one for the same key. A
//! snapshot without the file has the defaults `aur::False` and empty lists
//! of mutable directories.
use vstd::prelude::*;
use crate::text::{
    chars_of, find, first_occurrence, has, lines_chars, lines_of, occurs_at, slice_of, split_char,
    split_chars, string_of, trim, trim_chars, trim_end, trim_end_chars, contains,
};

verus! {

/// `::`
pub open spec fn option_separator() -> Seq<char> {
    seq![':', ':']
}

/// The text of a line before its first `#`.
pub open spec fn before_hash(line: Seq<char>) -> Seq<char> {
    match first_occurrence(line, seq!['#']) {
        Some(i) => line.take(i),
        None => line,
    }
}

/// A line sets an option when its text before any comment holds `::`.
pub open spec fn sets_option(line: Seq<char>) -> bool {
    contains(before_hash(line), option_separator())
}

/// The key set by a line: the text before its first `::`.
pub open spec fn option_key(line: Seq<char>) -> Seq<char> {
    line.take(first_occurrence(line, option_separator()).unwrap())
}

/// The value set by a line: the text after its first `::`, without
/// trailing white space and cut at the first `#`.
pub open spec fn option_value(line: Seq<char>) -> Seq<char> {
    before_hash(trim_end(line.skip(first_occurrence(line, option_separator()).unwrap() + 2)))
}

/// The options set by the lines, in order.
pub open spec fn config_entries(lines: Seq<Seq<char>>) -> Seq<(Seq<char>, Seq<char>)>
    decreases lines.len(),
{
    if lines.len() == 0 {
        Seq::empty()
    } else {
        let rest = config_entries(lines.drop_last());
        let l = lines.last();
        if sets_option(l) {
            rest.push((option_key(l), option_value(l)))
        } else {
            rest
        }
    }
}

/// The options in effect after setting `entries` in order.
pub open spec fn config_map(entries: Seq<(Seq<char>, Seq<char>)>) -> Map<Seq<char>, Seq<char>>
    decreases entries.len(),
{
    if entries.len() == 0 {
        Map::empty()
    } else {
        config_map(entries.drop_last()).insert(entries.last().0, entries.last().1)
    }
}

/// `aur`
pub open spec fn aur_key() -> Seq<char> {
    seq!['a', 'u', 'r']
}

/// `mutable_dirs`
pub open spec fn mutable_dirs_key() -> Seq<char> {
    seq!['m', 'u', 't', 'a', 'b', 'l', 'e', '_', 'd', 'i', 'r', 's']
}

/// `mutable_dirs_shared`
pub open spec fn mutable_dirs_shared_key() -> Seq<char> {
    mutable_dirs_key() + seq!['_', 's', 'h', 'a', 'r', 'e', 'd']
}

/// The options of a snapshot without a configuration file.
pub open spec fn default_entries() -> Seq<(Seq<char>, Seq<char>)> {
    seq![
        (aur_key(), seq!['F', 'a', 'l', 's', 'e']),
        (mutable_dirs_key(), Seq::empty()),
        (mutable_dirs_shared_key(), Seq::empty()),
    ]
}

/// The options of a snapshot whose configuration file holds `text`, or that
/// has no such file.
pub open spec fn snapshot_options(text: Option<Seq<char>>) -> Map<Seq<char>, Seq<char>> {
    match text {
        Some(t) => config_map(config_entries(lines_of(t))),
        None => config_map(default_entries()),
    }
}

/// The options of one snapshot, in the order in which they were set.
pub struct SnapshotConfig {
    keys: Vec<Vec<char>>,
    values: Vec<Vec<char>>,
}

impl SnapshotConfig {
    /// The settings, in order.
    pub closed spec fn entries(&self) -> Seq<(Seq<char>, Seq<char>)> {
        Seq::new(self.keys@.len(), |i: int| (self.keys@[i]@, self.values@[i]@))
    }

    pub closed spec fn wf(&self) -> bool {
        self.keys@.len() == self.values@.len()
    }

    /// The options in effect.
    pub open spec fn view(&self) -> Map<Seq<char>, Seq<char>> {
        config_map(self.entries())
    }

    /// The value of option `key`, if it is set.
    pub fn get(&self, key: &str) -> (r: Option<String>)
        requires
            self.wf(),
        ensures
            r is Some <==> self.view().contains_key(key@),
            r matches Some(v) ==> v@ == self.view()[key@],
    {
        let k = chars_of(key);
        let mut i = self.keys.len();
        while i > 0
            invariant
                self.wf(),
                i <= self.keys@.len(),
                k@ == key@,
                forall|j: int| i <= j < self.keys@.len() ==> #[trigger] self.keys@[j]@ != key@,
            decreases i,
        {
            if vec_eq(&self.keys[i - 1], &k) {
                proof { lemma_config_map_last(self.entries(), key@, (i - 1) as int); }
                return Some(string_of(self.values[i - 1].as_slice()));
            }
            i = i - 1;
        }
        proof { lemma_config_map_absent(self.entries(), key@); }
        None
    }
}

/// Whether two character sequences are equal.
pub fn vec_eq(a: &Vec<char>, b: &Vec<char>) -> (r: bool)
    ensures
        r == (a@ == b@),
{
    if a.len() != b.len() {
        return false;
    }
    let mut i: usize = 0;
    while i < a.len()
        invariant
            a@.len() == b@.len(),
            i <= a@.len(),
            forall|j: int| 0 <= j < i ==> a@[j] == b@[j],
        decreases a@.len() - i,
    {
        if a[i] != b[i] {
            return false;
        }
        i = i + 1;
    }
    assert(a@ =~= b@);
    true
}

/// The value of a key is the value of its last setting.
proof fn lemma_config_map_last(es: Seq<(Seq<char>, Seq<char>)>, key: Seq<char>, i: int)
    requires
        0 <= i < es.len(),
        es[i].0 == key,
        forall|j: int| i < j < es.len() ==> #[trigger] es[j].0 != key,
    ensures
        config_map(es).contains_key(key),
        config_map(es)[key] == es[i].1,
    decreases es.len(),
{
    if i < es.len() - 1 {
        assert(es.drop_last()[i] == es[i]);
        assert forall|j: int| i < j < es.drop_last().len() implies #[trigger] es.drop_last()[j].0 != key by {
            assert(es.drop_last()[j] == es[j]);
        }
        lemma_config_map_last(es.drop_last(), key, i);
        assert(es.last().0 != key);
    }
}

/// A key that is never set has no value.
proof fn lemma_config_map_absent(es: Seq<(Seq<char>, Seq<char>)>, key: Seq<char>)
    requires
        forall|j: int| 0 <= j < es.len() ==> #[trigger] es[j].0 != key,
    ensures
        !config_map(es).contains_key(key),
    decreases es.len(),
{
    if es.len() > 0 {
        assert forall|j: int| 0 <= j < es.drop_last().len() implies #[trigger] es.drop_last()[j].0 != key by {
            assert(es.drop_last()[j] == es[j]);
        }
        lemma_config_map_absent(es.drop_last(), key);
        assert(es.last().0 != key);
    }
}

/// The text of a line before its first `#`.
pub fn comment_after_hash(line: &str) -> (r: String)
    ensures
        r@ == before_hash(line@),
{
    let l = chars_of(line);
    let r = before_hash_chars(&l);
    string_of(r.as_slice())
}

fn before_hash_chars(l: &Vec<char>) -> (r: Vec<char>)
    ensures
        r@ == before_hash(l@),
{
    let hash = vec!['#'];
    assert(hash@ =~= seq!['#']);
    match find(l.as_slice(), hash.as_slice()) {
        Some(i) => slice_of(l.as_slice(), 0, i),
        None => l.clone(),
    }
}

proof fn lemma_before_hash_prefix(line: Seq<char>)
    ensures
        before_hash(line).len() <= line.len(),
        forall|j: int| 0 <= j < before_hash(line).len() ==> #[trigger] before_hash(line)[j] == line[j],
{
    crate::text::lemma_first_occurrence(line, seq!['#']);
}

/// Reads the options of a snapshot from the text of its configuration
/// file, or gives the defaults when it has none.
pub fn snapshot_config_get(text: Option<&str>) -> (c: SnapshotConfig)
    ensures
        c.wf(),
        c.view() == snapshot_options(
            match text {
                Some(t) => Some(t@),
                None => None,
            },
        ),
{
    match text {
        None => {
            let mut keys: Vec<Vec<char>> = Vec::new();
            let mut values: Vec<Vec<char>> = Vec::new();
            let k0 = vec!['a', 'u', 'r'];
            let v0 = vec!['F', 'a', 'l', 's', 'e'];
            let k1 = vec!['m', 'u', 't', 'a', 'b', 'l', 'e', '_', 'd', 'i', 'r', 's'];
            let k2 = vec!['m', 'u', 't', 'a', 'b', 'l', 'e', '_', 'd', 'i', 'r', 's', '_', 's', 'h', 'a', 'r', 'e', 'd'];
            let v1: Vec<char> = Vec::new();
            let v2: Vec<char> = Vec::new();
            assert(k0@ =~= aur_key());
            assert(v0@ =~= seq!['F', 'a', 'l', 's', 'e']);
            assert(k1@ =~= mutable_dirs_key());
            assert(k2@ =~= mutable_dirs_shared_key());
            assert(v1@ =~= Seq::<char>::empty());
            assert(v2@ =~= Seq::<char>::empty());
            keys.push(k0);
            values.push(v0);
            keys.push(k1);
            values.push(v1);
            keys.push(k2);
            values.push(v2);
            let c = SnapshotConfig { keys, values };
            assert(c.entries() =~= default_entries()) by {
                assert(c.entries()[0] == default_entries()[0]);
                assert(c.entries()[1] == default_entries()[1]);
                assert(c.entries()[2] == default_entries()[2]);
            }
            c
        },
        Some(t) => {
            let chars = chars_of(t);
            let lines = lines_chars(chars.as_slice());
            let sep = vec![':', ':'];
            assert(sep@ =~= option_separator());
            let mut keys: Vec<Vec<char>> = Vec::new();
            let mut values: Vec<Vec<char>> = Vec::new();
            let ghost ls = lines_of(t@);
            let mut i: usize = 0;
            while i < lines.len()
                invariant
                    i <= lines@.len(),
                    lines@.len() == ls.len(),
                    forall|j: int| 0 <= j < lines@.len() ==> #[trigger] lines@[j]@ == ls[j],
                    sep@ == option_separator(),
                    keys@.len() == values@.len(),
                    Seq::new(keys@.len(), |j: int| (keys@[j]@, values@[j]@)) == config_entries(ls.take(i as int)),
                decreases lines@.len() - i,
            {
                let line = &lines[i];
                let stripped = before_hash_chars(line);
                assert(ls.take(i + 1).drop_last() =~= ls.take(i as int));
                assert(ls.take(i + 1).last() == line@);
                if has(stripped.as_slice(), sep.as_slice()) {
                    let at = find(line.as_slice(), sep.as_slice());
                    proof {
                        // The separator in the comment-free prefix is also in the line.
                        lemma_before_hash_prefix(line@);
                        let w = choose|w: int| occurs_at(before_hash(line@), option_separator(), w);
                        assert(occurs_at(line@, option_separator(), w)) by {
                            assert(line@.subrange(w, w + 2) =~= before_hash(line@).subrange(w, w + 2));
                        }
                    }
                    let llen = line.len();
                    let at = at.unwrap();
                    let key = slice_of(line.as_slice(), 0, at);
                    let rest = slice_of(line.as_slice(), at + 2, line.len());
                    let trimmed = trim_end_chars(rest.as_slice());
                    let value = before_hash_chars(&trimmed);
                    proof {
                        assert(rest@ =~= line@.skip(at + 2));
                        assert(key@ =~= line@.take(at as int));
                    }
                    let ghost old_keys = keys@;
                    let ghost old_values = values@;
                    keys.push(key);
                    values.push(value);
                    assert(Seq::new(keys@.len(), |j: int| (keys@[j]@, values@[j]@)) =~= Seq::new(
                        old_keys.len(),
                        |j: int| (old_keys[j]@, old_values[j]@),
                    ).push((option_key(line@), option_value(line@))));
                }
                i = i + 1;
            }
            assert(ls.take(lines@.len() as int) =~= ls);
            let c = SnapshotConfig { keys, values };
            assert(c.entries() =~= config_entries(ls));
            c
        },
    }
}

/// The `aur` option is set to `True` or `False`.
pub open spec fn aur_valid(options: &SnapshotConfig) -> bool {
    &&& options.wf()
    &&& options.view().contains_key(aur_key())
    &&& (options.view()[aur_key()] == seq!['T', 'r', 'u', 'e'] || options.view()[aur_key()] == seq![
        'F',
        'a',
        'l',
        's',
        'e',
    ])
}

/// The `aur` option is set to `True`.
pub open spec fn aur_enabled(options: &SnapshotConfig) -> bool {
    options.view()[aur_key()] == seq!['T', 'r', 'u', 'e']
}

/// Whether the `aur` option is set to `True` or `False`.
pub fn aur_setting_valid(options: &SnapshotConfig) -> (b: bool)
    ensures
        b == aur_valid(options),
{
    if options.keys.len() != options.values.len() {
        return false;
    }
    let v = options.get("aur");
    proof {
        reveal_strlit("aur");
        assert("aur"@ =~= aur_key());
    }
    match v {
        None => false,
        Some(v) => {
            let v = chars_of(v.as_str());
            let t = vec!['T', 'r', 'u', 'e'];
            let f = vec!['F', 'a', 'l', 's', 'e'];
            assert(t@ =~= seq!['T', 'r', 'u', 'e']);
            assert(f@ =~= seq!['F', 'a', 'l', 's', 'e']);
            vec_eq(&v, &t) || vec_eq(&v, &f)
        },
    }
}

/// Whether the AUR helper is enabled by the options. The option must be set
/// to `True` or `False`.
pub fn aur_check(options: &SnapshotConfig) -> (aur: bool)
    requires
        aur_valid(options),
    ensures
        aur == (options.view()[aur_key()] == seq!['T', 'r', 'u', 'e']),
{
    let v = options.get("aur");
    proof {
        reveal_strlit("aur");
        assert("aur"@ =~= aur_key());
    }
    let v = chars_of(v.unwrap().as_str());
    let t = vec!['T', 'r', 'u', 'e'];
    let r = vec_eq(&v, &t);
    assert(t@ =~= seq!['T', 'r', 'u', 'e']);
    r
}

/// The directories named by a list option: the comma-separated items, each
/// item of the form `a::b` giving both `a` and `b`, blank items left out.
pub open spec fn dir_items(value: Seq<char>) -> Seq<Seq<char>> {
    expand_dirs(split_char(value, ','))
}

/// The items, each split at its first `::`.
pub open spec fn expand_dirs(items: Seq<Seq<char>>) -> Seq<Seq<char>>
    decreases items.len(),
{
    if items.len() == 0 {
        Seq::empty()
    } else {
        let rest = expand_dirs(items.drop_last());
        let it = items.last();
        let parts = match first_occurrence(it, option_separator()) {
            Some(i) => seq![it.take(i), it.skip(i + 2)],
            None => seq![it],
        };
        rest + parts.filter(|p: Seq<char>| trim(p).len() > 0)
    }
}

/// The directories that option `key` lists, none when it is not set.
pub fn mutable_dirs(options: &SnapshotConfig, key: &str) -> (dirs: Vec<String>)
    requires
        options.wf(),
    ensures
        dirs@.len() == (if options.view().contains_key(key@) { dir_items(options.view()[key@]).len() } else { 0 }),
        forall|i: int| 0 <= i < dirs@.len() ==> #[trigger] dirs@[i]@ == dir_items(options.view()[key@])[i],
{
    let mut dirs: Vec<String> = Vec::new();
    match options.get(key) {
        None => dirs,
        Some(value) => {
            let v = chars_of(value.as_str());
            let items = split_chars(v.as_slice(), ',');
            let sep = vec![':', ':'];
            assert(sep@ =~= option_separator());
            let ghost its = split_char(v@, ',');
            let mut i: usize = 0;
            while i < items.len()
                invariant
                    i <= items@.len(),
                    items@.len() == its.len(),
                    forall|j: int| 0 <= j < items@.len() ==> #[trigger] items@[j]@ == its[j],
                    sep@ == option_separator(),
                    dirs@.len() == expand_dirs(its.take(i as int)).len(),
                    forall|j: int| 0 <= j < dirs@.len() ==> #[trigger] dirs@[j]@ == expand_dirs(its.take(i as int))[j],
                decreases items@.len() - i,
            {
                let it = &items[i];
                assert(its.take(i + 1).drop_last() =~= its.take(i as int));
                assert(its.take(i + 1).last() == it@);
                let mut parts: Vec<Vec<char>> = Vec::new();
                let ilen = it.len();
                match find(it.as_slice(), sep.as_slice()) {
                    Some(at) => {
                        parts.push(slice_of(it.as_slice(), 0, at));
                        parts.push(slice_of(it.as_slice(), at + 2, it.len()));
                        assert(parts@[0]@ =~= it@.take(at as int));
                        assert(parts@[1]@ =~= it@.skip(at + 2));
                    },
                    None => {
                        parts.push(it.clone());
                    },
                }
                let ghost pspec = match first_occurrence(it@, option_separator()) {
                    Some(a) => seq![it@.take(a), it@.skip(a + 2)],
                    None => seq![it@],
                };
                assert(parts@.len() == pspec.len());
                let ghost base = dirs@;
                let mut q: usize = 0;
                while q < parts.len()
                    invariant
                        q <= parts@.len(),
                        parts@.len() == pspec.len(),
                        forall|j: int| 0 <= j < parts@.len() ==> #[trigger] parts@[j]@ == pspec[j],
                        dirs@.len() == base.len() + pspec.take(q as int).filter(|p: Seq<char>| trim(p).len() > 0).len(),
                        forall|j: int| 0 <= j < base.len() ==> #[trigger] dirs@[j] == base[j],
                        forall|j: int| 0 <= j < pspec.take(q as int).filter(|p: Seq<char>| trim(p).len() > 0).len()
                            ==> #[trigger] dirs@[base.len() + j]@ == pspec.take(q as int).filter(|p: Seq<char>| trim(p).len() > 0)[j],
                    decreases parts@.len() - q,
                {
                    let p = &parts[q];
                    let tp = trim_chars(p.as_slice());
                    proof {
                        reveal_with_fuel(Seq::filter, 1);
                        assert(pspec.take(q + 1).drop_last() =~= pspec.take(q as int));
                    }
                    if tp.len() > 0 {
                        let ghost before_push = dirs@;
                        dirs.push(string_of(p.as_slice()));
                        proof {
                            assert forall|j: int| 0 <= j < base.len() implies #[trigger] dirs@[j] == base[j] by {
                                assert(dirs@[j] == before_push[j]);
                            }
                        }
                    }
                    q = q + 1;
                }
                proof {
                    assert(pspec.take(pspec.len() as int) =~= pspec);
                    assert forall|j: int| 0 <= j < dirs@.len() implies #[trigger] dirs@[j]@ == expand_dirs(its.take(i + 1))[j] by {
                        if j < base.len() {
                            assert(dirs@[j] == base[j]);
                        } else {
                            assert(dirs@[base.len() + (j - base.len())] == dirs@[j]);
                        }
                    }
                }
                i = i + 1;
            }
            proof {
                assert(its.take(items@.len() as int) =~= its);
            }
            dirs
        },
    }
}


proof fn lemma_setting_wins(ls: Seq<Seq<char>>, k: int)
    requires
        0 <= k < ls.len(),
        sets_option(ls[k]),
        forall|j: int| k < j < ls.len() && sets_option(ls[j]) ==> #[trigger] option_key(ls[j]) != option_key(ls[k]),
    ensures
        config_map(config_entries(ls)).contains_key(option_key(ls[k])),
        config_map(config_entries(ls))[option_key(ls[k])] == option_value(ls[k]),
    decreases ls.len(),
{
    let last = ls.len() - 1;
    let front = ls.drop_last();
    let rest = config_entries(front);
    let l = ls.last();
    if sets_option(l) {
        let es = rest.push((option_key(l), option_value(l)));
        assert(config_entries(ls) == es);
        assert(es.drop_last() =~= rest);
        assert(config_map(es) == config_map(rest).insert(option_key(l), option_value(l)));
    } else {
        assert(config_entries(ls) == rest);
    }
    if k < last {
        assert(front[k] == ls[k]);
        assert forall|j: int| k < j < front.len() && sets_option(front[j]) implies #[trigger] option_key(front[j]) != option_key(front[k]) by {
            assert(front[j] == ls[j]);
        }
        lemma_setting_wins(front, k);
        if sets_option(l) {
            assert(option_key(ls[last]) != option_key(ls[k]));
        }
    }
}

/// A later line overrides an earlier one: the value of an option is the
/// value of the last line of the file that sets it.
pub proof fn lemma_last_setting_wins(text: Seq<char>, k: int)
    requires
        0 <= k < lines_of(text).len(),
        sets_option(lines_of(text)[k]),
        forall|j: int| k < j < lines_of(text).len() && sets_option(lines_of(text)[j])
            ==> #[trigger] option_key(lines_of(text)[j]) != option_key(lines_of(text)[k]),
    ensures
        snapshot_options(Some(text)).contains_key(option_key(lines_of(text)[k])),
        snapshot_options(Some(text))[option_key(lines_of(text)[k])] == option_value(lines_of(text)[k]),
{
    lemma_setting_wins(lines_of(text), k);
}

} // verus!
