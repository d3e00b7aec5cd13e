//! Profiles: named sets of packages and commands, written as INI files.
//!
//! The `packages` section of a profile lists the packages to install or to
//! remove, its `install-commands` and `uninstall-commands` sections the
//! shell commands run in the snapshot, and a `presets` section asks for the
//! AUR. The text is parsed by `configparser`; what is done with the sections
//! it finds is decided here.
use vstd::prelude::*;
use crate::text::chars_of;
use crate::config::{SnapshotConfig, aur_check, aur_enabled, aur_setting_valid, aur_valid, vec_eq};
use crate::error::{AshError, ErrorKind, error_of};

verus! {

// The sections that `configparser` reads from a profile text, with `#`
// starting a comment and indented lines continuing a value: each section's
// name with the set of its keys, or `None` where the text is refused.
pub uninterp spec fn profile_sections(text: Seq<char>) -> Option<Map<Seq<char>, Set<Seq<char>>>>;

/// The text of each key.
pub open spec fn key_views(keys: Seq<String>) -> Seq<Seq<char>> {
    keys.map_values(|k: String| k@)
}

/// The keys of the first section named `name`, if there is one.
pub open spec fn section_keys(v: Seq<(String, Vec<String>)>, name: Seq<char>) -> Option<Seq<Seq<char>>>
    decreases v.len(),
{
    if v.len() == 0 {
        None
    } else if v[0].0@ == name {
        Some(key_views(v[0].1@))
    } else {
        section_keys(v.drop_first(), name)
    }
}

/// The sections as a map from their names to their sets of keys.
pub open spec fn sections_map(v: Seq<(String, Vec<String>)>) -> Map<Seq<char>, Set<Seq<char>>> {
    Map::new(|n: Seq<char>| section_keys(v, n) is Some, |n: Seq<char>| section_keys(v, n)->0.to_set())
}

/// No section name occurs twice, and no key occurs twice in a section.
pub open spec fn sections_distinct(v: Seq<(String, Vec<String>)>) -> bool {
    &&& forall|i: int, j: int| 0 <= i < j < v.len() ==> #[trigger] v[i].0@ != #[trigger] v[j].0@
    &&& forall|i: int| 0 <= i < v.len() ==> key_views(#[trigger] v[i].1@).no_duplicates()
}

/// `configparser::ini::Ini::read` on a new `Ini` (which folds section names
/// and keys to lower case) with `#` as its only comment symbol and
/// multiline values on: the sections read, each with its keys, or `None`
/// where `read` returns an error. The sections and their keys are those of
/// hash maps, so no name occurs twice; their order is left unsaid.
#[verifier::external_body]
fn read_profile(text: &str) -> (r: Option<Vec<(String, Vec<String>)>>)
    ensures
        r is Some <==> profile_sections(text@) is Some,
        r matches Some(v) ==> sections_distinct(v@) && sections_map(v@) == profile_sections(text@)->0,
{
    let mut ini = configparser::ini::Ini::new();
    ini.set_comment_symbols(&['#']);
    ini.set_multiline(true);
    match ini.read(text.to_string()) {
        Ok(map) => Some(map.into_iter().map(|(name, keys)| (name, keys.into_keys().collect())).collect()),
        Err(_) => None,
    }
}

/// The packages and commands that a profile asks for.
#[derive(Debug)]
pub struct ProfilePlan {
    pub packages: Vec<String>,
    pub commands: Vec<String>,
}

/// The keys of section `name`, none when there is no such section.
pub open spec fn listed(v: Seq<(String, Vec<String>)>, name: Seq<char>) -> Seq<Seq<char>> {
    match section_keys(v, name) {
        Some(k) => k,
        None => Seq::empty(),
    }
}

/// A profile with a `presets` section needs the AUR.
pub open spec fn needs_aur(v: Seq<(String, Vec<String>)>) -> bool {
    section_keys(v, "presets"@) is Some
}

/// The keys of section `name` of parsed sections, none when there is no
/// such section.
pub open spec fn section_set(m: Map<Seq<char>, Set<Seq<char>>>, name: Seq<char>) -> Set<Seq<char>> {
    if m.contains_key(name) { m[name] } else { Set::empty() }
}

/// The plan holds, each once, the keys of the `packages` section and of
/// section `commands` of the parsed sections `m`.
pub open spec fn plan_of(p: ProfilePlan, m: Map<Seq<char>, Set<Seq<char>>>, commands: Seq<char>) -> bool {
    &&& key_views(p.packages@).no_duplicates()
    &&& key_views(p.packages@).to_set() == section_set(m, "packages"@)
    &&& key_views(p.commands@).no_duplicates()
    &&& key_views(p.commands@).to_set() == section_set(m, commands)
}

/// Where the first section named `name` stands.
fn find_section(sections: &Vec<(String, Vec<String>)>, name: &str) -> (r: Option<usize>)
    ensures
        r matches Some(i) ==> i < sections@.len() && section_keys(sections@, name@) == Some(
            key_views(sections@[i as int].1@),
        ),
        r is None ==> section_keys(sections@, name@) is None,
{
    let n = chars_of(name);
    let mut i: usize = 0;
    assert(sections@.subrange(0, sections@.len() as int) =~= sections@);
    while i < sections.len()
        invariant
            i <= sections@.len(),
            n@ == name@,
            section_keys(sections@, name@) == section_keys(
                sections@.subrange(i as int, sections@.len() as int),
                name@,
            ),
        decreases sections@.len() - i,
    {
        let entry = &sections[i];
        let s = chars_of(entry.0.as_str());
        proof {
            let t = sections@.subrange(i as int, sections@.len() as int);
            assert(t[0] == sections@[i as int]);
            assert(t.drop_first() =~= sections@.subrange(i + 1, sections@.len() as int));
        }
        if vec_eq(&s, &n) {
            return Some(i);
        }
        i = i + 1;
    }
    None
}

/// Whether there is a section named `name`.
pub fn has_section(sections: &Vec<(String, Vec<String>)>, name: &str) -> (b: bool)
    ensures
        b == (section_keys(sections@, name@) is Some),
{
    find_section(sections, name).is_some()
}

/// The keys of the first section named `name`, none when there is none.
pub fn keys_of(sections: &Vec<(String, Vec<String>)>, name: &str) -> (r: Vec<String>)
    ensures
        key_views(r@) == listed(sections@, name@),
{
    match find_section(sections, name) {
        None => {
            let out: Vec<String> = Vec::new();
            assert(key_views(out@) =~= Seq::<Seq<char>>::empty());
            out
        },
        Some(i) => {
            let keys = &sections[i].1;
            let mut out: Vec<String> = Vec::new();
            let mut j: usize = 0;
            while j < keys.len()
                invariant
                    j <= keys@.len(),
                    out@.len() == j,
                    forall|k: int| 0 <= k < j ==> #[trigger] out@[k]@ == keys@[k]@,
                decreases keys@.len() - j,
            {
                out.push(keys[j].clone());
                j = j + 1;
            }
            assert(key_views(out@) =~= key_views(keys@));
            out
        },
    }
}

/// What installing a profile with the given sections does: refused with
/// `Please enable AUR.` when it has presets and the AUR is off; otherwise
/// the keys of its `packages` section are the packages to install, and
/// those of section `commands` the commands to run. The `aur` option must
/// be `True` or `False` when the profile has presets.
pub fn profile_plan(sections: &Vec<(String, Vec<String>)>, options: &SnapshotConfig, commands: &str) -> (r: Result<ProfilePlan, AshError>)
    requires
        needs_aur(sections@) ==> aur_valid(options),
    ensures
        r is Err <==> (needs_aur(sections@) && !aur_enabled(options)),
        r matches Err(e) ==> e.kind == ErrorKind::Unsupported && e.message@ == "Please enable AUR."@,
        r matches Ok(p) ==> key_views(p.packages@) == listed(sections@, "packages"@) && key_views(p.commands@)
            == listed(sections@, commands@),
{
    proof { reveal_strlit("presets"); }
    if has_section(sections, "presets") && !aur_check(options) {
        return Err(error_of(ErrorKind::Unsupported, "Please enable AUR."));
    }
    let packages = keys_of(sections, "packages");
    let commands = keys_of(sections, commands);
    Ok(ProfilePlan { packages, commands })
}

/// What removing a profile with the given sections does: the keys of its
/// `packages` section are the packages to remove, and those of its
/// `uninstall-commands` section the commands to run.
pub fn removal_plan(sections: &Vec<(String, Vec<String>)>) -> (p: ProfilePlan)
    ensures
        key_views(p.packages@) == listed(sections@, "packages"@),
        key_views(p.commands@) == listed(sections@, "uninstall-commands"@),
{
    let packages = keys_of(sections, "packages");
    let commands = keys_of(sections, "uninstall-commands");
    ProfilePlan { packages, commands }
}

/// Parsed sections say in their map what their listing says.
proof fn lemma_listed(v: Seq<(String, Vec<String>)>, name: Seq<char>)
    requires
        sections_distinct(v),
    ensures
        listed(v, name).no_duplicates(),
        listed(v, name).to_set() == section_set(sections_map(v), name),
    decreases v.len(),
{
    if v.len() > 0 && v[0].0@ != name {
        let w = v.drop_first();
        assert forall|i: int, j: int| 0 <= i < j < w.len() implies #[trigger] w[i].0@ != #[trigger] w[j].0@ by {
            assert(w[i] == v[i + 1] && w[j] == v[j + 1]);
        }
        assert forall|i: int| 0 <= i < w.len() implies key_views(#[trigger] w[i].1@).no_duplicates() by {
            assert(w[i] == v[i + 1]);
        }
        lemma_listed(w, name);
        assert(section_set(sections_map(v), name) =~= section_set(sections_map(w), name));
    } else if v.len() > 0 {
        assert(key_views(v[0].1@).no_duplicates());
    } else {
        assert(listed(v, name).to_set() =~= Set::<Seq<char>>::empty());
    }
}

/// The outcome of reading a profile to install it.
#[derive(Debug)]
pub enum ProfileRead {
    /// `configparser` refuses the text.
    Malformed,
    /// The profile has presets and the `aur` option is neither `True` nor
    /// `False`.
    AurUnset,
    /// The plan of the profile, or why it is refused.
    Read(Result<ProfilePlan, AshError>),
}

/// Reads profile `text` to install it, with the snapshot's options at hand,
/// running the commands of section `commands`.
pub fn profile_from_text(text: &str, options: &SnapshotConfig, commands: &str) -> (r: ProfileRead)
    ensures
        r is Malformed <==> profile_sections(text@) is None,
        r is AurUnset <==> (profile_sections(text@) matches Some(m) && m.contains_key("presets"@) && !aur_valid(
            options,
        )),
        r matches ProfileRead::Read(res) ==> (profile_sections(text@) matches Some(m) && {
            &&& (res is Err <==> (m.contains_key("presets"@) && !aur_enabled(options)))
            &&& (res matches Err(e) ==> e.kind == ErrorKind::Unsupported && e.message@ == "Please enable AUR."@)
            &&& (res matches Ok(p) ==> plan_of(p, m, commands@))
        }),
{
    match read_profile(text) {
        None => ProfileRead::Malformed,
        Some(sections) => {
            let ghost m = profile_sections(text@)->0;
            proof {
                reveal_strlit("presets");
                lemma_listed(sections@, "presets"@);
                lemma_listed(sections@, "packages"@);
                lemma_listed(sections@, commands@);
                assert(m.contains_key("presets"@) == needs_aur(sections@));
            }
            if has_section(&sections, "presets") && !aur_setting_valid(options) {
                return ProfileRead::AurUnset;
            }
            ProfileRead::Read(profile_plan(&sections, options, commands))
        },
    }
}

/// Reads profile `text` to remove it: `None` when `configparser` refuses
/// the text.
pub fn removal_from_text(text: &str) -> (r: Option<ProfilePlan>)
    ensures
        r is None <==> profile_sections(text@) is None,
        r matches Some(p) ==> plan_of(p, profile_sections(text@)->0, "uninstall-commands"@),
{
    match read_profile(text) {
        None => None,
        Some(sections) => {
            proof {
                lemma_listed(sections@, "packages"@);
                reveal_strlit("uninstall-commands");
                lemma_listed(sections@, "uninstall-commands"@);
            }
            Some(removal_plan(&sections))
        },
    }
}

} // verus!
