use vstd::prelude::*;

use crate::chars::same_chars;

verus! {

/// What `str::to_lowercase` makes of a sequence of characters.
pub uninterp spec fn lower_of(s: Seq<char>) -> Seq<char>;

/// Relies on `str::to_lowercase`: the lowercase form of a string depends
/// on its characters alone.
#[verifier::external_body]
fn lowercase(s: &str) -> (r: String)
    ensures
        r@ == lower_of(s@),
{
    s.to_lowercase()
}

/// The names that mark a file for relocation, in lowercase.
pub open spec fn is_target_spec(lowered: Seq<char>) -> bool {
    lowered == "password.txt"@ || lowered == "passwords.txt"@
}

/// One entry met while walking a directory tree: whether it is a regular
/// file, and its base name.
pub struct DirEntryInfo {
    pub is_file: bool,
    pub name: String,
}

/// An entry is a target when it is a regular file whose lowercased base
/// name is one of the target names.
pub open spec fn entry_is_target(e: DirEntryInfo) -> bool {
    e.is_file && is_target_spec(lower_of(e.name@))
}

/// How many entries of `es` are targets.
pub open spec fn num_targets(es: Seq<DirEntryInfo>) -> nat
    decreases es.len(),
{
    if es.len() == 0 {
        0
    } else {
        num_targets(es.drop_last()) + if entry_is_target(es.last()) { 1nat } else { 0nat }
    }
}

/// Whether an already lowercased name is `password.txt` or `passwords.txt`.
pub fn is_target_name(lowered: &str) -> (r: bool)
    ensures
        r == is_target_spec(lowered@),
{
    same_chars(lowered, "password.txt") || same_chars(lowered, "passwords.txt")
}

/// The lowercase form of a base name.
pub fn lowercase_name(name: &str) -> (r: String)
    ensures
        r@ == lower_of(name@),
{
    lowercase(name)
}

/// Whether a walked entry is a file to relocate.
pub fn is_target_entry(is_file: bool, name: &str) -> (r: bool)
    ensures
        r == (is_file && is_target_spec(lower_of(name@))),
{
    if !is_file {
        return false;
    }
    let lowered = lowercase(name);
    is_target_name(lowered.as_str())
}

/// The number of entries of a walked tree that are files to relocate,
/// whatever their depth.
pub fn count_files(entries: &Vec<DirEntryInfo>) -> (r: usize)
    ensures
        r == num_targets(entries@),
{
    let mut count: usize = 0;
    let mut i: usize = 0;
    while i < entries.len()
        invariant
            i <= entries@.len(),
            count == num_targets(entries@.subrange(0, i as int)),
            count <= i,
        decreases entries@.len() - i,
    {
        let e = &entries[i];
        let hit = is_target_entry(e.is_file, e.name.as_str());
        assert(entries@.subrange(0, i + 1).drop_last() =~= entries@.subrange(0, i as int));
        if hit {
            count = count + 1;
        }
        i = i + 1;
    }
    assert(entries@.subrange(0, i as int) =~= entries@);
    count
}

} // verus!
