//! Naming of imported audio files. An import always copies the file into the
//! project's `assets` folder; a different file that already has the name gets
//! the next free numbered name, `stem (2).ext`, `stem (3).ext`, ...

use crate::text::decimal;
use vstd::prelude::*;

verus! {

/// `k` is the position of the last `.` in `s`.
pub open spec fn last_dot(s: Seq<char>, k: int) -> bool {
    0 <= k < s.len() && s[k] == '.' && forall|j: int| k < j < s.len() ==> s[j] != '.'
}

/// Splits a file name at its last `.` into the stem and the extension, the
/// extension keeping its dot; a name without a dot has an empty extension.
pub fn split_file_name(name: &str) -> (res: (String, String))
    ensures
        forall|k: int| last_dot(name@, k) ==> res.0@ == name@.take(k) && res.1@ == name@.skip(k),
        (forall|k: int| 0 <= k < name@.len() ==> name@[k] != '.') ==> res.0@ == name@ && res.1@
            == Seq::<char>::empty(),
{
    let n = name.unicode_len();
    let mut k: usize = n;
    while k > 0 && name.get_char(k - 1) != '.'
        invariant
            k <= n,
            n == name@.len(),
            forall|j: int| k <= j < n ==> name@[j] != '.',
        decreases k,
    {
        k = k - 1;
    }
    if k == 0 {
        proof {
            reveal_strlit("");
        }
        assert(name@.subrange(0, n as int) =~= name@);
        (String::from_str(name.substring_char(0, n)), String::from_str(""))
    } else {
        assert(last_dot(name@, k - 1));
        assert forall|j: int| last_dot(name@, j) implies j == k - 1 by {
            if j < k - 1 {
                assert(name@[k - 1] == '.');
            }
        }
        assert(name@.subrange(0, k - 1) =~= name@.take(k - 1));
        assert(name@.subrange(k - 1, n as int) =~= name@.skip(k - 1));
        (String::from_str(name.substring_char(0, k - 1)), String::from_str(name.substring_char(k - 1, n)))
    }
}

/// The `n`-th name tried for an import: `stem (n)ext`.
pub open spec fn numbered_name_text(stem: Seq<char>, ext: Seq<char>, n: nat) -> Seq<char> {
    stem + " ("@ + decimal(n) + ")"@ + ext
}

/// The name tried once the file's own name is taken, `n` counting from 2.
pub fn numbered_name(stem: &str, ext: &str, n: u64) -> (res: String)
    ensures
        res@ == numbered_name_text(stem@, ext@, n as nat),
{
    let mut out = String::from_str(stem);
    out.append(" (");
    crate::text::push_decimal(&mut out, n);
    out.append(")");
    out.append(ext);
    out
}

/// Where an imported file is referred to, relative to the project file.
pub fn asset_path(file_name: &str) -> (res: String)
    ensures
        res@ == "assets/"@ + file_name@,
{
    let mut out = String::from_str("assets/");
    out.append(file_name);
    out
}

/// What an import does with a candidate name in the assets folder.
#[derive(Clone, Copy, Debug, PartialEq, Eq, Structural)]
pub enum ImportStep {
    /// Nothing has the name: copy the file there.
    Copy,
    /// A file of the same length has it: the file was imported before.
    Reuse,
    /// A different file has it: try the next numbered name.
    TryNext,
}

/// Decides on a candidate name from the length of the file already there, if
/// any, and the length of the file being imported.
pub fn import_step(existing_len: Option<u64>, source_len: u64) -> (res: ImportStep)
    ensures
        existing_len is None ==> res == ImportStep::Copy,
        existing_len == Some(source_len) ==> res == ImportStep::Reuse,
        existing_len matches Some(l) && l != source_len ==> res == ImportStep::TryNext,
{
    match existing_len {
        None => ImportStep::Copy,
        Some(l) => if l == source_len {
            ImportStep::Reuse
        } else {
            ImportStep::TryNext
        },
    }
}

/// A name with a dot has a last one.
proof fn lemma_last_dot_exists(name: Seq<char>, k: int)
    requires
        0 <= k < name.len(),
        name[k] == '.',
    ensures
        exists|j: int| last_dot(name, j),
    decreases name.len() - k,
{
    if exists|j: int| k < j < name.len() && name[j] == '.' {
        let j = choose|j: int| k < j < name.len() && name[j] == '.';
        lemma_last_dot_exists(name, j);
    } else {
        assert(last_dot(name, k));
    }
}

/// Splitting a file name loses nothing: the stem and the extension put back
/// together give the name, and the extension is empty or a dot followed by no
/// other dot.
pub proof fn law_split_file_name_rejoins(name: Seq<char>, stem: Seq<char>, ext: Seq<char>)
    requires
        forall|k: int| last_dot(name, k) ==> stem == name.take(k) && ext == name.skip(k),
        (forall|k: int| 0 <= k < name.len() ==> name[k] != '.') ==> stem == name && ext
            == Seq::<char>::empty(),
    ensures
        stem + ext == name,
        ext.len() == 0 || (ext[0] == '.' && forall|j: int| 0 < j < ext.len() ==> ext[j] != '.'),
{
    if exists|k: int| 0 <= k < name.len() && name[k] == '.' {
        let k0 = choose|k: int| 0 <= k < name.len() && name[k] == '.';
        lemma_last_dot_exists(name, k0);
        let k = choose|k: int| last_dot(name, k);
        assert(name.take(k) + name.skip(k) =~= name);
    } else {
        assert(name + Seq::<char>::empty() =~= name);
    }
}

} // verus!
