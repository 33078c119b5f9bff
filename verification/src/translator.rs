//! The Translator's settings: its queue priority and the list of watched
//! folders (no blank path, no folder twice, edits by index).
use crate::prompt::{trim, trim_chars};
use crate::text::{chars_of, decimal, eq_ignore_ascii_case, eq_ignore_ascii_case_spec, push_decimal, str_eq, string_of};
use vstd::prelude::*;

verus! {

/// How the Translator orders folder jobs against live dictation.
#[derive(Clone, Copy, Debug, PartialEq, Eq, Structural)]
pub enum TranslatorPriority {
    LiveFirst,
    FolderFirst,
    Fifo,
}

/// Parse a priority as the settings commands receive it.
pub fn change_translator_priority(priority: &str) -> (r: Result<TranslatorPriority, String>)
    ensures
        priority@ == "live_first"@ ==> r == Ok::<TranslatorPriority, String>(TranslatorPriority::LiveFirst),
        priority@ == "folder_first"@ ==> r == Ok::<TranslatorPriority, String>(TranslatorPriority::FolderFirst),
        priority@ == "fifo"@ ==> r == Ok::<TranslatorPriority, String>(TranslatorPriority::Fifo),
        priority@ != "live_first"@ && priority@ != "folder_first"@ && priority@ != "fifo"@ ==> (r matches Err(e)
            && e@ == "Unknown translator priority: "@ + priority@),
{
    proof {
        reveal_strlit("live_first");
        reveal_strlit("folder_first");
        reveal_strlit("fifo");
        assert("live_first"@.len() == 10 && "folder_first"@.len() == 12 && "fifo"@.len() == 4);
    }
    if str_eq(priority, "live_first") {
        Ok(TranslatorPriority::LiveFirst)
    } else if str_eq(priority, "folder_first") {
        Ok(TranslatorPriority::FolderFirst)
    } else if str_eq(priority, "fifo") {
        Ok(TranslatorPriority::Fifo)
    } else {
        let mut e = String::new();
        e.append("Unknown translator priority: ");
        e.append(priority);
        Err(e)
    }
}

/// One watched folder.
#[derive(Clone, Debug)]
pub struct TranslatorFolder {
    pub path: String,
    pub enabled: bool,
}

pub open spec fn folders_view(f: Seq<TranslatorFolder>) -> Seq<(Seq<char>, bool)> {
    f.map_values(|x: TranslatorFolder| (x.path@, x.enabled))
}

/// The path a folder is added under: the given path trimmed; an error when
/// nothing is left.
pub fn translator_folder_path(path: &str) -> (r: Result<String, String>)
    ensures
        match r {
            Ok(p) => trim(path@).len() > 0 && p@ == trim(path@),
            Err(e) => trim(path@).len() == 0 && e@ == "Folder path is empty"@,
        },
{
    let c = chars_of(path);
    let t = trim_chars(c.as_slice());
    if t.len() == 0 {
        return Err("Folder path is empty".to_owned());
    }
    Ok(string_of(t.as_slice()))
}

/// The error for a path that is not a directory.
pub fn not_a_folder(trimmed: &str) -> (r: String)
    ensures
        r@ == "Not a folder: "@ + trimmed@,
{
    let mut e = String::new();
    e.append("Not a folder: ");
    e.append(trimmed);
    e
}

/// Whether `path` is already watched (paths compare up to ASCII case).
pub open spec fn watched(folders: Seq<(Seq<char>, bool)>, path: Seq<char>) -> bool {
    exists|i: int| 0 <= i < folders.len() && eq_ignore_ascii_case_spec(#[trigger] folders[i].0, path)
}

/// No folder is watched twice: no two paths are equal up to ASCII case.
pub open spec fn no_duplicates(folders: Seq<(Seq<char>, bool)>) -> bool {
    forall|i: int, j: int|
        0 <= i < j < folders.len() ==> !eq_ignore_ascii_case_spec(#[trigger] folders[i].0, #[trigger] folders[j].0)
}

proof fn lemma_eq_ignore_case_symmetric(a: Seq<char>, b: Seq<char>)
    ensures
        eq_ignore_ascii_case_spec(a, b) == eq_ignore_ascii_case_spec(b, a),
{
    if eq_ignore_ascii_case_spec(a, b) {
        assert forall|i: int| 0 <= i < b.len() implies crate::text::ascii_lower(#[trigger] b[i]) == crate::text::ascii_lower(a[i]) by {
            assert(crate::text::ascii_lower(a[i]) == crate::text::ascii_lower(b[i]));
        }
    }
    if eq_ignore_ascii_case_spec(b, a) {
        assert forall|i: int| 0 <= i < a.len() implies crate::text::ascii_lower(#[trigger] a[i]) == crate::text::ascii_lower(b[i]) by {
            assert(crate::text::ascii_lower(b[i]) == crate::text::ascii_lower(a[i]));
        }
    }
}

/// Every edit keeps the watch list free of duplicates: adding refuses a
/// folder already watched, toggling keeps the paths, removing only drops
/// one.
pub proof fn lemma_edits_keep_no_duplicates(
    before: Seq<(Seq<char>, bool)>,
    path: Seq<char>,
    index: int,
    enabled: bool,
)
    requires
        no_duplicates(before),
    ensures
        !watched(before, path) ==> no_duplicates(before.push((path, true))),
        0 <= index < before.len() ==> no_duplicates(before.update(index, (before[index].0, enabled))),
        0 <= index < before.len() ==> no_duplicates(before.remove(index)),
{
    if !watched(before, path) {
        let after = before.push((path, true));
        assert forall|i: int, j: int|
            0 <= i < j < after.len() implies !eq_ignore_ascii_case_spec(#[trigger] after[i].0, #[trigger] after[j].0) by {
            if j == before.len() {
                lemma_eq_ignore_case_symmetric(before[i].0, path);
                assert(!eq_ignore_ascii_case_spec(before[i].0, path));
            } else {
                assert(after[i] == before[i] && after[j] == before[j]);
            }
        }
    }
    if 0 <= index < before.len() {
        let u = before.update(index, (before[index].0, enabled));
        assert forall|i: int, j: int|
            0 <= i < j < u.len() implies !eq_ignore_ascii_case_spec(#[trigger] u[i].0, #[trigger] u[j].0) by {
            assert(u[i].0 == before[i].0 && u[j].0 == before[j].0);
        }
        let r = before.remove(index);
        assert forall|i: int, j: int|
            0 <= i < j < r.len() implies !eq_ignore_ascii_case_spec(#[trigger] r[i].0, #[trigger] r[j].0) by {
            let bi = if i < index { i } else { i + 1 };
            let bj = if j < index { j } else { j + 1 };
            assert(r[i] == before[bi] && r[j] == before[bj]);
        }
    }
}

/// Add a folder (its trimmed path, see [`translator_folder_path`]) to the
/// watch list, enabled; refused when it is already watched.
pub fn translator_add_folder(folders: &mut Vec<TranslatorFolder>, trimmed: &str) -> (r: Result<(), String>)
    ensures
        match r {
            Ok(()) => !watched(folders_view(old(folders)@), trimmed@) && folders_view(final(folders)@)
                == folders_view(old(folders)@).push((trimmed@, true)),
            Err(e) => watched(folders_view(old(folders)@), trimmed@) && final(folders)@ == old(folders)@
                && e@ == "This folder is already being watched"@,
        },
{
    let ghost v = folders_view(folders@);
    let mut i: usize = 0;
    while i < folders.len()
        invariant
            v == folders_view(folders@),
            i <= folders@.len(),
            forall|k: int| 0 <= k < i ==> !eq_ignore_ascii_case_spec(#[trigger] v[k].0, trimmed@),
        decreases folders@.len() - i,
    {
        if eq_ignore_ascii_case(folders[i].path.as_str(), trimmed) {
            proof {
                assert(eq_ignore_ascii_case_spec(v[i as int].0, trimmed@));
            }
            return Err("This folder is already being watched".to_owned());
        }
        i = i + 1;
    }
    folders.push(TranslatorFolder { path: trimmed.to_owned(), enabled: true });
    proof {
        assert(folders_view(folders@) =~= v.push((trimmed@, true)));
    }
    Ok(())
}

/// The error for an index past the list.
pub open spec fn no_folder_text(index: u32) -> Seq<char> {
    "No watched folder at index "@ + decimal(index as nat)
}

fn no_folder(index: u32) -> (r: String)
    ensures
        r@ == no_folder_text(index),
{
    let mut e = String::new();
    e.append("No watched folder at index ");
    push_decimal(&mut e, index as u64);
    e
}

/// Enable or disable the watched folder at `index`.
pub fn translator_set_folder_enabled(folders: &mut Vec<TranslatorFolder>, index: u32, enabled: bool) -> (r: Result<(), String>)
    ensures
        match r {
            Ok(()) => index < old(folders)@.len() && folders_view(final(folders)@) == folders_view(
                old(folders)@,
            ).update(index as int, (old(folders)@[index as int].path@, enabled)),
            Err(e) => index >= old(folders)@.len() && final(folders)@ == old(folders)@ && e@
                == no_folder_text(index),
        },
{
    let i = index as usize;
    if i >= folders.len() {
        return Err(no_folder(index));
    }
    let ghost v = folders_view(folders@);
    let path = folders[i].path.clone();
    folders.set(i, TranslatorFolder { path, enabled });
    proof {
        assert(folders_view(folders@) =~= v.update(index as int, (old(folders)@[index as int].path@, enabled)));
    }
    Ok(())
}

/// Stop watching the folder at `index`; the others keep their order.
pub fn translator_remove_folder(folders: &mut Vec<TranslatorFolder>, index: u32) -> (r: Result<(), String>)
    ensures
        match r {
            Ok(()) => index < old(folders)@.len() && folders_view(final(folders)@) == folders_view(
                old(folders)@,
            ).remove(index as int),
            Err(e) => index >= old(folders)@.len() && final(folders)@ == old(folders)@ && e@
                == no_folder_text(index),
        },
{
    let i = index as usize;
    if i >= folders.len() {
        return Err(no_folder(index));
    }
    let ghost v = folders_view(folders@);
    folders.remove(i);
    proof {
        assert(folders_view(folders@) =~= v.remove(index as int));
    }
    Ok(())
}

} // verus!
