//! Paths that archives and manifests give.

use vstd::prelude::*;
use vstd::string::*;

use crate::manifest::fields::{
    find_from, lemma_find_from, lemma_parts_lack, parts_from, parts_of, split_on, texts,
};
use crate::manifest::model::ManifestError;
use crate::utils::text::to_chars;

verus! {

/// The text with slashes in place of backslashes.
pub open spec fn slashed(s: Seq<char>) -> Seq<char> {
    Seq::new(
        s.len(),
        |i: int|
            if s[i] == '\\' {
                '/'
            } else {
                s[i]
            },
    )
}

/// A part that leads up.
pub open spec fn leads_up(part: Seq<char>) -> bool {
    part == seq!['.', '.']
}

/// A part that names something: not empty, and not the directory itself.
pub open spec fn names_something(part: Seq<char>) -> bool {
    part.len() > 0 && part != seq!['.']
}

/// The path begins with a drive, on a host that has such.
pub open spec fn on_drive(drives: bool, path: Seq<char>) -> bool {
    &&& drives
    &&& path.len() >= 2
    &&& path[1] == ':'
    &&& 'a' <= path[0] <= 'z' || 'A' <= path[0] <= 'Z'
}

/// The path leads out of the directory it is taken in: it begins at the root or
/// with a drive, or leads up somewhere. `drives` tells whether the host takes a
/// letter and a colon at the front of a path for a drive.
pub open spec fn leads_out(drives: bool, path: Seq<char>) -> bool {
    ||| path.len() > 0 && slashed(path)[0] == '/'
    ||| on_drive(drives, path)
    ||| exists|i: int|
        0 <= i < parts_of(slashed(path), '/').len() && leads_up(
            #[trigger] parts_of(slashed(path), '/')[i],
        )
}

/// The first `count` parts that name something.
pub open spec fn naming(parts: Seq<Seq<char>>, count: nat) -> Seq<Seq<char>>
    decreases count,
{
    if count == 0 {
        Seq::empty()
    } else {
        let before = naming(parts, (count - 1) as nat);
        if names_something(parts[count - 1]) {
            before.push(parts[count - 1])
        } else {
            before
        }
    }
}

/// The components of a path.
pub open spec fn components_of(path: Seq<char>) -> Seq<Seq<char>> {
    let parts = parts_of(slashed(path), '/');
    naming(parts, parts.len())
}

/// The components of a file's path; `None` where it leads out of the directory
/// it is taken in.
pub open spec fn safe_components(drives: bool, directory: Seq<char>, file_name: Seq<char>) -> Option<
    Seq<Seq<char>>,
> {
    if leads_out(drives, directory) || leads_out(drives, file_name) {
        None
    } else {
        Some(components_of(directory) + components_of(file_name))
    }
}

/// A component that stays in its directory: it names something, does not lead
/// up, and is a single one.
pub open spec fn stays_inside(component: Seq<char>) -> bool {
    &&& names_something(component)
    &&& !leads_up(component)
    &&& forall|i: int|
        0 <= i < component.len() ==> #[trigger] component[i] != '/' && component[i] != '\\'
}

proof fn lemma_naming(parts: Seq<Seq<char>>, count: nat, k: int) -> (i: int)
    requires
        count <= parts.len(),
        0 <= k < naming(parts, count).len(),
    ensures
        0 <= i < count,
        naming(parts, count)[k] == parts[i],
        names_something(parts[i]),
    decreases count,
{
    let before = naming(parts, (count - 1) as nat);
    if k < before.len() {
        lemma_naming(parts, (count - 1) as nat, k)
    } else {
        count - 1
    }
}

proof fn lemma_component_inside(drives: bool, path: Seq<char>, k: int)
    requires
        !leads_out(drives, path),
        0 <= k < components_of(path).len(),
    ensures
        stays_inside(components_of(path)[k]),
{
    let s = slashed(path);
    let parts = parts_of(s, '/');
    let i = lemma_naming(parts, parts.len(), k);
    lemma_parts_lack(s, '/', 0, i);
    lemma_parts_lack_other(s, '/', 0, i, '\\');
    assert(!leads_up(parts[i]));
}

/// A character that stands nowhere in a text stands in none of its parts.
proof fn lemma_parts_lack_other(s: Seq<char>, c: char, from: int, i: int, other: char)
    requires
        0 <= from <= s.len(),
        0 <= i < parts_from(s, c, from).len(),
        forall|k: int| 0 <= k < s.len() ==> #[trigger] s[k] != other,
    ensures
        forall|k: int|
            0 <= k < parts_from(s, c, from)[i].len() ==> (
            #[trigger] parts_from(s, c, from)[i][k]) != other,
    decreases s.len() - from,
{
    let end = find_from(s, c, from);
    lemma_find_from(s, c, from);
    if end < s.len() && i > 0 {
        lemma_parts_lack_other(s, c, end + 1, i - 1, other);
    }
}

/// The path of a file, as far as it is accepted, stays inside the directory it
/// is taken in: no component leads up, and none is a path of its own.
pub proof fn law_safe_components_stay_inside(drives: bool, directory: Seq<char>, file_name: Seq<char>, k: int)
    requires
        safe_components(drives, directory, file_name) is Some,
        0 <= k < safe_components(drives, directory, file_name)->Some_0.len(),
    ensures
        stays_inside(safe_components(drives, directory, file_name)->Some_0[k]),
{
    let front = components_of(directory);
    if k < front.len() {
        lemma_component_inside(drives, directory, k);
    } else {
        lemma_component_inside(drives, file_name, k - front.len());
    }
}

/// The texts of a list.
pub open spec fn strings_view(list: Seq<String>) -> Seq<Seq<char>> {
    Seq::new(list.len(), |i: int| list[i]@)
}

fn to_string(chars: &Vec<char>) -> (text: String)
    ensures
        text@ == chars@,
{
    let mut text = String::new();
    let mut i: usize = 0;
    assert(text@ =~= chars@.take(0));
    while i < chars.len()
        invariant
            i <= chars@.len(),
            text@ == chars@.take(i as int),
        decreases chars@.len() - i,
    {
        text.push(chars[i]);
        i = i + 1;
        assert(text@ =~= chars@.take(i as int));
    }
    assert(chars@.take(chars@.len() as int) =~= chars@);
    text
}

/// Appends the components of a path to `out`; tells whether the path stays
/// inside the directory it is taken in.
fn push_components(drives: bool, path: &str, out: &mut Vec<String>) -> (safe: bool)
    ensures
        safe == !leads_out(drives, path@),
        safe ==> strings_view(final(out)@) == strings_view(old(out)@) + components_of(path@),
{
    let mut chars = to_chars(path);
    let ghost given = chars@;
    let mut i: usize = 0;
    while i < chars.len()
        invariant
            i <= given.len(),
            chars@.len() == given.len(),
            forall|k: int| 0 <= k < i ==> #[trigger] chars@[k] == slashed(given)[k],
            forall|k: int| i <= k < given.len() ==> #[trigger] chars@[k] == given[k],
        decreases given.len() - i,
    {
        if chars[i] == '\\' {
            chars.set(i, '/');
        }
        i = i + 1;
    }
    assert(chars@ =~= slashed(path@));
    if chars.len() > 0 && chars[0] == '/' {
        return false;
    }
    if drives && chars.len() >= 2 && chars[1] == ':' {
        let letter: char = chars[0];
        if ('a' <= letter && letter <= 'z') || ('A' <= letter && letter <= 'Z') {
            assert(on_drive(drives, path@));
            return false;
        }
    }
    assert(!on_drive(drives, path@));
    let parts = split_on(&chars, '/');
    let ghost all = parts_of(slashed(path@), '/');
    assert(texts(parts@) == all);
    let ghost before = strings_view(out@);
    let mut i: usize = 0;
    assert(strings_view(out@) =~= before + naming(all, 0));
    while i < parts.len()
        invariant
            i <= parts@.len(),
            texts(parts@) == all,
            all == parts_of(slashed(path@), '/'),
            forall|k: int| 0 <= k < i ==> !leads_up(#[trigger] all[k]),
            strings_view(out@) == before + naming(all, i as nat),
        decreases parts@.len() - i,
    {
        let part: &Vec<char> = &parts[i];
        assert(all[i as int] == part@);
        if part.len() == 2 && part[0] == '.' && part[1] == '.' {
            assert(part@ =~= seq!['.', '.']);
            assert(leads_up(all[i as int]));
            return false;
        }
        let ghost so_far = out@;
        if part.len() > 0 && !(part.len() == 1 && part[0] == '.') {
            assert(names_something(part@));
            let text = to_string(part);
            out.push(text);
            assert(strings_view(out@) =~= strings_view(so_far).push(part@));
        } else {
            assert(part@.len() == 1 ==> part@ =~= seq!['.']);
            assert(!names_something(part@));
        }
        i = i + 1;
        assert(strings_view(out@) =~= before + naming(all, i as nat));
    }
    true
}

/// The components of a file's path; `None` where it leads out of the directory
/// it is taken in.
pub fn safe_path(drives: bool, directory: &str, file_name: &str) -> (components: Option<Vec<String>>)
    ensures
        match components {
            Some(v) => safe_components(drives, directory@, file_name@) == Some(strings_view(v@)),
            None => safe_components(drives, directory@, file_name@) is None,
        },
{
    let mut components: Vec<String> = Vec::new();
    assert(strings_view(components@) =~= Seq::empty());
    if !push_components(drives, directory, &mut components) {
        return None;
    }
    if !push_components(drives, file_name, &mut components) {
        return None;
    }
    assert(strings_view(components@) =~= components_of(directory@) + components_of(file_name@));
    Some(components)
}

/// The path of a manifest entry.
pub open spec fn entry_components(drives: bool, directory: Seq<char>, file_name: Seq<char>) -> Result<
    Seq<Seq<char>>,
    Seq<char>,
> {
    match safe_components(drives, directory, file_name) {
        None => Err("unsafe path in CPK manifest: "@ + directory + "/"@ + file_name),
        Some(components) => if components.len() == 0 {
            Err("empty path in CPK manifest"@)
        } else {
            Ok(components)
        },
    }
}

/// The path of a manifest entry, below the unpacked directory.
pub fn safe_relative_path(drives: bool, directory: &str, file_name: &str) -> (r: Result<
    Vec<String>,
    ManifestError,
>)
    ensures
        match entry_components(drives, directory@, file_name@) {
            Ok(components) => r matches Ok(v) && strings_view(v@) == components,
            Err(e) => r matches Err(f) && f@ == e,
        },
{
    match safe_path(drives, directory, file_name) {
        None => {
            let mut message = "unsafe path in CPK manifest: ".to_owned();
            message.append(directory);
            message.append("/");
            message.append(file_name);
            Err(ManifestError { message })
        },
        Some(components) => if components.len() == 0 {
            Err(ManifestError { message: "empty path in CPK manifest".to_owned() })
        } else {
            Ok(components)
        },
    }
}

/// The path that an archive entry is unpacked to, below the output directory.
pub open spec fn output_components(drives: bool, directory: Seq<char>, file_name: Seq<char>) -> Result<
    Seq<Seq<char>>,
    Seq<char>,
> {
    match safe_components(drives, directory, file_name) {
        None => Err("unsafe path in CPK: "@ + directory + "/"@ + file_name),
        Some(components) => Ok(components),
    }
}

/// The path that an archive entry is unpacked to, below the output directory.
pub fn safe_output_path(drives: bool, directory: &str, file_name: &str) -> (r: Result<
    Vec<String>,
    ManifestError,
>)
    ensures
        match output_components(drives, directory@, file_name@) {
            Ok(components) => r matches Ok(v) && strings_view(v@) == components,
            Err(e) => r matches Err(f) && f@ == e,
        },
{
    match safe_path(drives, directory, file_name) {
        None => {
            let mut message = "unsafe path in CPK: ".to_owned();
            message.append(directory);
            message.append("/");
            message.append(file_name);
            Err(ManifestError { message })
        },
        Some(components) => Ok(components),
    }
}

} // verus!
