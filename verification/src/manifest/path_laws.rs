//! Which paths are accepted, and how they are taken apart.

use vstd::prelude::*;

use crate::cpk::collect::joined;
use crate::cpk::packing_laws::law_joined_parts_are_found_again;
use crate::manifest::fields::{
    find_from, lemma_find_from, lemma_find_from_is, lemma_single_part, parts_from, parts_of,
};
use crate::manifest::inputs::path_text;
use crate::manifest::paths::{
    components_of, entry_components, leads_out, leads_up, naming, output_components,
    safe_components, slashed,
};

verus! {

/// Slashes of either slant separate the parts of a path.
pub open spec fn separates(c: char) -> bool {
    c == '/' || c == '\\'
}

/// The path has the part `path.subrange(from, end)`: separators, or the ends of the
/// path, stand on both sides of it, and none in it.
pub open spec fn is_part(path: Seq<char>, from: int, end: int) -> bool {
    &&& 0 <= from <= end <= path.len()
    &&& from == 0 || separates(path[from - 1])
    &&& end == path.len() || separates(path[end])
    &&& forall|i: int| from <= i < end ==> !separates(#[trigger] path[i])
}

/// The path begins with a letter and a colon.
pub open spec fn begins_with_drive(path: Seq<char>) -> bool {
    &&& path.len() >= 2
    &&& path[1] == ':'
    &&& 'a' <= path[0] <= 'z' || 'A' <= path[0] <= 'Z'
}

/// A part between separators is among the parts.
proof fn lemma_part_is_found(s: Seq<char>, c: char, start: int, from: int, end: int)
    requires
        0 <= start <= from <= end <= s.len(),
        start == 0 || s[start - 1] == c,
        from == 0 || s[from - 1] == c,
        end == s.len() || s[end] == c,
        forall|i: int| from <= i < end ==> #[trigger] s[i] != c,
    ensures
        parts_from(s, c, start).contains(s.subrange(from, end)),
    decreases from - start,
{
    let stop = find_from(s, c, start);
    let parts = parts_from(s, c, start);
    lemma_find_from(s, c, start);
    if start == from {
        lemma_find_from_is(s, c, from, end);
        assert(parts[0] == s.subrange(from, end));
    } else {
        assert(stop <= from - 1) by {
            if stop > from - 1 {
                assert(s[from - 1] != c);
            }
        }
        lemma_part_is_found(s, c, stop + 1, from, end);
        let rest = parts_from(s, c, stop + 1);
        let k = choose|k: int| 0 <= k < rest.len() && rest[k] == s.subrange(from, end);
        assert(parts[k + 1] == rest[k]);
    }
}

/// Each of the parts stands between separators.
proof fn lemma_found_is_part(s: Seq<char>, c: char, start: int, k: int) -> (place: (int, int))
    requires
        0 <= start <= s.len(),
        start == 0 || s[start - 1] == c,
        0 <= k < parts_from(s, c, start).len(),
    ensures
        start <= place.0 <= place.1 <= s.len(),
        place.0 == 0 || s[place.0 - 1] == c,
        place.1 == s.len() || s[place.1] == c,
        forall|i: int| place.0 <= i < place.1 ==> #[trigger] s[i] != c,
        parts_from(s, c, start)[k] == s.subrange(place.0, place.1),
    decreases s.len() - start,
{
    let stop = find_from(s, c, start);
    lemma_find_from(s, c, start);
    if k == 0 {
        (start, stop)
    } else {
        lemma_found_is_part(s, c, stop + 1, k - 1)
    }
}

/// A path is refused just where it leads out of its directory: where it begins at
/// the root, begins with a drive on a host that has drives, or has two dots for a
/// part.
pub proof fn law_paths_that_lead_out_are_refused(drives: bool, path: Seq<char>)
    ensures
        leads_out(drives, path) <==> {
            ||| path.len() > 0 && separates(path[0])
            ||| drives && begins_with_drive(path)
            ||| exists|from: int|
                #[trigger] is_part(path, from, from + 2) && path[from] == '.' && path[from + 1]
                    == '.'
        },
{
    let s = slashed(path);
    let parts = parts_of(s, '/');
    if exists|from: int|
        #[trigger] is_part(path, from, from + 2) && path[from] == '.' && path[from + 1] == '.' {
        let from = choose|from: int|
            #[trigger] is_part(path, from, from + 2) && path[from] == '.' && path[from + 1] == '.';
        assert forall|i: int| from <= i < from + 2 implies #[trigger] s[i] != '/' by {
            assert(!separates(path[i]));
        }
        lemma_part_is_found(s, '/', 0, from, from + 2);
        let k = choose|k: int| 0 <= k < parts.len() && parts[k] == s.subrange(from, from + 2);
        assert(s.subrange(from, from + 2) =~= seq!['.', '.']);
        assert(leads_up(parts[k]));
    }
    if exists|k: int| 0 <= k < parts.len() && leads_up(#[trigger] parts[k]) {
        let k = choose|k: int| 0 <= k < parts.len() && leads_up(#[trigger] parts[k]);
        let (from, end) = lemma_found_is_part(s, '/', 0, k);
        assert(s.subrange(from, end).len() == 2);
        assert(s.subrange(from, end)[0] == s[from] && s.subrange(from, end)[1] == s[from + 1]);
        assert(path[from] == '.' && path[from + 1] == '.');
        assert forall|i: int| from <= i < end implies !separates(#[trigger] path[i]) by {
            assert(s[i] != '/');
        }
        assert(is_part(path, from, from + 2));
    }
}

/// The part is the name of something: it is not empty, no dots for this directory
/// or the one above, and has no separator in it.
pub open spec fn is_name(part: Seq<char>) -> bool {
    &&& part.len() > 0
    &&& part != seq!['.']
    &&& part != seq!['.', '.']
    &&& forall|i: int| 0 <= i < part.len() ==> !separates(#[trigger] part[i])
}

proof fn lemma_naming_all(parts: Seq<Seq<char>>, count: nat)
    requires
        count <= parts.len(),
        forall|i: int| 0 <= i < parts.len() ==> is_name(#[trigger] parts[i]),
    ensures
        naming(parts, count) == parts.take(count as int),
    decreases count,
{
    if count == 0 {
        assert(parts.take(0) =~= Seq::empty());
    } else {
        lemma_naming_all(parts, (count - 1) as nat);
        assert(is_name(parts[count - 1]));
        assert(parts.take(count - 1).push(parts[count - 1]) =~= parts.take(count as int));
    }
}

proof fn lemma_joined_lacks_backslashes(parts: Seq<Option<Seq<char>>>, count: nat)
    requires
        count <= parts.len(),
        forall|i: int| 0 <= i < count ==> (#[trigger] parts[i]) is Some,
        forall|i: int, k: int|
            0 <= i < count && 0 <= k < parts[i]->Some_0.len() ==> #[trigger] parts[i]->Some_0[k]
                != '\\',
    ensures
        forall|k: int|
            0 <= k < joined(parts, count).len() ==> (
            #[trigger] joined(parts, count)[k]) != '\\',
    decreases count,
{
    if count > 0 {
        lemma_joined_lacks_backslashes(parts, (count - 1) as nat);
        let last = parts[count - 1]->Some_0;
        let before = joined(parts, (count - 1) as nat);
        let s = joined(parts, count);
        assert(parts[count - 1] is Some);
        assert forall|k: int| 0 <= k < s.len() implies (#[trigger] s[k]) != '\\' by {
            if count == 1 {
                assert(s[k] == parts[count - 1]->Some_0[k]);
            } else if k < before.len() {
                assert(s[k] == before[k]);
            } else if k > before.len() {
                assert(s[k] == parts[count - 1]->Some_0[k - before.len() - 1]);
            }
        }
    }
}

/// A path of names is taken apart into its names.
proof fn lemma_path_of_names(names: Seq<Seq<char>>)
    requires
        names.len() > 0,
        forall|i: int| 0 <= i < names.len() ==> is_name(#[trigger] names[i]),
    ensures
        components_of(path_text(names)) == names,
        parts_of(slashed(path_text(names)), '/') == names,
{
    let parts = Seq::new(names.len(), |i: int| Some(names[i]));
    let path = path_text(names);
    assert forall|i: int, k: int|
        0 <= i < names.len() && 0 <= k < parts[i]->Some_0.len() implies #[trigger] parts[i]->Some_0[k]
        != '/' && parts[i]->Some_0[k] != '\\' by {
        assert(is_name(names[i]));
        assert(!separates(names[i][k]));
    }
    law_joined_parts_are_found_again(parts, names.len());
    lemma_joined_lacks_backslashes(parts, names.len());
    assert(slashed(path) =~= path);
    assert(Seq::new(names.len(), |i: int| parts[i]->Some_0) =~= names);
    lemma_naming_all(names, names.len());
    assert(names.take(names.len() as int) =~= names);
}

/// A file is unpacked to, and looked for at, the names of its directory and its
/// own name, one below the other; only a drive in front is refused.
pub proof fn law_clean_paths_keep_their_names(
    drives: bool,
    directories: Seq<Seq<char>>,
    name: Seq<char>,
)
    requires
        is_name(name),
        forall|i: int| 0 <= i < directories.len() ==> is_name(#[trigger] directories[i]),
        !(drives && begins_with_drive(name)),
        directories.len() > 0 ==> !(drives && begins_with_drive(path_text(directories))),
    ensures
        output_components(drives, path_text(directories), name) == Ok::<
            Seq<Seq<char>>,
            Seq<char>,
        >(directories.push(name)),
        entry_components(drives, path_text(directories), name) == Ok::<Seq<Seq<char>>, Seq<char>>(
            directories.push(name),
        ),
{
    let path = path_text(directories);
    lemma_single(name);
    lemma_stays(drives, seq![name]);
    assert(path_text(seq![name]) == name) by {
        reveal_with_fuel(joined, 2);
    }
    if directories.len() > 0 {
        lemma_path_of_names(directories);
        lemma_stays(drives, directories);
    } else {
        assert(path =~= Seq::empty());
        assert(slashed(path) =~= path);
        lemma_single_part(path, '/');
        assert(naming(seq![path], 1) =~= Seq::empty()) by {
            reveal_with_fuel(naming, 2);
        }
        law_paths_that_lead_out_are_refused(drives, path);
        assert(components_of(path) =~= directories);
    }
    assert(components_of(path) + components_of(name) =~= directories.push(name));
    assert(safe_components(drives, path, name) == Some(directories.push(name)));
}

proof fn lemma_single(name: Seq<char>)
    requires
        is_name(name),
    ensures
        components_of(name) == seq![name],
{
    assert(seq![name][0] == name);
    lemma_path_of_names(seq![name]);
    assert(path_text(seq![name]) == name) by {
        reveal_with_fuel(joined, 2);
    }
}

/// A path of names that does not begin with a drive is accepted.
proof fn lemma_stays(drives: bool, names: Seq<Seq<char>>)
    requires
        names.len() > 0,
        forall|i: int| 0 <= i < names.len() ==> is_name(#[trigger] names[i]),
        !(drives && begins_with_drive(path_text(names))),
    ensures
        !leads_out(drives, path_text(names)),
{
    let path = path_text(names);
    let s = slashed(path);
    lemma_path_of_names(names);
    assert forall|k: int| 0 <= k < names.len() implies !leads_up(#[trigger] names[k]) by {
        assert(is_name(names[k]));
    }
    if path.len() > 0 && s[0] == '/' {
        lemma_part_is_found(s, '/', 0, 0, 0);
        let k = choose|k: int| 0 <= k < names.len() && names[k] == s.subrange(0, 0);
        assert(is_name(names[k]));
    }
}

/// What stands between slashes is taken together: the components of a path behind a
/// slash follow those in front of it, empty parts and single dots are passed over,
/// and slashes of either slant count alike.
pub proof fn law_components_follow_each_other(a: Seq<char>, b: Seq<char>, part: Seq<char>)
    requires
        forall|i: int| 0 <= i < part.len() ==> !separates(#[trigger] part[i]),
    ensures
        components_of(a + seq!['/'] + b) == components_of(a) + components_of(b),
        components_of(a + seq!['\\'] + b) == components_of(a) + components_of(b),
        part.len() == 0 || part == seq!['.'] ==> components_of(part).len() == 0,
        part.len() > 0 && part != seq!['.'] ==> components_of(part) == seq![part],
{
    let x = a + seq!['/'] + b;
    let y = a + seq!['\\'] + b;
    let s = slashed(a) + seq!['/'] + slashed(b);
    assert(slashed(x) =~= s);
    assert(slashed(y) =~= s);
    let (p, q) = (parts_of(slashed(a), '/'), parts_of(slashed(b), '/'));
    lemma_parts_concat(slashed(a), '/', slashed(b), 0);
    lemma_naming_concat(p, q, q.len());
    assert(slashed(part) =~= part) by {
        assert forall|i: int| 0 <= i < part.len() implies slashed(part)[i] == part[i] by {
            assert(!separates(part[i]));
        }
    }
    assert forall|i: int| 0 <= i < part.len() implies #[trigger] part[i] != '/' by {
        assert(!separates(part[i]));
    }
    lemma_single_part(part, '/');
    reveal_with_fuel(naming, 2);
    assert(seq![part][0] == part);
    if part.len() > 0 && part != seq!['.'] {
        assert(naming(seq![part], 1) =~= seq![part]);
    }
}

proof fn lemma_parts_behind(a: Seq<char>, c: char, b: Seq<char>, k: int)
    requires
        0 <= k <= b.len(),
    ensures
        parts_from(a + seq![c] + b, c, a.len() + 1 + k) == parts_from(b, c, k),
    decreases b.len() - k,
{
    let t = a + seq![c] + b;
    let n = a.len() + 1;
    let end = find_from(b, c, k);
    lemma_find_from(b, c, k);
    assert forall|i: int| n + k <= i < n + end implies #[trigger] t[i] != c by {
        assert(t[i] == b[i - n]);
    }
    lemma_find_from_is(t, c, n + k, n + end);
    assert(t.subrange(n + k, n + end) =~= b.subrange(k, end));
    if end < b.len() {
        lemma_parts_behind(a, c, b, end + 1);
    }
}

proof fn lemma_parts_concat(a: Seq<char>, c: char, b: Seq<char>, from: int)
    requires
        0 <= from <= a.len(),
    ensures
        parts_from(a + seq![c] + b, c, from) == parts_from(a, c, from) + parts_from(b, c, 0),
    decreases a.len() - from,
{
    let t = a + seq![c] + b;
    let end = find_from(a, c, from);
    lemma_find_from(a, c, from);
    assert forall|i: int| from <= i < end implies #[trigger] t[i] != c by {
        assert(t[i] == a[i]);
    }
    lemma_find_from_is(t, c, from, end);
    assert(t.subrange(from, end) =~= a.subrange(from, end));
    assert(parts_from(t, c, from) == seq![t.subrange(from, end)] + parts_from(t, c, end + 1));
    if end < a.len() {
        lemma_parts_concat(a, c, b, end + 1);
        assert(seq![a.subrange(from, end)] + (parts_from(a, c, end + 1) + parts_from(b, c, 0))
            =~= seq![a.subrange(from, end)] + parts_from(a, c, end + 1) + parts_from(b, c, 0));
    } else {
        lemma_parts_behind(a, c, b, 0);
    }
}

proof fn lemma_naming_concat(p: Seq<Seq<char>>, q: Seq<Seq<char>>, count: nat)
    requires
        count <= q.len(),
    ensures
        naming(p + q, p.len() + count) == naming(p, p.len()) + naming(q, count),
    decreases count,
{
    if count == 0 {
        lemma_naming_front(p, q, p.len());
        assert(naming(p, p.len()) + naming(q, 0) =~= naming(p, p.len()));
    } else {
        lemma_naming_concat(p, q, (count - 1) as nat);
        assert((p + q)[p.len() + count - 1] == q[count - 1]);
        assert(naming(p + q, p.len() + count) =~= naming(p, p.len()) + naming(q, count));
    }
}

proof fn lemma_naming_front(p: Seq<Seq<char>>, q: Seq<Seq<char>>, count: nat)
    requires
        count <= p.len(),
    ensures
        naming(p + q, count) == naming(p, count),
    decreases count,
{
    if count > 0 {
        lemma_naming_front(p, q, (count - 1) as nat);
        assert((p + q)[count - 1] == p[count - 1]);
    }
}

} // verus!
