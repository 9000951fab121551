//! Turns a manifest and the unpacked directory into files to pack.

use std::collections::HashSet;

use vstd::hash_map::StringHashMap;
use vstd::prelude::*;
use vstd::string::*;

use crate::cpk::collect::{all_text, found_view, joined, path_to_cri_string, FoundFile, FoundView};
use crate::cpk::input::{inputs_view, CpkInputFile, CpkRawPayload, InputView, RawView};
use crate::manifest::model::{EntryView, Manifest, ManifestEntry, ManifestError, ManifestView};
use crate::manifest::paths::{entry_components, safe_relative_path, strings_view};
use crate::utils::sort::{as_ints, is_order, order_of, ranks, stable_order, SortKey};
use crate::utils::text::utf8_text;

verus! {

broadcast use vstd::std_specs::hash::group_hash_axioms;

/// An unpacked file as it is now.
#[derive(Debug)]
pub struct FileState {
    /// The file's path, for messages and for reading it.
    pub path: String,
    pub size: u64,
    pub hash: u64,
}

/// [`FileState`] with its path as a character sequence.
pub struct StateView {
    pub path: Seq<char>,
    pub size: u64,
    pub hash: u64,
}

impl View for FileState {
    type V = StateView;

    open spec fn view(&self) -> StateView {
        StateView { path: self.path@, size: self.size, hash: self.hash }
    }
}

/// A list of states; `None` where there is no such file any more.
pub open spec fn states_view(states: Seq<Option<FileState>>) -> Seq<Option<StateView>> {
    Seq::new(
        states.len(),
        |i: int|
            match states[i] {
                Some(state) => Some(state@),
                None => None,
            },
    )
}

/// The components with slashes between them.
pub open spec fn path_text(components: Seq<Seq<char>>) -> Seq<char> {
    joined(Seq::new(components.len(), |i: int| Some(components[i])), components.len())
}

/// The packed bytes to reuse for an entry: those of the source archive, if that
/// is asked for and the file is unchanged.
pub open spec fn reused(m: ManifestView, e: EntryView, state: StateView, reuse: bool) -> Option<
    RawView,
> {
    if reuse && state.size == e.extracted_size && state.hash == e.extracted_hash {
        Some(
            RawView {
                archive_path: m.source_archive,
                absolute_offset: e.packed_offset,
                size: e.packed_size,
            },
        )
    } else {
        None
    }
}

/// The file to pack for an entry.
pub open spec fn entry_input(m: ManifestView, e: EntryView, state: StateView, reuse: bool) -> Result<
    InputView,
    Seq<char>,
> {
    if state.size > u32::MAX {
        Err(state.path + " is too large for CPK"@)
    } else {
        let raw = reused(m, e, state, reuse);
        Ok(
            InputView {
                directory: e.directory,
                file_name: e.file_name,
                source_path: state.path,
                size: match raw {
                    Some(r) => r.size,
                    None => state.size as u32,
                },
                extract_size: state.size as u32,
                id: e.id,
                user_string: e.user_string,
                raw_payload: raw,
            },
        )
    }
}

/// The files to pack for the first `count` entries. Entries without a file are
/// passed over; their paths must be safe all the same.
pub open spec fn present_inputs(
    drives: bool,
    m: ManifestView,
    states: Seq<Option<StateView>>,
    reuse: bool,
    count: nat,
) -> Result<Seq<InputView>, Seq<char>>
    decreases count,
{
    if count == 0 {
        Ok(Seq::empty())
    } else {
        match present_inputs(drives, m, states, reuse, (count - 1) as nat) {
            Err(e) => Err(e),
            Ok(inputs) => {
                let entry = m.entries[count - 1];
                match entry_components(drives, entry.directory, entry.file_name) {
                    Err(e) => Err(e),
                    Ok(_) => match states[count - 1] {
                        None => Ok(inputs),
                        Some(state) => match entry_input(m, entry, state, reuse) {
                            Err(e) => Err(e),
                            Ok(input) => Ok(inputs.push(input)),
                        },
                    },
                }
            },
        }
    }
}

/// The file at this path belongs to an entry of the manifest.
pub open spec fn is_known(drives: bool, m: ManifestView, path: Seq<char>) -> bool {
    exists|i: int|
        0 <= i < m.entries.len() && entry_path(drives, #[trigger] m.entries[i]) == path
}

/// The path of an entry.
pub open spec fn entry_path(drives: bool, e: EntryView) -> Seq<char> {
    path_text(entry_components(drives, e.directory, e.file_name)->Ok_0)
}

/// The file is new: it is to be packed and belongs to no entry.
pub open spec fn is_new(drives: bool, m: ManifestView, file: FoundView) -> bool {
    let n = file.components.len();
    !file.left_out && !(all_text(file.components, n) && is_known(drives, m, joined(file.components, n)))
}

/// The positions of the new files among the first `count` of the listing.
pub open spec fn new_positions(drives: bool, m: ManifestView, found: Seq<FoundView>, count: nat) -> Seq<int>
    decreases count,
{
    if count == 0 {
        Seq::empty()
    } else {
        let before = new_positions(drives, m, found, (count - 1) as nat);
        if is_new(drives, m, found[count - 1]) {
            before.push(count - 1)
        } else {
            before
        }
    }
}

/// The sort key of the first `count` parts of a path: the bytes of each part,
/// and an end that comes before every byte.
pub open spec fn parts_rank(parts: Seq<Seq<u8>>, count: nat) -> Seq<int>
    decreases count,
{
    if count == 0 {
        Seq::empty()
    } else {
        let part = parts[count - 1];
        parts_rank(parts, (count - 1) as nat) + Seq::new(part.len(), |i: int| part[i] + 1) + seq![
            0int,
        ]
    }
}

/// The sort keys of the files at these positions.
pub open spec fn position_ranks(found: Seq<FoundView>, positions: Seq<int>) -> Seq<Seq<int>> {
    Seq::new(
        positions.len(),
        |k: int| parts_rank(found[positions[k]].parts, found[positions[k]].parts.len()),
    )
}

/// The positions of the new files in the listing, sorted by path.
pub open spec fn new_order(drives: bool, m: ManifestView, found: Seq<FoundView>) -> Seq<int> {
    let positions = new_positions(drives, m, found, found.len());
    let order = order_of(position_ranks(found, positions));
    Seq::new(positions.len(), |k: int| positions[order[k]])
}

/// An ID of the files to pack.
pub open spec fn id_used(inputs: Seq<InputView>, id: u32) -> bool {
    exists|i: int| 0 <= i < inputs.len() && (#[trigger] inputs[i]).id == id
}

/// The first ID from `from` on that no file has; behind the 16-bit IDs where
/// there is none.
pub open spec fn next_free(inputs: Seq<InputView>, from: int) -> int
    decreases 0x1_0000 - from,
{
    if from < 0 || from > u16::MAX {
        0x1_0000
    } else if id_used(inputs, from as u32) {
        next_free(inputs, from + 1)
    } else {
        from
    }
}

/// The `k`-th 16-bit ID that no file has; behind the 16-bit IDs where there is
/// none.
pub open spec fn free_id(inputs: Seq<InputView>, k: nat) -> int
    decreases k,
{
    if k == 0 {
        next_free(inputs, 0)
    } else {
        next_free(inputs, free_id(inputs, (k - 1) as nat) + 1)
    }
}

/// The largest ID of the first `count` files.
pub open spec fn largest_id(inputs: Seq<InputView>, count: nat) -> int
    decreases count,
{
    if count == 0 {
        0
    } else {
        let before = largest_id(inputs, (count - 1) as nat);
        if inputs[count - 1].id > before {
            inputs[count - 1].id as int
        } else {
            before
        }
    }
}

/// The ID of the first new file of an archive without an index by ID.
pub open spec fn first_new_id(inputs: Seq<InputView>) -> int {
    if inputs.len() == 0 {
        0
    } else {
        largest_id(inputs, inputs.len()) + 1
    }
}

/// The ID of the `k`-th new file.
pub open spec fn new_id(m: ManifestView, inputs: Seq<InputView>, k: nat) -> Result<u32, Seq<char>> {
    if m.has_itoc {
        if free_id(inputs, k) > u16::MAX {
            Err("ITOC has no free 16-bit IDs"@)
        } else {
            Ok(free_id(inputs, k) as u32)
        }
    } else if first_new_id(inputs) + k > u32::MAX {
        Err("no free CPK IDs"@)
    } else {
        Ok((first_new_id(inputs) + k) as u32)
    }
}

/// A new file to pack.
pub open spec fn new_input(file: FoundView, id: u32) -> Result<InputView, Seq<char>> {
    if file.size > u32::MAX {
        Err(file.path + " is too large for CPK"@)
    } else if file.components.last() is None {
        Err("non-UTF-8 path: "@ + file.relative)
    } else if !all_text(file.components, (file.components.len() - 1) as nat) {
        Err("non-UTF-8 path: "@ + file.parent)
    } else {
        Ok(file.input(id))
    }
}

/// The first `count` new files to pack.
pub open spec fn new_inputs(
    drives: bool,
    m: ManifestView,
    inputs: Seq<InputView>,
    found: Seq<FoundView>,
    count: nat,
) -> Result<Seq<InputView>, Seq<char>>
    decreases count,
{
    if count == 0 {
        Ok(Seq::empty())
    } else {
        match new_inputs(drives, m, inputs, found, (count - 1) as nat) {
            Err(e) => Err(e),
            Ok(files) => match new_id(m, inputs, (count - 1) as nat) {
                Err(e) => Err(e),
                Ok(id) => match new_input(found[new_order(drives, m, found)[count - 1]], id) {
                    Err(e) => Err(e),
                    Ok(file) => Ok(files.push(file)),
                },
            },
        }
    }
}

/// The files to pack: those of the entries, and behind them the new ones.
pub open spec fn all_inputs(
    drives: bool,
    m: ManifestView,
    states: Seq<Option<StateView>>,
    found: Seq<FoundView>,
    reuse: bool,
    source_found: Option<(u64, u64)>,
) -> Result<Seq<InputView>, Seq<char>> {
    if reuse && source_found != Some((m.archive_size, m.archive_hash)) {
        Err("--reuse-raw-entries requires the original source CPK to exist unchanged"@)
    } else {
        match present_inputs(drives, m, states, reuse, m.entries.len()) {
            Err(e) => Err(e),
            Ok(inputs) => if !m.has_itoc && first_new_id(inputs) > u32::MAX {
                Err("no free CPK IDs"@)
            } else {
                match new_inputs(drives, m, inputs, found, new_order(drives, m, found).len()) {
                    Err(e) => Err(e),
                    Ok(files) => Ok(inputs + files),
                }
            },
        }
    }
}

/// The `k`-th new file of an archive with an index by ID gets an ID that no
/// other file has.
pub proof fn law_new_itoc_ids_are_fresh(
    m: ManifestView,
    inputs: Seq<InputView>,
    j: nat,
    k: nat,
)
    requires
        m.has_itoc,
        j < k,
        new_id(m, inputs, k) is Ok,
    ensures
        new_id(m, inputs, k)->Ok_0 <= u16::MAX,
        !id_used(inputs, new_id(m, inputs, k)->Ok_0),
        new_id(m, inputs, j) matches Ok(id) && id < new_id(m, inputs, k)->Ok_0,
    decreases k,
{
    lemma_free_id(inputs, k);
    lemma_free_id(inputs, (k - 1) as nat);
    if j + 1 < k {
        law_new_itoc_ids_are_fresh(m, inputs, j, (k - 1) as nat);
    }
}

proof fn lemma_next_free(inputs: Seq<InputView>, from: int)
    requires
        0 <= from <= 0x1_0000,
    ensures
        from <= next_free(inputs, from) <= 0x1_0000,
        next_free(inputs, from) <= u16::MAX ==> !id_used(
            inputs,
            next_free(inputs, from) as u32,
        ),
    decreases 0x1_0000 - from,
{
    if from <= u16::MAX && id_used(inputs, from as u32) {
        lemma_next_free(inputs, from + 1);
    }
}

/// A free ID is one that no file has, and later ones are larger.
pub proof fn lemma_free_id(inputs: Seq<InputView>, k: nat)
    ensures
        0 <= free_id(inputs, k) <= 0x1_0000,
        free_id(inputs, k) <= u16::MAX ==> !id_used(inputs, free_id(inputs, k) as u32),
        k > 0 && free_id(inputs, k) <= u16::MAX ==> free_id(inputs, (k - 1) as nat) < free_id(
            inputs,
            k,
        ),
    decreases k,
{
    if k == 0 {
        lemma_next_free(inputs, 0);
    } else {
        lemma_free_id(inputs, (k - 1) as nat);
        let before = free_id(inputs, (k - 1) as nat);
        if before <= u16::MAX {
            lemma_next_free(inputs, before + 1);
        }
    }
}

/// No ID is larger than the largest.
pub proof fn lemma_largest_id(inputs: Seq<InputView>, count: nat, i: int)
    requires
        0 <= i < count <= inputs.len(),
    ensures
        inputs[i].id <= largest_id(inputs, count),
    decreases count,
{
    if i < count - 1 {
        lemma_largest_id(inputs, (count - 1) as nat, i);
    }
}

/// The `k`-th new file of an archive without an index by ID gets an ID behind
/// all others.
pub proof fn law_new_toc_ids_are_fresh(
    m: ManifestView,
    inputs: Seq<InputView>,
    j: nat,
    k: nat,
)
    requires
        !m.has_itoc,
        j < k,
        new_id(m, inputs, k) is Ok,
    ensures
        !id_used(inputs, new_id(m, inputs, k)->Ok_0),
        new_id(m, inputs, j) matches Ok(id) && id < new_id(m, inputs, k)->Ok_0,
{
    let id = new_id(m, inputs, k)->Ok_0;
    if id_used(inputs, id) {
        let i = choose|i: int| 0 <= i < inputs.len() && (#[trigger] inputs[i]).id == id;
        lemma_largest_id(inputs, inputs.len(), i);
    }
}

fn too_large(path: &str) -> (e: ManifestError)
    ensures
        e@ == path@ + " is too large for CPK"@,
{
    let mut message = path.to_owned();
    message.append(" is too large for CPK");
    ManifestError { message }
}

fn not_text(path: &str) -> (e: ManifestError)
    ensures
        e@ == "non-UTF-8 path: "@ + path@,
{
    let mut message = "non-UTF-8 path: ".to_owned();
    message.append(path);
    ManifestError { message }
}

/// The components with slashes between them.
fn join_components(components: &Vec<String>) -> (text: String)
    ensures
        text@ == path_text(strings_view(components@)),
{
    let ghost list = strings_view(components@);
    let ghost parts = Seq::new(list.len(), |i: int| Some(list[i]));
    let mut text = String::new();
    let mut i: usize = 0;
    proof {
        reveal_strlit("/");
        assert("/"@ =~= seq!['/']);
        assert(text@ =~= joined(parts, 0));
    }
    while i < components.len()
        invariant
            i <= components@.len(),
            list == strings_view(components@),
            parts == Seq::new(list.len(), |j: int| Some(list[j])),
            "/"@ == seq!['/'],
            text@ == joined(parts, i as nat),
        decreases components@.len() - i,
    {
        if i > 0 {
            text.append("/");
        }
        text.append(components[i].as_str());
        assert(parts[i as int] == Some(components@[i as int]@));
        i = i + 1;
        assert(text@ =~= joined(parts, i as nat));
    }
    text
}

proof fn lemma_present_error(
    drives: bool,
    m: ManifestView,
    states: Seq<Option<StateView>>,
    reuse: bool,
    few: nat,
    many: nat,
)
    requires
        few <= many,
        present_inputs(drives, m, states, reuse, few) is Err,
    ensures
        present_inputs(drives, m, states, reuse, many) == present_inputs(drives, m, states, reuse, few),
    decreases many,
{
    if few < many {
        lemma_present_error(drives, m, states, reuse, few, (many - 1) as nat);
    }
}

proof fn lemma_new_error(
    drives: bool,
    m: ManifestView,
    inputs: Seq<InputView>,
    found: Seq<FoundView>,
    few: nat,
    many: nat,
)
    requires
        few <= many,
        new_inputs(drives, m, inputs, found, few) is Err,
    ensures
        new_inputs(drives, m, inputs, found, many) == new_inputs(drives, m, inputs, found, few),
    decreases many,
{
    if few < many {
        lemma_new_error(drives, m, inputs, found, few, (many - 1) as nat);
    }
}

impl Manifest {
    fn rebuilt(&self, entry: &ManifestEntry, state: &FileState, reuse: bool) -> (r: Result<
        CpkInputFile,
        ManifestError,
    >)
        ensures
            match entry_input(self@, entry@, state@, reuse) {
                Ok(input) => r matches Ok(v) && v@ == input,
                Err(e) => r matches Err(f) && f@ == e,
            },
    {
        if state.size > u32::MAX as u64 {
            return Err(too_large(state.path.as_str()));
        }
        let unchanged = state.size == entry.extracted_size && state.hash == entry.extracted_hash;
        let mut size: u32 = state.size as u32;
        let mut raw_payload: Option<CpkRawPayload> = None;
        if reuse && unchanged {
            size = entry.packed_size;
            raw_payload = Some(
                CpkRawPayload {
                    archive_path: self.source_archive.clone(),
                    absolute_offset: entry.packed_offset,
                    size: entry.packed_size,
                },
            );
        }
        Ok(
            CpkInputFile {
                directory: entry.directory.clone(),
                file_name: entry.file_name.clone(),
                source_path: state.path.clone(),
                size,
                extract_size: state.size as u32,
                id: entry.id,
                user_string: entry.user_string.clone(),
                raw_payload,
            },
        )
    }

    /// The files of the entries, and the paths of all entries.
    fn present(&self, drives: bool, states: &Vec<Option<FileState>>, reuse: bool) -> (r: Result<
        (Vec<CpkInputFile>, StringHashMap<bool>),
        ManifestError,
    >)
        requires
            states@.len() == self.entries@.len(),
        ensures
            match present_inputs(drives, self@, states_view(states@), reuse, self@.entries.len()) {
                Ok(inputs) => r matches Ok((files, known)) && inputs_view(files@) == inputs
                    && forall|path: Seq<char>| #[trigger]
                    known@.contains_key(path) <==> is_known(drives, self@, path),
                Err(e) => r matches Err(f) && f@ == e,
            },
    {
        let ghost m = self@;
        let ghost views = states_view(states@);
        let mut files: Vec<CpkInputFile> = Vec::new();
        let mut known: StringHashMap<bool> = StringHashMap::new();
        let mut i: usize = 0;
        assert(inputs_view(files@) =~= Seq::empty());
        while i < self.entries.len()
            invariant
                i <= self.entries@.len(),
                m == self@,
                views == states_view(states@),
                states@.len() == self.entries@.len(),
                present_inputs(drives, m, views, reuse, i as nat) == Ok::<Seq<InputView>, Seq<char>>(
                    inputs_view(files@),
                ),
                forall|path: Seq<char>| #[trigger]
                    known@.contains_key(path) <==> exists|k: int|
                        0 <= k < i && entry_path(drives, #[trigger] m.entries[k]) == path,
            decreases self.entries@.len() - i,
        {
            let entry: &ManifestEntry = &self.entries[i];
            assert(m.entries[i as int] == entry@);
            let components = match safe_relative_path(
                drives,
                entry.directory.as_str(),
                entry.file_name.as_str(),
            ) {
                Ok(components) => components,
                Err(e) => {
                    proof {
                        lemma_present_error(drives, m, views, reuse, (i + 1) as nat, m.entries.len());
                    }
                    return Err(e);
                },
            };
            let ghost before_known = known@;
            let path = join_components(&components);
            known.insert(path, true);
            assert(path@ == entry_path(drives, m.entries[i as int]));
            assert forall|p: Seq<char>| #[trigger] known@.contains_key(p) <==> exists|k: int|
                0 <= k < i + 1 && entry_path(drives, #[trigger] m.entries[k]) == p by {
                if p == path@ {
                    assert(entry_path(drives, m.entries[i as int]) == p);
                } else {
                    assert(before_known.contains_key(p) <==> known@.contains_key(p));
                }
            }
            let ghost before = files@;
            match &states[i] {
                Some(state) => {
                    assert(views[i as int] == Some(state@));
                    match self.rebuilt(entry, state, reuse) {
                        Ok(file) => {
                            files.push(file);
                            assert(inputs_view(files@) =~= inputs_view(before).push(file@));
                        },
                        Err(e) => {
                            proof {
                                lemma_present_error(
                                    drives,
                                    m,
                                    views,
                                    reuse,
                                    (i + 1) as nat,
                                    m.entries.len(),
                                );
                            }
                            return Err(e);
                        },
                    }
                },
                None => {
                    assert(views[i as int] is None);
                },
            }
            i = i + 1;
        }
        Ok((files, known))
    }
}

/// The sort key of a path.
fn path_key(parts: &Vec<Vec<u8>>) -> (key: Vec<u16>)
    ensures
        key.rank() == parts_rank(Seq::new(parts@.len(), |i: int| parts@[i]@), parts@.len()),
{
    let ghost list = Seq::new(parts@.len(), |i: int| parts@[i]@);
    let mut key: Vec<u16> = Vec::new();
    let mut i: usize = 0;
    assert(key.rank() =~= parts_rank(list, 0));
    while i < parts.len()
        invariant
            i <= parts@.len(),
            list == Seq::new(parts@.len(), |j: int| parts@[j]@),
            key.rank() == parts_rank(list, i as nat),
        decreases parts@.len() - i,
    {
        let part: &Vec<u8> = &parts[i];
        let ghost before = key.rank();
        let mut j: usize = 0;
        assert(key.rank() =~= before + Seq::new(0, |k: int| part@[k] + 1));
        while j < part.len()
            invariant
                j <= part@.len(),
                key.rank() == before + Seq::new(j as nat, |k: int| part@[k] + 1),
            decreases part@.len() - j,
        {
            let ghost so_far = key.rank();
            key.push(part[j] as u16 + 1);
            j = j + 1;
            assert(key.rank() =~= so_far.push(part@[j - 1] + 1));
            assert(key.rank() =~= before + Seq::new(j as nat, |k: int| part@[k] + 1));
        }
        let ghost so_far = key.rank();
        key.push(0);
        assert(key.rank() =~= so_far.push(0));
        assert(list[i as int] == part@);
        i = i + 1;
        assert(key.rank() =~= parts_rank(list, i as nat));
    }
    key
}

/// The positions of the new files in the listing, sorted by path.
fn find_new(
    found: &Vec<FoundFile>,
    known: &StringHashMap<bool>,
    Ghost(drives): Ghost<bool>,
    Ghost(m): Ghost<ManifestView>,
) -> (positions: Vec<usize>)
    requires
        forall|path: Seq<char>| #[trigger] known@.contains_key(path) <==> is_known(drives, m, path),
    ensures
        as_ints(positions@) == new_order(drives, m, found_view(found@)),
        forall|k: int| 0 <= k < positions@.len() ==> #[trigger] positions@[k] < found@.len(),
{
    let ghost views = found_view(found@);
    let mut fresh: Vec<usize> = Vec::new();
    let mut keys: Vec<Vec<u16>> = Vec::new();
    let mut i: usize = 0;
    assert(as_ints(fresh@) =~= new_positions(drives, m, views, 0));
    while i < found.len()
        invariant
            i <= found@.len(),
            views == found_view(found@),
            forall|path: Seq<char>| #[trigger] known@.contains_key(path) <==> is_known(drives, m, path),
            as_ints(fresh@) == new_positions(drives, m, views, i as nat),
            keys@.len() == fresh@.len(),
            forall|k: int| 0 <= k < fresh@.len() ==> #[trigger] fresh@[k] < i,
            forall|k: int|
                0 <= k < keys@.len() ==> (#[trigger] keys@[k]).rank() == parts_rank(
                    views[fresh@[k] as int].parts,
                    views[fresh@[k] as int].parts.len(),
                ),
        decreases found@.len() - i,
    {
        let file: &FoundFile = &found[i];
        assert(views[i as int] == file@);
        let ghost before = fresh@;
        let mut belongs = false;
        match path_to_cri_string(&file.components, file.components.len()) {
            Some(path) => {
                belongs = known.contains_key(path.as_str());
            },
            None => {},
        }
        if !file.left_out && !belongs {
            fresh.push(i);
            keys.push(path_key(&file.components));
            assert(as_ints(fresh@) =~= as_ints(before).push(i as int));
        }
        i = i + 1;
    }
    assert(ranks(keys@) =~= position_ranks(views, as_ints(fresh@))) by {
        assert forall|k: int| 0 <= k < keys@.len() implies #[trigger] ranks(keys@)[k]
            == position_ranks(views, as_ints(fresh@))[k] by {
            assert(as_ints(fresh@)[k] == fresh@[k]);
            assert(keys@[k].rank() == parts_rank(
                views[fresh@[k] as int].parts,
                views[fresh@[k] as int].parts.len(),
            ));
        }
    }
    let order = stable_order(&keys);
    let mut positions: Vec<usize> = Vec::new();
    let mut k: usize = 0;
    while k < order.len()
        invariant
            k <= order@.len(),
            views == found_view(found@),
            order@.len() == fresh@.len(),
            keys@.len() == fresh@.len(),
            as_ints(fresh@) == new_positions(drives, m, views, views.len()),
            as_ints(order@) == order_of(position_ranks(views, as_ints(fresh@))),
            is_order(as_ints(order@), ranks(keys@)),
            forall|j: int| 0 <= j < fresh@.len() ==> #[trigger] fresh@[j] < found@.len(),
            positions@.len() == k,
            forall|j: int|
                0 <= j < k ==> #[trigger] positions@[j] == new_order(drives, m, views)[j] && positions@[j]
                    < found@.len(),
        decreases order@.len() - k,
    {
        assert(as_ints(order@)[k as int] == order@[k as int]);
        assert(as_ints(fresh@)[order@[k as int] as int] == fresh@[order@[k as int] as int]);
        positions.push(fresh[order[k]]);
        k = k + 1;
    }
    assert(as_ints(positions@) =~= new_order(drives, m, views));
    positions
}

/// A new file to pack.
fn fresh_input(file: &FoundFile, id: u32) -> (r: Result<CpkInputFile, ManifestError>)
    requires
        file.components@.len() > 0,
    ensures
        match new_input(file@, id) {
            Ok(input) => r matches Ok(v) && v@ == input,
            Err(e) => r matches Err(f) && f@ == e,
        },
{
    if file.size > u32::MAX as u64 {
        return Err(too_large(file.path.as_str()));
    }
    let last: usize = file.components.len() - 1;
    let file_name = match utf8_text(file.components[last].as_slice()) {
        Some(name) => name,
        None => {
            return Err(not_text(file.relative.as_str()));
        },
    };
    let directory = match path_to_cri_string(&file.components, last) {
        Some(directory) => directory,
        None => {
            return Err(not_text(file.parent.as_str()));
        },
    };
    let user_string = String::new();
    assert(user_string@ =~= Seq::<char>::empty());
    Ok(
        CpkInputFile {
            directory,
            file_name,
            source_path: file.path.clone(),
            size: file.size as u32,
            extract_size: file.size as u32,
            id,
            user_string,
            raw_payload: None,
        },
    )
}

/// The IDs that the files have.
fn used_ids(files: &Vec<CpkInputFile>) -> (used: HashSet<u32>)
    ensures
        forall|id: u32| #[trigger] used@.contains(id) <==> id_used(inputs_view(files@), id),
{
    let ghost inputs = inputs_view(files@);
    let mut used: HashSet<u32> = HashSet::new();
    let mut i: usize = 0;
    while i < files.len()
        invariant
            i <= files@.len(),
            inputs == inputs_view(files@),
            forall|id: u32| #[trigger]
                used@.contains(id) <==> exists|k: int|
                    0 <= k < i && (#[trigger] inputs[k]).id == id,
        decreases files@.len() - i,
    {
        let ghost before = used@;
        let id: u32 = files[i].id;
        used.insert(id);
        assert forall|x: u32| #[trigger] used@.contains(x) <==> exists|k: int|
            0 <= k < i + 1 && (#[trigger] inputs[k]).id == x by {
            if x == id {
                assert(inputs[i as int].id == x);
            } else {
                assert(before.contains(x) <==> used@.contains(x));
            }
        }
        i = i + 1;
    }
    used
}

/// The first ID from `from` on that is not used.
fn advance_free(used: &HashSet<u32>, from: u32, Ghost(inputs): Ghost<Seq<InputView>>) -> (id: u32)
    requires
        from <= 0x1_0000,
        forall|id: u32| #[trigger] used@.contains(id) <==> id_used(inputs, id),
    ensures
        id == next_free(inputs, from as int),
        id <= 0x1_0000,
{
    let mut id: u32 = from;
    while id <= u16::MAX as u32 && used.contains(&id)
        invariant
            from <= id <= 0x1_0000,
            forall|x: u32| #[trigger] used@.contains(x) <==> id_used(inputs, x),
            next_free(inputs, from as int) == next_free(inputs, id as int),
        decreases 0x1_0000 - id,
    {
        id = id + 1;
    }
    id
}

/// The ID of the first new file of an archive without an index by ID.
fn first_fresh_id(files: &Vec<CpkInputFile>) -> (id: u64)
    ensures
        id == first_new_id(inputs_view(files@)),
        id <= u32::MAX + 1,
{
    let ghost inputs = inputs_view(files@);
    if files.len() == 0 {
        return 0;
    }
    let mut largest: u32 = 0;
    let mut i: usize = 0;
    while i < files.len()
        invariant
            i <= files@.len(),
            inputs == inputs_view(files@),
            largest == largest_id(inputs, i as nat),
        decreases files@.len() - i,
    {
        if files[i].id > largest {
            largest = files[i].id;
        }
        i = i + 1;
    }
    largest as u64 + 1
}

impl Manifest {
    /// The files to pack: those of the entries that are still there, and behind
    /// them the files of the listing that belong to no entry.
    ///
    /// `drives` tells whether the host takes a letter and a colon at the front of
    /// a path for a drive, `states` tells of each entry's file as it is now, `found` lists the
    /// unpacked directory, and `source_found` is the size and hash of the source
    /// archive, if there is such a file. The second part of the result is the
    /// position in the listing of each new file.
    pub fn build_inputs(
        &self,
        drives: bool,
        states: &Vec<Option<FileState>>,
        found: &Vec<FoundFile>,
        reuse_raw_entries: bool,
        source_found: Option<(u64, u64)>,
    ) -> (r: Result<(Vec<CpkInputFile>, Vec<usize>), ManifestError>)
        requires
            states@.len() == self.entries@.len(),
            forall|i: int| 0 <= i < found@.len() ==> (#[trigger] found@[i]).components@.len() > 0,
        ensures
            match all_inputs(
                drives,
                self@,
                states_view(states@),
                found_view(found@),
                reuse_raw_entries,
                source_found,
            ) {
                Ok(inputs) => r matches Ok((files, positions)) && inputs_view(files@) == inputs
                    && as_ints(positions@) == new_order(drives, self@, found_view(found@)),
                Err(e) => r matches Err(f) && f@ == e,
            },
    {
        let ghost m = self@;
        let ghost views = found_view(found@);
        if reuse_raw_entries && !self.source_is_original(source_found) {
            return Err(
                ManifestError {
                    message:
                        "--reuse-raw-entries requires the original source CPK to exist unchanged".to_owned(),
                },
            );
        }
        let (mut files, known) = match self.present(drives, states, reuse_raw_entries) {
            Ok(present) => present,
            Err(e) => {
                return Err(e);
            },
        };
        let ghost inputs = inputs_view(files@);
        let positions = find_new(found, &known, Ghost(drives), Ghost(m));
        let used = used_ids(&files);
        let first: u64 = first_fresh_id(&files);
        if !self.has_itoc && first > u32::MAX as u64 {
            return Err(ManifestError { message: "no free CPK IDs".to_owned() });
        }
        let ghost all = all_inputs(
            drives,
            m,
            states_view(states@),
            views,
            reuse_raw_entries,
            source_found,
        );
        let mut candidate: u32 = 0;
        let ghost mut fresh = Seq::<InputView>::empty();
        let mut k: usize = 0;
        assert(inputs_view(files@) =~= inputs + fresh);
        while k < positions.len()
            invariant
                k <= positions@.len(),
                m == self@,
                all == all_inputs(
                    drives,
                    m,
                    states_view(states@),
                    views,
                    reuse_raw_entries,
                    source_found,
                ),
                all == match new_inputs(drives, m, inputs, views, positions@.len()) {
                    Err(e) => Err(e),
                    Ok(files) => Ok(inputs + files),
                },
                views == found_view(found@),
                as_ints(positions@) == new_order(drives, m, views),
                forall|j: int| 0 <= j < positions@.len() ==> #[trigger] positions@[j] < found@.len(),
                forall|i: int|
                    0 <= i < found@.len() ==> (#[trigger] found@[i]).components@.len() > 0,
                forall|id: u32| #[trigger] used@.contains(id) <==> id_used(inputs, id),
                first == first_new_id(inputs),
                first <= u32::MAX + 1,
                candidate <= 0x1_0000,
                k == 0 ==> candidate == 0,
                k > 0 && m.has_itoc ==> candidate == free_id(inputs, (k - 1) as nat) + 1,
                new_inputs(drives, m, inputs, views, k as nat) == Ok::<Seq<InputView>, Seq<char>>(fresh),
                inputs_view(files@) == inputs + fresh,
            decreases positions@.len() - k,
        {
            let id: u32 = if self.has_itoc {
                let free: u32 = advance_free(&used, candidate, Ghost(inputs));
                assert(free == free_id(inputs, k as nat));
                if free > u16::MAX as u32 {
                    proof {
                        lemma_new_error(drives, m, inputs, views, (k + 1) as nat, positions@.len());
                    }
                    return Err(
                        ManifestError { message: "ITOC has no free 16-bit IDs".to_owned() },
                    );
                }
                candidate = free + 1;
                free
            } else {
                if k as u64 > u32::MAX as u64 || first + k as u64 > u32::MAX as u64 {
                    proof {
                        lemma_new_error(drives, m, inputs, views, (k + 1) as nat, positions@.len());
                    }
                    return Err(ManifestError { message: "no free CPK IDs".to_owned() });
                }
                (first + k as u64) as u32
            };
            assert(new_id(m, inputs, k as nat) == Ok::<u32, Seq<char>>(id));
            assert(as_ints(positions@)[k as int] == positions@[k as int]);
            let file: &FoundFile = &found[positions[k]];
            assert(views[positions@[k as int] as int] == file@);
            match fresh_input(file, id) {
                Ok(input) => {
                    let ghost before = files@;
                    files.push(input);
                    proof {
                        assert(inputs_view(files@) =~= inputs_view(before).push(input@));
                        fresh = fresh.push(input@);
                        assert(inputs_view(files@) =~= inputs + fresh);
                    }
                },
                Err(e) => {
                    proof {
                        lemma_new_error(drives, m, inputs, views, (k + 1) as nat, positions@.len());
                    }
                    return Err(e);
                },
            }
            k = k + 1;
        }
        Ok((files, positions))
    }
}

} // verus!
