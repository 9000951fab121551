//! Turns a directory listing into files to pack.

use vstd::prelude::*;
use vstd::string::*;
use vstd::utf8::{decode_utf8, encode_utf8, valid_utf8};

use crate::cpk::error::{CpkWriterError, WriterErrorView};
use crate::cpk::input::{inputs_view, CpkInputFile, InputView};
use crate::utils::sort::{as_ints, is_order, order_of, ranks, stable_order, SortKey};
use crate::utils::text::{str_eq, utf8_text};

verus! {

/// A file found under the directory to pack.
#[derive(Debug)]
pub struct FoundFile {
    /// The file's path, for messages and for reading it.
    pub path: String,
    /// The path below the directory to pack, for messages.
    pub relative: String,
    /// The part of `relative` in front of the file name, for messages.
    pub parent: String,
    /// The parts of the path below the directory to pack, the file name last.
    pub components: Vec<Vec<u8>>,
    /// The file is not to be packed: it is the archive that is about to be
    /// written, or the manifest of the directory.
    pub left_out: bool,
    pub size: u64,
}

/// [`FoundFile`] with its texts as character sequences; a part of its path that
/// is not UTF-8 is no text.
pub struct FoundView {
    pub path: Seq<char>,
    pub relative: Seq<char>,
    pub parent: Seq<char>,
    /// The bytes of the parts.
    pub parts: Seq<Seq<u8>>,
    pub components: Seq<Option<Seq<char>>>,
    pub left_out: bool,
    pub size: u64,
}

/// The text of a part of a path.
pub open spec fn part_text(bytes: Seq<u8>) -> Option<Seq<char>> {
    if valid_utf8(bytes) {
        Some(decode_utf8(bytes))
    } else {
        None
    }
}

impl View for FoundFile {
    type V = FoundView;

    open spec fn view(&self) -> FoundView {
        FoundView {
            path: self.path@,
            relative: self.relative@,
            parent: self.parent@,
            parts: Seq::new(self.components@.len(), |i: int| self.components@[i]@),
            components: Seq::new(
                self.components@.len(),
                |i: int| part_text(self.components@[i]@),
            ),
            left_out: self.left_out,
            size: self.size,
        }
    }
}

/// A listing.
pub open spec fn found_view(found: Seq<FoundFile>) -> Seq<FoundView> {
    Seq::new(found.len(), |i: int| found[i]@)
}

/// The name is that of a manifest, which is never packed.
pub open spec fn is_manifest_name(name: Option<Seq<char>>) -> bool {
    name == Some(".cri-cpk-manifest-v1"@) || name == Some(".cri-cpk-manifest-v2"@)
}

/// The first `count` parts, with slashes between them. Parts that are not texts
/// count as empty.
pub open spec fn joined(parts: Seq<Option<Seq<char>>>, count: nat) -> Seq<char>
    decreases count,
{
    if count == 0 {
        Seq::empty()
    } else {
        let part = match parts[count - 1] {
            Some(text) => text,
            None => Seq::empty(),
        };
        if count == 1 {
            part
        } else {
            joined(parts, (count - 1) as nat) + seq!['/'] + part
        }
    }
}

/// The first `count` parts are texts.
pub open spec fn all_text(parts: Seq<Option<Seq<char>>>, count: nat) -> bool {
    forall|i: int| 0 <= i < count ==> (#[trigger] parts[i]) is Some
}

impl FoundView {
    /// The file is passed over: it has a manifest's name, or is left out.
    pub open spec fn skipped(self) -> bool {
        is_manifest_name(self.components.last()) || self.left_out
    }

    /// Why the file cannot be packed.
    pub open spec fn problem(self) -> Option<WriterErrorView> {
        if self.components.last() is None {
            Some(WriterErrorView::NonUtf8Path(self.path))
        } else if !all_text(self.components, (self.components.len() - 1) as nat) {
            Some(WriterErrorView::NonUtf8Path(self.parent))
        } else if self.size > u32::MAX {
            Some(WriterErrorView::FileTooLarge(self.path, self.size))
        } else {
            None
        }
    }

    /// The file to pack, with this ID.
    pub open spec fn input(self, id: u32) -> InputView {
        InputView {
            directory: joined(self.components, (self.components.len() - 1) as nat),
            file_name: self.components.last()->Some_0,
            source_path: self.path,
            size: self.size as u32,
            extract_size: self.size as u32,
            id,
            user_string: Seq::empty(),
            raw_payload: None,
        }
    }
}

/// The first problem from `from` on among the files that are not passed over.
pub open spec fn listing_problem(found: Seq<FoundView>, from: int) -> Option<WriterErrorView>
    decreases found.len() - from,
{
    if from >= found.len() {
        None
    } else if !found[from].skipped() && found[from].problem() is Some {
        found[from].problem()
    } else {
        listing_problem(found, from + 1)
    }
}

/// The positions of the files that are not passed over, among the first `count`.
pub open spec fn kept(found: Seq<FoundView>, count: nat) -> Seq<int>
    decreases count,
{
    if count == 0 {
        Seq::empty()
    } else {
        let before = kept(found, (count - 1) as nat);
        if found[count - 1].skipped() {
            before
        } else {
            before.push(count - 1)
        }
    }
}

/// A byte of a path as the engine compares it: backslashes are slashes, and
/// ASCII letters are upper case.
pub open spec fn path_byte(b: u8) -> u8 {
    if b == 0x5c {
        0x2f
    } else if 0x61 <= b <= 0x7a {
        (b - 0x20) as u8
    } else {
        b
    }
}

/// The bytes of a text as the engine compares them, counted from one.
pub open spec fn folded_rank(text: Seq<char>) -> Seq<int> {
    Seq::new(encode_utf8(text).len(), |i: int| path_byte(encode_utf8(text)[i]) + 1)
}

/// The bytes of a text, counted from one.
pub open spec fn plain_rank(text: Seq<char>) -> Seq<int> {
    Seq::new(encode_utf8(text).len(), |i: int| encode_utf8(text)[i] + 1)
}

/// The path of a file as the engine compares it.
pub open spec fn folded_path(file: InputView) -> Seq<int> {
    if file.directory.len() == 0 {
        folded_rank(file.file_name)
    } else {
        folded_rank(file.directory) + seq![0x30int] + folded_rank(file.file_name)
    }
}

/// The sort key of a file: its path as the engine compares it and, among paths
/// that the engine takes for the same, its directory and name as they are. An
/// end comes before every byte.
pub open spec fn engine_rank(file: InputView) -> Seq<int> {
    folded_path(file) + seq![0int] + (plain_rank(file.directory) + seq![0int] + plain_rank(
        file.file_name,
    ))
}

/// The files that are not passed over, in listing order and without IDs.
pub open spec fn kept_inputs(found: Seq<FoundView>) -> Seq<InputView> {
    let positions = kept(found, found.len());
    Seq::new(positions.len(), |k: int| found[positions[k]].input(0))
}

/// The sort keys of a list of files.
pub open spec fn engine_ranks(files: Seq<InputView>) -> Seq<Seq<int>> {
    Seq::new(files.len(), |i: int| engine_rank(files[i]))
}

/// The positions in the listing of the files to pack, in packing order.
pub open spec fn packing_order(found: Seq<FoundView>) -> Seq<int> {
    let positions = kept(found, found.len());
    let order = order_of(engine_ranks(kept_inputs(found)));
    Seq::new(positions.len(), |k: int| positions[order[k]])
}

/// The files to pack: sorted as the engine compares paths, and numbered.
pub open spec fn collected(found: Seq<FoundView>) -> Result<Seq<InputView>, WriterErrorView> {
    let order = packing_order(found);
    if listing_problem(found, 0) is Some {
        Err(listing_problem(found, 0)->Some_0)
    } else if order.len() > u32::MAX + 1 {
        Err(WriterErrorView::TooManyFiles(order.len() as usize))
    } else {
        Ok(Seq::new(order.len(), |k: int| found[order[k]].input(k as u32)))
    }
}

fn has_manifest_name(file: &FoundFile) -> (yes: bool)
    requires
        file.components@.len() > 0,
    ensures
        yes == is_manifest_name(file@.components.last()),
{
    match utf8_text(file.components[file.components.len() - 1].as_slice()) {
        Some(name) => str_eq(name.as_str(), ".cri-cpk-manifest-v1") || str_eq(
            name.as_str(),
            ".cri-cpk-manifest-v2",
        ),
        None => false,
    }
}

/// The directory of a file; `None` where a part is not UTF-8.
pub(crate) fn path_to_cri_string(components: &Vec<Vec<u8>>, count: usize) -> (text: Option<String>)
    requires
        count <= components@.len(),
    ensures
        ({
            let parts = Seq::new(components@.len(), |i: int| part_text(components@[i]@));
            match text {
                Some(t) => all_text(parts, count as nat) && t@ == joined(parts, count as nat),
                None => !all_text(parts, count as nat),
            }
        }),
{
    let ghost parts = Seq::new(components@.len(), |i: int| part_text(components@[i]@));
    let mut text = String::new();
    let mut i: usize = 0;
    proof {
        reveal_strlit("/");
        assert("/"@ =~= seq!['/']);
        assert(text@ =~= joined(parts, 0));
    }
    while i < count
        invariant
            i <= count <= components@.len(),
            parts == Seq::new(components@.len(), |j: int| part_text(components@[j]@)),
            "/"@ == seq!['/'],
            all_text(parts, i as nat),
            text@ == joined(parts, i as nat),
        decreases count - i,
    {
        match utf8_text(components[i].as_slice()) {
            Some(part) => {
                assert(parts[i as int] == Some(part@));
                if i > 0 {
                    text.append("/");
                }
                text.append(part.as_str());
                i = i + 1;
                assert(text@ =~= joined(parts, i as nat));
            },
            None => {
                assert(parts[i as int] is None);
                return None;
            },
        }
    }
    Some(text)
}

fn input_of(file: &FoundFile) -> (r: Result<CpkInputFile, CpkWriterError>)
    requires
        file.components@.len() > 0,
    ensures
        match file@.problem() {
            None => r matches Ok(input) && input@ == file@.input(0),
            Some(e) => r matches Err(f) && f@ == e,
        },
{
    let last: usize = file.components.len() - 1;
    let file_name = match utf8_text(file.components[last].as_slice()) {
        Some(name) => name,
        None => {
            return Err(CpkWriterError::NonUtf8Path(file.path.clone()));
        },
    };
    let directory = match path_to_cri_string(&file.components, last) {
        Some(directory) => directory,
        None => {
            return Err(CpkWriterError::NonUtf8Path(file.parent.clone()));
        },
    };
    if file.size > u32::MAX as u64 {
        return Err(CpkWriterError::FileTooLarge(file.path.clone(), file.size));
    }
    let user_string = String::new();
    assert(user_string@ =~= Seq::<char>::empty());
    Ok(
        CpkInputFile {
            directory,
            file_name,
            source_path: file.path.clone(),
            size: file.size as u32,
            extract_size: file.size as u32,
            id: 0,
            user_string,
            raw_payload: None,
        },
    )
}

/// Appends the bytes of a text, counted from one; `folded` asks for them as the
/// engine compares them.
fn push_path_key(key: &mut Vec<u16>, text: &str, folded: bool)
    ensures
        final(key).rank() == old(key).rank() + if folded {
            folded_rank(text@)
        } else {
            plain_rank(text@)
        },
{
    let bytes: &[u8] = text.as_bytes();
    let ghost before = key@;
    let ghost added = if folded {
        folded_rank(text@)
    } else {
        plain_rank(text@)
    };
    let mut i: usize = 0;
    while i < bytes.len()
        invariant
            i <= bytes@.len(),
            bytes@ == encode_utf8(text@),
            added == if folded {
                folded_rank(text@)
            } else {
                plain_rank(text@)
            },
            key@.len() == before.len() + i,
            forall|k: int| 0 <= k < before.len() ==> key@[k] == before[k],
            forall|k: int| 0 <= k < i ==> key@[before.len() + k] == #[trigger] added[k],
        decreases bytes@.len() - i,
    {
        let b: u8 = bytes[i];
        let shown: u8 = if !folded {
            b
        } else if b == 0x5c {
            0x2f
        } else if 0x61 <= b && b <= 0x7a {
            b - 0x20
        } else {
            b
        };
        key.push(shown as u16 + 1);
        i = i + 1;
    }
    assert(key.rank() =~= old(key).rank() + added);
}

/// Appends one number.
fn push_mark(key: &mut Vec<u16>, mark: u16)
    ensures
        final(key).rank() == old(key).rank() + seq![mark as int],
{
    key.push(mark);
    assert(key.rank() =~= old(key).rank() + seq![mark as int]);
}

/// The sort key of a file.
fn engine_path_key(file: &CpkInputFile) -> (key: Vec<u16>)
    ensures
        key.rank() == engine_rank(file@),
{
    let mut key: Vec<u16> = Vec::new();
    assert(key.rank() =~= Seq::<int>::empty());
    if file.directory.as_str().unicode_len() != 0 {
        push_path_key(&mut key, file.directory.as_str(), true);
        push_mark(&mut key, 0x30);
    }
    push_path_key(&mut key, file.file_name.as_str(), true);
    assert(key.rank() =~= folded_path(file@));
    push_mark(&mut key, 0);
    push_path_key(&mut key, file.directory.as_str(), false);
    push_mark(&mut key, 0);
    push_path_key(&mut key, file.file_name.as_str(), false);
    assert(key.rank() =~= engine_rank(file@));
    key
}

/// The files to pack, and the position of each in the listing.
pub fn collect_files(found: &Vec<FoundFile>) -> (r: Result<
    (Vec<CpkInputFile>, Vec<usize>),
    CpkWriterError,
>)
    requires
        forall|i: int| 0 <= i < found@.len() ==> (#[trigger] found@[i]).components@.len() > 0,
    ensures
        match collected(found_view(found@)) {
            Ok(files) => r matches Ok((inputs, positions)) && inputs_view(inputs@) == files
                && as_ints(positions@) == packing_order(found_view(found@)) && positions@.len()
                == inputs@.len() && forall|k: int|
                0 <= k < positions@.len() ==> #[trigger] positions@[k] < found@.len(),
            Err(e) => r matches Err(f) && f@ == e,
        },
{
    let ghost views = found_view(found@);
    let mut inputs: Vec<CpkInputFile> = Vec::new();
    let mut kept_at: Vec<usize> = Vec::new();
    let mut i: usize = 0;
    assert(as_ints(kept_at@) =~= kept(views, 0));
    while i < found.len()
        invariant
            i <= found@.len(),
            views == found_view(found@),
            forall|k: int| 0 <= k < found@.len() ==> (#[trigger] found@[k]).components@.len() > 0,
            listing_problem(views, 0) == listing_problem(views, i as int),
            as_ints(kept_at@) == kept(views, i as nat),
            inputs@.len() == kept_at@.len(),
            forall|k: int| 0 <= k < kept_at@.len() ==> #[trigger] kept_at@[k] < i,
            forall|k: int|
                0 <= k < kept_at@.len() ==> (#[trigger] inputs@[k])@
                    == views[kept_at@[k] as int].input(0),
        decreases found@.len() - i,
    {
        let file: &FoundFile = &found[i];
        assert(views[i as int] == file@);
        let ghost before = kept_at@;
        let manifest = has_manifest_name(file);
        if !manifest && !file.left_out {
            match input_of(file) {
                Ok(input) => {
                    inputs.push(input);
                    kept_at.push(i);
                    assert(as_ints(kept_at@) =~= as_ints(before).push(i as int));
                },
                Err(e) => {
                    return Err(e);
                },
            }
        }
        i = i + 1;
    }
    let mut keys: Vec<Vec<u16>> = Vec::new();
    let mut k: usize = 0;
    while k < inputs.len()
        invariant
            k <= inputs@.len(),
            keys@.len() == k,
            forall|j: int| 0 <= j < k ==> (#[trigger] keys@[j]).rank() == engine_rank(inputs@[j]@),
        decreases inputs@.len() - k,
    {
        keys.push(engine_path_key(&inputs[k]));
        k = k + 1;
    }
    assert forall|j: int| 0 <= j < inputs@.len() implies #[trigger] kept_inputs(views)[j]
        == inputs@[j]@ by {
        assert(as_ints(kept_at@)[j] == kept_at@[j]);
    }
    assert(ranks(keys@) =~= engine_ranks(kept_inputs(views))) by {
        assert forall|j: int| 0 <= j < keys@.len() implies #[trigger] ranks(keys@)[j]
            == engine_ranks(kept_inputs(views))[j] by {
            assert(keys@[j].rank() =~= ranks(keys@)[j]);
            assert(kept_inputs(views)[j] == inputs@[j]@);
        }
    }
    let order = stable_order(&keys);
    if inputs.len() as u64 > u32::MAX as u64 + 1 {
        return Err(CpkWriterError::TooManyFiles(inputs.len()));
    }
    let mut sorted: Vec<CpkInputFile> = Vec::new();
    let mut positions: Vec<usize> = Vec::new();
    let mut k: usize = 0;
    while k < order.len()
        invariant
            k <= order@.len(),
            views == found_view(found@),
            order@.len() == inputs@.len(),
            order@.len() <= u32::MAX + 1,
            inputs@.len() == kept_at@.len(),
            as_ints(kept_at@) == kept(views, views.len()),
            as_ints(order@) == order_of(engine_ranks(kept_inputs(views))),
            is_order(as_ints(order@), ranks(keys@)),
            keys@.len() == inputs@.len(),
            forall|j: int| 0 <= j < kept_at@.len() ==> #[trigger] kept_at@[j] < found@.len(),
            forall|j: int|
                0 <= j < kept_at@.len() ==> (#[trigger] inputs@[j])@
                    == views[kept_at@[j] as int].input(0),
            sorted@.len() == k,
            positions@.len() == k,
            forall|j: int|
                0 <= j < k ==> #[trigger] positions@[j] == packing_order(views)[j] && positions@[j]
                    < found@.len(),
            forall|j: int|
                0 <= j < k ==> (#[trigger] sorted@[j])@ == views[packing_order(views)[j]].input(
                    j as u32,
                ),
        decreases order@.len() - k,
    {
        assert(as_ints(order@)[k as int] == order@[k as int]);
        let index: usize = order[k];
        assert(as_ints(kept_at@)[index as int] == kept_at@[index as int]);
        assert(packing_order(views)[k as int] == kept_at@[index as int]);
        let input: &CpkInputFile = &inputs[index];
        assert(input@ == views[kept_at@[index as int] as int].input(0));
        let numbered = CpkInputFile {
            directory: input.directory.clone(),
            file_name: input.file_name.clone(),
            source_path: input.source_path.clone(),
            size: input.size,
            extract_size: input.extract_size,
            id: k as u32,
            user_string: input.user_string.clone(),
            raw_payload: None,
        };
        assert(numbered@ == views[packing_order(views)[k as int]].input(k as u32));
        sorted.push(numbered);
        positions.push(kept_at[index]);
        k = k + 1;
    }
    assert(inputs_view(sorted@) =~= collected(views)->Ok_0);
    assert(as_ints(positions@) =~= packing_order(views));
    Ok((sorted, positions))
}

} // verus!
