//! What holds of the files that a manifest and an unpacked directory give.

use vstd::prelude::*;

use crate::cpk::collect::{all_text, joined, FoundView};
use crate::cpk::input::{InputView, RawView};
use crate::cpk::layout::lemma_covers_injective;
use crate::manifest::inputs::{
    all_inputs, entry_input, entry_path, first_new_id, free_id, id_used, is_known, is_new,
    largest_id, law_new_itoc_ids_are_fresh, law_new_toc_ids_are_fresh, lemma_free_id,
    lemma_largest_id, new_id, new_input, new_inputs, new_order, new_positions, next_free,
    parts_rank, position_ranks, present_inputs, reused, StateView,
};
use crate::manifest::model::{EntryView, ManifestView};
use crate::manifest::paths::entry_components;
use crate::utils::sort::{
    comes_before, law_keys_are_ordered_like_words, lemma_lex_reflexive, lemma_order_of, lex_le,
    order_of,
};

verus! {

/// No two files have one ID.
pub open spec fn ids_distinct(inputs: Seq<InputView>) -> bool {
    forall|i: int, j: int|
        0 <= i < j < inputs.len() ==> (#[trigger] inputs[i]).id != (#[trigger] inputs[j]).id
}

/// No two entries have one ID.
pub open spec fn entry_ids_distinct(entries: Seq<EntryView>) -> bool {
    forall|i: int, j: int|
        0 <= i < j < entries.len() ==> (#[trigger] entries[i]).id != (#[trigger] entries[j]).id
}

/// The file is that of the entry, unchanged since it was unpacked.
pub open spec fn unchanged(e: EntryView, state: Option<StateView>) -> bool {
    state matches Some(s) && s.size == e.extracted_size && s.hash == e.extracted_hash
}

/// Each present file is that of an entry that has a file.
proof fn lemma_present(
    drives: bool,
    m: ManifestView,
    states: Seq<Option<StateView>>,
    reuse: bool,
    count: nat,
    i: int,
) -> (k: int)
    requires
        count <= m.entries.len(),
        present_inputs(drives, m, states, reuse, count) is Ok,
        0 <= i < present_inputs(drives, m, states, reuse, count)->Ok_0.len(),
    ensures
        0 <= k < count,
        states[k] is Some,
        entry_input(m, m.entries[k], states[k]->Some_0, reuse) == Ok::<InputView, Seq<char>>(
            present_inputs(drives, m, states, reuse, count)->Ok_0[i],
        ),
    decreases count,
{
    let before = present_inputs(drives, m, states, reuse, (count - 1) as nat)->Ok_0;
    if i < before.len() {
        lemma_present(drives, m, states, reuse, (count - 1) as nat, i)
    } else {
        count - 1
    }
}

/// Present files stand in the order of their entries.
proof fn lemma_present_ordered(
    drives: bool,
    m: ManifestView,
    states: Seq<Option<StateView>>,
    reuse: bool,
    count: nat,
)
    requires
        count <= m.entries.len(),
        present_inputs(drives, m, states, reuse, count) is Ok,
        entry_ids_distinct(m.entries),
    ensures
        ids_distinct(present_inputs(drives, m, states, reuse, count)->Ok_0),
    decreases count,
{
    if count > 0 {
        let before = present_inputs(drives, m, states, reuse, (count - 1) as nat)->Ok_0;
        let after = present_inputs(drives, m, states, reuse, count)->Ok_0;
        lemma_present_ordered(drives, m, states, reuse, (count - 1) as nat);
        assert forall|i: int, j: int| 0 <= i < j < after.len() implies (#[trigger] after[i]).id != (
        #[trigger] after[j]).id by {
            if j < before.len() {
                assert(before[i].id != before[j].id);
            } else {
                let k = lemma_present(drives, m, states, reuse, (count - 1) as nat, i);
                assert(m.entries[k].id != m.entries[count - 1].id);
            }
        }
    }
}

/// New files have the IDs that are given out, and no packed bytes to reuse.
proof fn lemma_new(
    drives: bool,
    m: ManifestView,
    inputs: Seq<InputView>,
    found: Seq<FoundView>,
    count: nat,
    k: int,
)
    requires
        new_inputs(drives, m, inputs, found, count) is Ok,
        0 <= k < count,
    ensures
        new_inputs(drives, m, inputs, found, count)->Ok_0.len() == count,
        new_id(m, inputs, k as nat) == Ok::<u32, Seq<char>>(
            new_inputs(drives, m, inputs, found, count)->Ok_0[k].id,
        ),
        new_input(
            found[new_order(drives, m, found)[k]],
            new_inputs(drives, m, inputs, found, count)->Ok_0[k].id,
        ) == Ok::<InputView, Seq<char>>(new_inputs(drives, m, inputs, found, count)->Ok_0[k]),
    decreases count,
{
    if k < count - 1 {
        lemma_new(drives, m, inputs, found, (count - 1) as nat, k);
    } else if count > 1 {
        lemma_new(drives, m, inputs, found, (count - 1) as nat, 0);
    }
}

proof fn lemma_new_count(
    drives: bool,
    m: ManifestView,
    inputs: Seq<InputView>,
    found: Seq<FoundView>,
    count: nat,
)
    requires
        new_inputs(drives, m, inputs, found, count) is Ok,
    ensures
        new_inputs(drives, m, inputs, found, count)->Ok_0.len() == count,
{
    if count > 0 {
        lemma_new(drives, m, inputs, found, count, 0);
    }
}

/// The ID of a new file is that of no file before it.
proof fn lemma_new_id_fresh(m: ManifestView, inputs: Seq<InputView>, k: nat)
    requires
        new_id(m, inputs, k) is Ok,
    ensures
        !id_used(inputs, new_id(m, inputs, k)->Ok_0),
{
    if k > 0 {
        if m.has_itoc {
            law_new_itoc_ids_are_fresh(m, inputs, 0, k);
        } else {
            law_new_toc_ids_are_fresh(m, inputs, 0, k);
        }
    } else if m.has_itoc {
        lemma_free_id(inputs, 0);
    } else if id_used(inputs, new_id(m, inputs, 0)->Ok_0) {
        let i = choose|i: int|
            0 <= i < inputs.len() && (#[trigger] inputs[i]).id == first_new_id(inputs) as u32;
        lemma_largest_id(inputs, inputs.len(), i);
    }
}

/// Where the entries have distinct IDs, so have the files to pack, the new ones
/// among them.
pub proof fn law_ids_stay_distinct(
    drives: bool,
    m: ManifestView,
    states: Seq<Option<StateView>>,
    found: Seq<FoundView>,
    reuse: bool,
    source_found: Option<(u64, u64)>,
)
    requires
        entry_ids_distinct(m.entries),
        all_inputs(drives, m, states, found, reuse, source_found) is Ok,
    ensures
        ids_distinct(all_inputs(drives, m, states, found, reuse, source_found)->Ok_0),
{
    let inputs = present_inputs(drives, m, states, reuse, m.entries.len())->Ok_0;
    let count = new_order(drives, m, found).len();
    let fresh = new_inputs(drives, m, inputs, found, count)->Ok_0;
    let all = inputs + fresh;
    lemma_present_ordered(drives, m, states, reuse, m.entries.len());
    lemma_new_count(drives, m, inputs, found, count);
    assert forall|i: int, j: int| 0 <= i < j < all.len() implies (#[trigger] all[i]).id != (
    #[trigger] all[j]).id by {
        if j < inputs.len() {
            assert(inputs[i].id != inputs[j].id);
        } else {
            let k = j - inputs.len();
            lemma_new(drives, m, inputs, found, count, k);
            lemma_new_id_fresh(m, inputs, k as nat);
            if i < inputs.len() {
                assert(inputs[i].id != fresh[k].id);
            } else {
                let h = i - inputs.len();
                lemma_new(drives, m, inputs, found, count, h);
                if m.has_itoc {
                    law_new_itoc_ids_are_fresh(m, inputs, h as nat, k as nat);
                } else {
                    law_new_toc_ids_are_fresh(m, inputs, h as nat, k as nat);
                }
            }
        }
    }
}

/// Unless it is asked for, no packed bytes are reused: every file is packed
/// from the unpacked one, which gives both its sizes.
pub proof fn law_rebuilds_every_file_by_default(
    drives: bool,
    m: ManifestView,
    states: Seq<Option<StateView>>,
    found: Seq<FoundView>,
    source_found: Option<(u64, u64)>,
    i: int,
)
    requires
        all_inputs(drives, m, states, found, false, source_found) is Ok,
        0 <= i < all_inputs(drives, m, states, found, false, source_found)->Ok_0.len(),
    ensures
        ({
            let file = all_inputs(drives, m, states, found, false, source_found)->Ok_0[i];
            file.raw_payload is None && file.size == file.extract_size
        }),
{
    let inputs = present_inputs(drives, m, states, false, m.entries.len())->Ok_0;
    let count = new_order(drives, m, found).len();
    if i < inputs.len() {
        let k = lemma_present(drives, m, states, false, m.entries.len(), i);
    } else {
        lemma_new_count(drives, m, inputs, found, count);
        lemma_new(drives, m, inputs, found, count, i - inputs.len());
    }
}

/// Packed bytes are reused only of entries whose file is unchanged, and only
/// while the source archive is: those that the entry says it took up there.
pub proof fn law_reuses_only_unchanged_entries(
    drives: bool,
    m: ManifestView,
    states: Seq<Option<StateView>>,
    found: Seq<FoundView>,
    reuse: bool,
    source_found: Option<(u64, u64)>,
    i: int,
) -> (k: int)
    requires
        all_inputs(drives, m, states, found, reuse, source_found) is Ok,
        0 <= i < all_inputs(drives, m, states, found, reuse, source_found)->Ok_0.len(),
        all_inputs(drives, m, states, found, reuse, source_found)->Ok_0[i].raw_payload is Some,
    ensures
        reuse,
        source_found == Some((m.archive_size, m.archive_hash)),
        0 <= k < m.entries.len(),
        unchanged(m.entries[k], states[k]),
        ({
            let file = all_inputs(drives, m, states, found, reuse, source_found)->Ok_0[i];
            &&& file.raw_payload == Some(
                RawView {
                    archive_path: m.source_archive,
                    absolute_offset: m.entries[k].packed_offset,
                    size: m.entries[k].packed_size,
                },
            )
            &&& file.size == m.entries[k].packed_size
            &&& file.extract_size == m.entries[k].extracted_size
            &&& file.id == m.entries[k].id
        }),
{
    let inputs = present_inputs(drives, m, states, reuse, m.entries.len())->Ok_0;
    let count = new_order(drives, m, found).len();
    if i < inputs.len() {
        let k = lemma_present(drives, m, states, reuse, m.entries.len(), i);
        assert(reused(m, m.entries[k], states[k]->Some_0, reuse) is Some);
        k
    } else {
        lemma_new_count(drives, m, inputs, found, count);
        lemma_new(drives, m, inputs, found, count, i - inputs.len());
        0
    }
}

/// While no file is missing, each entry has its file at its own place.
pub proof fn lemma_all_present(
    drives: bool,
    m: ManifestView,
    states: Seq<Option<StateView>>,
    reuse: bool,
    count: nat,
    i: int,
)
    requires
        count <= m.entries.len(),
        present_inputs(drives, m, states, reuse, count) is Ok,
        forall|k: int| 0 <= k < count ==> (#[trigger] states[k]) is Some,
    ensures
        present_inputs(drives, m, states, reuse, count)->Ok_0.len() == count,
        0 <= i < count ==> entry_input(m, m.entries[i], states[i]->Some_0, reuse) == Ok::<
            InputView,
            Seq<char>,
        >(present_inputs(drives, m, states, reuse, count)->Ok_0[i]),
    decreases count,
{
    if count > 0 {
        assert(states[count - 1] is Some);
        lemma_all_present(drives, m, states, reuse, (count - 1) as nat, i);
    }
}

/// While no file is missing, the files of the entries come first, in the order
/// of the entries and with the directory, name, ID and user string of each.
pub proof fn law_entries_keep_their_rows(
    drives: bool,
    m: ManifestView,
    states: Seq<Option<StateView>>,
    found: Seq<FoundView>,
    reuse: bool,
    source_found: Option<(u64, u64)>,
    i: int,
)
    requires
        all_inputs(drives, m, states, found, reuse, source_found) is Ok,
        forall|k: int| 0 <= k < m.entries.len() ==> (#[trigger] states[k]) is Some,
        0 <= i < m.entries.len(),
    ensures
        ({
            let inputs = all_inputs(drives, m, states, found, reuse, source_found)->Ok_0;
            &&& inputs.len() == m.entries.len() + new_order(drives, m, found).len()
            &&& inputs[i].directory == m.entries[i].directory
            &&& inputs[i].file_name == m.entries[i].file_name
            &&& inputs[i].id == m.entries[i].id
            &&& inputs[i].user_string == m.entries[i].user_string
            &&& inputs[i].source_path == states[i]->Some_0.path
            &&& inputs[i].extract_size == states[i]->Some_0.size
        }),
{
    lemma_all_present(drives, m, states, reuse, m.entries.len(), i);
    let inputs = present_inputs(drives, m, states, reuse, m.entries.len())->Ok_0;
    lemma_new_count(drives, m, inputs, found, new_order(drives, m, found).len());
    assert(states[i] is Some);
}

/// How many of the first `count` entries still have their file.
pub open spec fn present_before(states: Seq<Option<StateView>>, count: nat) -> int
    decreases count,
{
    if count == 0 {
        0
    } else {
        present_before(states, (count - 1) as nat) + if states[count - 1] is Some {
            1int
        } else {
            0
        }
    }
}

/// The file to pack is that of the entry, as it is now: its row is the entry's, and
/// its bytes are the unpacked ones, or those of the source archive where they are
/// to be reused and the file is unchanged.
pub open spec fn is_entry_file(
    file: InputView,
    m: ManifestView,
    e: EntryView,
    state: StateView,
    reuse: bool,
) -> bool {
    &&& file.directory == e.directory
    &&& file.file_name == e.file_name
    &&& file.id == e.id
    &&& file.user_string == e.user_string
    &&& file.source_path == state.path
    &&& file.extract_size == state.size
    &&& if reuse && state.size == e.extracted_size && state.hash == e.extracted_hash {
        &&& file.size == e.packed_size
        &&& file.raw_payload matches Some(raw) && raw.archive_path == m.source_archive
            && raw.absolute_offset == e.packed_offset && raw.size == e.packed_size
    } else {
        file.size == state.size && file.raw_payload is None
    }
}

proof fn lemma_present_at(
    drives: bool,
    m: ManifestView,
    states: Seq<Option<StateView>>,
    reuse: bool,
    count: nat,
    k: int,
)
    requires
        count <= m.entries.len(),
        present_inputs(drives, m, states, reuse, count) is Ok,
    ensures
        ({
            let inputs = present_inputs(drives, m, states, reuse, count)->Ok_0;
            &&& inputs.len() == present_before(states, count)
            &&& 0 <= k < count && states[k] is Some ==> {
                &&& 0 <= present_before(states, k as nat) < inputs.len()
                &&& is_entry_file(
                    inputs[present_before(states, k as nat)],
                    m,
                    m.entries[k],
                    states[k]->Some_0,
                    reuse,
                )
            }
        }),
    decreases count,
{
    if count > 0 {
        lemma_present_at(drives, m, states, reuse, (count - 1) as nat, k);
        let before = present_inputs(drives, m, states, reuse, (count - 1) as nat)->Ok_0;
        let inputs = present_inputs(drives, m, states, reuse, count)->Ok_0;
        if 0 <= k < count - 1 && states[k] is Some {
            let at = present_before(states, k as nat);
            assert(inputs[at] == before[at]);
        }
    }
}

/// The files of the entries come first, in the order of the entries; an entry whose
/// file is gone has none. Bytes are reused just where that is asked for and the
/// file is unchanged. Reuse is refused where the source archive is not the one
/// that was unpacked.
pub proof fn law_present_entries_are_packed(
    drives: bool,
    m: ManifestView,
    states: Seq<Option<StateView>>,
    found: Seq<FoundView>,
    reuse: bool,
    source_found: Option<(u64, u64)>,
    k: int,
)
    ensures
        reuse && source_found != Some((m.archive_size, m.archive_hash)) ==> all_inputs(
            drives,
            m,
            states,
            found,
            reuse,
            source_found,
        ) is Err,
        all_inputs(drives, m, states, found, reuse, source_found) matches Ok(inputs) ==> {
            &&& inputs.len() == present_before(states, m.entries.len()) + new_order(
                drives,
                m,
                found,
            ).len()
            &&& 0 <= k < m.entries.len() && states[k] is Some ==> {
                &&& 0 <= present_before(states, k as nat) < inputs.len()
                &&& is_entry_file(
                    inputs[present_before(states, k as nat)],
                    m,
                    m.entries[k],
                    states[k]->Some_0,
                    reuse,
                )
            }
        },
{
    if all_inputs(drives, m, states, found, reuse, source_found) is Ok {
        let inputs = present_inputs(drives, m, states, reuse, m.entries.len())->Ok_0;
        lemma_present_at(drives, m, states, reuse, m.entries.len(), k);
        lemma_new_count(drives, m, inputs, found, new_order(drives, m, found).len());
    }
}

/// The listed file belongs to an entry: the names of its path are those of the
/// entry's path.
pub open spec fn belongs_to(drives: bool, file: FoundView, e: EntryView) -> bool {
    let n = file.components.len();
    &&& all_text(file.components, n)
    &&& entry_components(drives, e.directory, e.file_name) matches Ok(names)
    &&& names == Seq::new(n, |i: int| file.components[i]->Some_0)
}

proof fn lemma_new_positions(drives: bool, m: ManifestView, found: Seq<FoundView>, count: nat)
    requires
        count <= found.len(),
    ensures
        ({
            let positions = new_positions(drives, m, found, count);
            &&& forall|k: int|
                0 <= k < positions.len() ==> 0 <= #[trigger] positions[k] < count && is_new(
                    drives,
                    m,
                    found[positions[k]],
                )
            &&& forall|k: int, l: int|
                0 <= k < l < positions.len() ==> #[trigger] positions[k] < #[trigger] positions[l]
            &&& forall|i: int|
                0 <= i < count && is_new(drives, m, found[i]) ==> #[trigger] positions.contains(i)
        }),
    decreases count,
{
    if count > 0 {
        lemma_new_positions(drives, m, found, (count - 1) as nat);
        let before = new_positions(drives, m, found, (count - 1) as nat);
        let after = new_positions(drives, m, found, count);
        assert forall|i: int| 0 <= i < count && is_new(drives, m, found[i]) implies #[trigger] after.contains(
            i,
        ) by {
            if i == count - 1 {
                assert(after[before.len() as int] == i);
            } else {
                assert(before.contains(i));
                let k = choose|k: int| 0 <= k < before.len() && before[k] == i;
                assert(after[k] == i);
            }
        }
    }
}

/// Paths of equal names are equal texts.
proof fn lemma_same_names(a: Seq<Option<Seq<char>>>, b: Seq<Option<Seq<char>>>, count: nat)
    requires
        count <= a.len(),
        count <= b.len(),
        forall|i: int| 0 <= i < count ==> #[trigger] a[i] == b[i],
    ensures
        joined(a, count) == joined(b, count),
    decreases count,
{
    if count > 0 {
        lemma_same_names(a, b, (count - 1) as nat);
        assert(a[count - 1] == b[count - 1]);
    }
}

/// The new files are those that no entry has, each once: a file that is left out or
/// belongs to an entry is none, and one whose path is that of no entry is one. They
/// are packed by the order of their paths, part by part.
pub proof fn law_new_files_belong_to_no_entry(
    drives: bool,
    m: ManifestView,
    found: Seq<FoundView>,
    i: int,
    e: int,
)
    requires
        0 <= i < found.len(),
    ensures
        ({
            let order = new_order(drives, m, found);
            &&& order.no_duplicates()
            &&& order.contains(i) ==> !found[i].left_out
            &&& 0 <= e < m.entries.len() && belongs_to(drives, found[i], m.entries[e])
                ==> !order.contains(i)
            &&& !found[i].left_out && (forall|n: int|
                0 <= n < m.entries.len() ==> entry_path(drives, #[trigger] m.entries[n]) != joined(
                    found[i].components,
                    found[i].components.len(),
                )) ==> order.contains(i)
            &&& forall|a: int, b: int|
                0 <= a < b < order.len() ==> lex_le(
                    parts_rank(found[#[trigger] order[a]].parts, found[order[a]].parts.len()),
                    parts_rank(found[#[trigger] order[b]].parts, found[order[b]].parts.len()),
                )
        }),
{
    let order = new_order(drives, m, found);
    let positions = new_positions(drives, m, found, found.len());
    let keys = position_ranks(found, positions);
    let sorted = order_of(keys);
    lemma_new_positions(drives, m, found, found.len());
    lemma_order_of(keys);
    lemma_covers_injective(sorted, 0, keys.len() as int);
    assert forall|a: int, b: int| 0 <= a < b < order.len() implies order[a] != order[b] by {
        assert(sorted[a] != sorted[b]);
        if sorted[a] < sorted[b] {
            assert(positions[sorted[a]] < positions[sorted[b]]);
        } else {
            assert(positions[sorted[b]] < positions[sorted[a]]);
        }
    }
    assert forall|a: int, b: int| 0 <= a < b < order.len() implies lex_le(
        parts_rank(found[#[trigger] order[a]].parts, found[order[a]].parts.len()),
        parts_rank(found[#[trigger] order[b]].parts, found[order[b]].parts.len()),
    ) by {
        assert(comes_before(keys, sorted[a], sorted[b]));
        lemma_lex_reflexive(keys[sorted[a]]);
    }
    assert(order.contains(i) <==> is_new(drives, m, found[i])) by {
        if order.contains(i) {
            let k = choose|k: int| 0 <= k < order.len() && order[k] == i;
            assert(0 <= sorted[k] < positions.len());
            assert(is_new(drives, m, found[positions[sorted[k]]]));
        }
        if is_new(drives, m, found[i]) {
            assert(positions.contains(i));
            let p = choose|p: int| 0 <= p < positions.len() && positions[p] == i;
            assert(sorted.contains(p));
            let k = choose|k: int| 0 <= k < sorted.len() && sorted[k] == p;
            assert(order[k] == i);
        }
    }
    if 0 <= e < m.entries.len() && belongs_to(drives, found[i], m.entries[e]) {
        let n = found[i].components.len();
        let names = entry_components(drives, m.entries[e].directory, m.entries[e].file_name)->Ok_0;
        let parts = Seq::new(names.len(), |k: int| Some(names[k]));
        assert forall|k: int| 0 <= k < n implies #[trigger] parts[k] == found[i].components[k] by {
            assert(found[i].components[k] is Some);
        }
        lemma_same_names(parts, found[i].components, n);
        assert(entry_path(drives, m.entries[e]) == joined(found[i].components, n));
        assert(is_known(drives, m, joined(found[i].components, n)));
    }
}

/// The sort key of a path orders it by its parts: what two paths have in common in
/// front is passed over, a path that ends comes before one that goes on, and else the
/// first parts that differ decide, byte by byte, a part before those it begins.
pub proof fn law_paths_are_ordered_part_by_part(
    front: Seq<Seq<u8>>,
    part: Seq<u8>,
    x: u8,
    y: u8,
    a: Seq<u8>,
    b: Seq<u8>,
)
    requires
        x < y,
    ensures
        ({
            let smaller = front.push(part.push(x) + a);
            let larger = front.push(part.push(y) + b);
            let shorter = front.push(part);
            &&& lex_le(parts_rank(smaller, smaller.len()), parts_rank(larger, larger.len()))
            &&& !lex_le(parts_rank(larger, larger.len()), parts_rank(smaller, smaller.len()))
            &&& lex_le(parts_rank(front, front.len()), parts_rank(shorter, shorter.len()))
            &&& !lex_le(parts_rank(smaller, smaller.len()), parts_rank(shorter, shorter.len()))
        }),
{
    let smaller = front.push(part.push(x) + a);
    let larger = front.push(part.push(y) + b);
    let shorter = front.push(part);
    let base = parts_rank(front, front.len());
    lemma_rank_pushed(front, part.push(x) + a);
    lemma_rank_pushed(front, part.push(y) + b);
    lemma_rank_pushed(front, part);
    let counted = Seq::new(part.len(), |i: int| part[i] + 1);
    let more_a = Seq::new(a.len(), |i: int| a[i] + 1) + seq![0int];
    let more_b = Seq::new(b.len(), |i: int| b[i] + 1) + seq![0int];
    let common = base + counted;
    assert(parts_rank(smaller, smaller.len()) =~= common + seq![x + 1] + more_a);
    assert(parts_rank(larger, larger.len()) =~= common + seq![y + 1] + more_b);
    assert(parts_rank(shorter, shorter.len()) =~= common + seq![0int] + Seq::<int>::empty());
    law_keys_are_ordered_like_words(common, x + 1, y + 1, more_a, more_b);
    law_keys_are_ordered_like_words(common, y + 1, x + 1, more_b, more_a);
    law_keys_are_ordered_like_words(common, x + 1, 0, more_a, Seq::empty());
    law_keys_are_ordered_like_words(base, 0, 0, counted + seq![0int], Seq::empty());
    assert(parts_rank(shorter, shorter.len()) =~= base + (counted + seq![0int]));
}

proof fn lemma_rank_pushed(front: Seq<Seq<u8>>, part: Seq<u8>)
    ensures
        parts_rank(front.push(part), front.len() + 1) == parts_rank(front, front.len()) + Seq::new(
            part.len(),
            |i: int| part[i] + 1,
        ) + seq![0int],
{
    lemma_rank_prefix(front, front.push(part), front.len());
}

proof fn lemma_rank_prefix(a: Seq<Seq<u8>>, b: Seq<Seq<u8>>, count: nat)
    requires
        count <= a.len(),
        count <= b.len(),
        forall|i: int| 0 <= i < count ==> #[trigger] a[i] == b[i],
    ensures
        parts_rank(a, count) == parts_rank(b, count),
    decreases count,
{
    if count > 0 {
        lemma_rank_prefix(a, b, (count - 1) as nat);
        assert(a[count - 1] == b[count - 1]);
    }
}

/// Every 16-bit ID below the next free one is taken.
proof fn lemma_next_free_is_first(inputs: Seq<InputView>, from: int, id: u32)
    requires
        0 <= from <= id,
        id < next_free(inputs, from),
        id <= u16::MAX,
    ensures
        id_used(inputs, id),
    decreases id - from,
{
    if from < id {
        if id_used(inputs, from as u32) {
            lemma_next_free_is_first(inputs, from + 1, id);
        }
    }
}

/// With an index by ID, new files get the smallest 16-bit IDs that are free, in
/// order: each smaller one is that of another file, or of a new file before it.
pub proof fn law_new_itoc_ids_are_the_smallest(
    m: ManifestView,
    inputs: Seq<InputView>,
    k: nat,
    id: u32,
)
    requires
        m.has_itoc,
        new_id(m, inputs, k) is Ok,
        id < new_id(m, inputs, k)->Ok_0,
    ensures
        id_used(inputs, id) || exists|j: nat|
            j < k && #[trigger] new_id(m, inputs, j) == Ok::<u32, Seq<char>>(id),
    decreases k,
{
    lemma_free_id(inputs, k);
    if k == 0 {
        lemma_next_free_is_first(inputs, 0, id);
    } else {
        let j = (k - 1) as nat;
        lemma_free_id(inputs, j);
        let before = free_id(inputs, j);
        if id < before {
            law_new_itoc_ids_are_the_smallest(m, inputs, j, id);
            if !id_used(inputs, id) {
                let h = choose|h: nat|
                    h < j && #[trigger] new_id(m, inputs, h) == Ok::<u32, Seq<char>>(id);
                assert(h < k && new_id(m, inputs, h) == Ok::<u32, Seq<char>>(id));
            }
        } else if id == before {
            assert(new_id(m, inputs, j) == Ok::<u32, Seq<char>>(id));
        } else {
            lemma_next_free_is_first(inputs, before + 1, id);
        }
    }
}

proof fn lemma_largest_is_one(inputs: Seq<InputView>, count: nat) -> (i: int)
    requires
        0 < count <= inputs.len(),
    ensures
        0 <= i < count,
        largest_id(inputs, count) == inputs[i].id,
    decreases count,
{
    if count == 1 {
        reveal_with_fuel(largest_id, 2);
        0
    } else {
        let i = lemma_largest_is_one(inputs, (count - 1) as nat);
        if inputs[count - 1].id > largest_id(inputs, (count - 1) as nat) {
            count - 1
        } else {
            i
        }
    }
}

/// Without an index by ID, new files are numbered on from the largest ID, and from
/// zero where there is no other file.
pub proof fn law_new_toc_ids_count_on(m: ManifestView, inputs: Seq<InputView>, k: nat, i: int) -> (j: int)
    requires
        !m.has_itoc,
        new_id(m, inputs, k) is Ok,
    ensures
        inputs.len() == 0 ==> new_id(m, inputs, k)->Ok_0 == k,
        inputs.len() > 0 ==> 0 <= j < inputs.len() && new_id(m, inputs, k)->Ok_0 == inputs[j].id + 1
            + k,
        0 <= i < inputs.len() ==> inputs[i].id + k < new_id(m, inputs, k)->Ok_0,
{
    if inputs.len() > 0 {
        if 0 <= i < inputs.len() {
            lemma_largest_id(inputs, inputs.len(), i);
        }
        lemma_largest_is_one(inputs, inputs.len())
    } else {
        0
    }
}

/// A new file is packed as it is: under the last part of its path, without a user
/// string, and with the ID that it is given. What has no text for a path, or is too
/// large, is refused.
pub proof fn law_new_files_are_packed_as_they_are(file: FoundView, id: u32)
    requires
        file.components.len() > 0,
    ensures
        new_input(file, id) is Ok <==> file.size <= 0xffff_ffff && all_text(
            file.components,
            file.components.len(),
        ),
        new_input(file, id) matches Ok(input) ==> {
            &&& Some(input.file_name) == file.components.last()
            &&& input.source_path == file.path
            &&& input.size == file.size
            &&& input.extract_size == file.size
            &&& input.user_string.len() == 0
            &&& input.raw_payload is None
            &&& input.id == id
        },
{
    let n = file.components.len();
    if file.components.last() is Some && all_text(file.components, (n - 1) as nat) {
        assert forall|i: int| 0 <= i < n implies (#[trigger] file.components[i]) is Some by {
            if i == n - 1 {
                assert(file.components[i] == file.components.last());
            }
        }
    }
    if all_text(file.components, n) {
        assert(file.components[n - 1] is Some);
    }
}

} // verus!
