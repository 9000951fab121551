//! Which files of a directory are packed, how they are named, and in what order.

use vstd::prelude::*;
use vstd::utf8::{encode_utf8, has_width_1_encoding, leading_byte_width_1};

use crate::cpk::collect::{
    all_text, collected, engine_rank, engine_ranks, folded_path, folded_rank, joined, kept,
    kept_inputs, listing_problem, packing_order, FoundView,
};
use crate::cpk::collect_laws::{lemma_kept, lemma_no_problem};
use crate::cpk::input::InputView;
use crate::cpk::layout::lemma_covers_injective;
use crate::manifest::fields::{lemma_parts_joined, lemma_single_part, parts_of};
use crate::utils::sort::{comes_before, lemma_lex_reflexive, lemma_order_of, lex_le, order_of};
use crate::utils::text::lemma_encode_append;

verus! {

/// The path of a file in an archive.
pub open spec fn whole_path(file: InputView) -> Seq<char> {
    if file.directory.len() == 0 {
        file.file_name
    } else {
        file.directory + seq!['/'] + file.file_name
    }
}

/// The bytes of a path as the engine compares them: small letters count as large
/// ones, and backslashes as slashes.
pub open spec fn compared(path: Seq<char>) -> Seq<int> {
    Seq::new(
        encode_utf8(path).len(),
        |i: int|
            {
                let b = encode_utf8(path)[i] as int;
                if b == '\\' as int {
                    '/' as int
                } else if 'a' as int <= b <= 'z' as int {
                    b - 'a' as int + 'A' as int
                } else {
                    b
                }
            },
    )
}

/// Sequences of numbers above zero are ordered as they are with a zero and more
/// behind them.
proof fn lemma_order_of_fronts(a: Seq<int>, x: Seq<int>, b: Seq<int>, y: Seq<int>)
    requires
        forall|i: int| 0 <= i < a.len() ==> #[trigger] a[i] > 0,
        forall|i: int| 0 <= i < b.len() ==> #[trigger] b[i] > 0,
        lex_le(a + seq![0int] + x, b + seq![0int] + y),
    ensures
        lex_le(a, b),
    decreases a.len(),
{
    if a.len() > 0 {
        let s = a + seq![0int] + x;
        let t = b + seq![0int] + y;
        assert(s[0] == a[0]);
        if b.len() == 0 {
            assert(t[0] == 0);
        } else {
            assert(t[0] == b[0]);
            if a[0] == b[0] {
                assert(s.drop_first() =~= a.drop_first() + seq![0int] + x);
                assert(t.drop_first() =~= b.drop_first() + seq![0int] + y);
                assert forall|i: int| 0 <= i < a.drop_first().len() implies #[trigger] a.drop_first()[i]
                    > 0 by {
                    assert(a[i + 1] > 0);
                }
                assert forall|i: int| 0 <= i < b.drop_first().len() implies #[trigger] b.drop_first()[i]
                    > 0 by {
                    assert(b[i + 1] > 0);
                }
                lemma_order_of_fronts(a.drop_first(), x, b.drop_first(), y);
            }
        }
    }
}

/// Counting from one keeps the order.
proof fn lemma_order_counted(a: Seq<int>, b: Seq<int>, x: Seq<int>, y: Seq<int>)
    requires
        x == Seq::new(a.len(), |i: int| a[i] + 1),
        y == Seq::new(b.len(), |i: int| b[i] + 1),
        lex_le(x, y),
    ensures
        lex_le(a, b),
    decreases a.len(),
{
    if a.len() > 0 && b.len() > 0 {
        assert(x[0] == a[0] + 1 && y[0] == b[0] + 1);
        if a[0] == b[0] {
            let (c, d) = (a.drop_first(), b.drop_first());
            assert(x.drop_first() =~= Seq::new(c.len(), |i: int| c[i] + 1));
            assert(y.drop_first() =~= Seq::new(d.len(), |i: int| d[i] + 1));
            lemma_order_counted(c, d, x.drop_first(), y.drop_first());
        }
    }
}

proof fn lemma_slash_byte()
    ensures
        encode_utf8(seq!['/']) == seq![0x2fu8],
{
    let s = seq!['/'];
    let v = '/' as u32;
    assert(v == 0x2f);
    assert(has_width_1_encoding(v));
    assert(leading_byte_width_1(v) == 0x2f) by {
        assert((0x2fu32 & 0x7f) as u8 == 0x2f) by (bit_vector);
    }
    reveal_with_fuel(encode_utf8, 2);
    assert(s.drop_first() =~= Seq::empty());
    assert(encode_utf8(s) =~= seq![0x2fu8]);
}

/// The path that is compared is the whole path.
proof fn lemma_folded_path(file: InputView)
    ensures
        folded_path(file) == Seq::new(
            compared(whole_path(file)).len(),
            |i: int| compared(whole_path(file))[i] + 1,
        ),
{
    let path = whole_path(file);
    let counted = Seq::new(compared(path).len(), |i: int| compared(path)[i] + 1);
    if file.directory.len() == 0 {
        assert(folded_path(file) =~= counted);
    } else {
        let d = encode_utf8(file.directory);
        let n = encode_utf8(file.file_name);
        lemma_encode_append(file.directory, seq!['/']);
        lemma_encode_append(file.directory + seq!['/'], file.file_name);
        lemma_slash_byte();
        assert(encode_utf8(path) == d + seq![0x2fu8] + n);
        assert(folded_rank(file.directory).len() == d.len());
        assert(folded_rank(file.file_name).len() == n.len());
        assert(folded_path(file) =~= counted);
    }
}

/// The files of a directory are packed in the order in which the engine compares
/// their paths: byte by byte, whatever the case of letters and the slant of
/// slashes.
pub proof fn law_packed_files_are_sorted_by_path(found: Seq<FoundView>, i: int, j: int)
    requires
        collected(found) is Ok,
        0 <= i < j < collected(found)->Ok_0.len(),
    ensures
        lex_le(
            compared(whole_path(collected(found)->Ok_0[i])),
            compared(whole_path(collected(found)->Ok_0[j])),
        ),
{
    let files = collected(found)->Ok_0;
    let inputs = kept_inputs(found);
    let keys = engine_ranks(inputs);
    let order = order_of(keys);
    lemma_order_of(keys);
    let (a, b) = (inputs[order[i]], inputs[order[j]]);
    assert(comes_before(keys, order[i], order[j]));
    assert(keys[order[i]] == engine_rank(a) && keys[order[j]] == engine_rank(b));
    lemma_lex_reflexive(engine_rank(a));
    assert(lex_le(engine_rank(a), engine_rank(b)));
    assert(whole_path(files[i]) == whole_path(a));
    assert(whole_path(files[j]) == whole_path(b));
    lemma_folded_path(a);
    lemma_folded_path(b);
    let (p, q) = (compared(whole_path(a)), compared(whole_path(b)));
    assert forall|k: int| 0 <= k < folded_path(a).len() implies #[trigger] folded_path(a)[k] > 0 by {
        assert(folded_path(a)[k] == p[k] + 1);
    }
    assert forall|k: int| 0 <= k < folded_path(b).len() implies #[trigger] folded_path(b)[k] > 0 by {
        assert(folded_path(b)[k] == q[k] + 1);
    }
    let (x, y) = (
        engine_rank(a).skip((folded_path(a).len() + 1) as int),
        engine_rank(b).skip((folded_path(b).len() + 1) as int),
    );
    assert(engine_rank(a) =~= folded_path(a) + seq![0int] + x);
    assert(engine_rank(b) =~= folded_path(b) + seq![0int] + y);
    lemma_order_of_fronts(folded_path(a), x, folded_path(b), y);
    lemma_order_counted(p, q, folded_path(a), folded_path(b));
}

/// The listed file is to be packed: it is not left out, and is no manifest.
pub open spec fn is_packable(file: FoundView) -> bool {
    &&& !file.left_out
    &&& file.components.last() != Some(".cri-cpk-manifest-v1"@)
    &&& file.components.last() != Some(".cri-cpk-manifest-v2"@)
}

/// The file to pack is the listed one: its bytes are packed as they are, under the
/// last part of its path.
pub open spec fn is_listed_file(input: InputView, file: FoundView) -> bool {
    &&& Some(input.file_name) == file.components.last()
    &&& input.source_path == file.path
    &&& input.size == file.size
    &&& input.extract_size == file.size
    &&& input.user_string.len() == 0
    &&& input.raw_payload is None
}

/// The files to pack are those of the listing that are to be packed, each once, and
/// are numbered from zero.
pub proof fn law_listed_files_are_packed_once(found: Seq<FoundView>)
    requires
        collected(found) is Ok,
    ensures
        ({
            let files = collected(found)->Ok_0;
            let order = packing_order(found);
            &&& files.len() == order.len()
            &&& order.no_duplicates()
            &&& forall|k: int|
                0 <= k < files.len() ==> {
                    &&& 0 <= order[k] < found.len()
                    &&& is_packable(found[order[k]])
                    &&& is_listed_file(#[trigger] files[k], found[order[k]])
                    &&& files[k].id == k
                }
            &&& forall|n: int|
                0 <= n < found.len() && is_packable(#[trigger] found[n]) ==> order.contains(n)
        }),
{
    let files = collected(found)->Ok_0;
    let positions = kept(found, found.len());
    let keys = engine_ranks(kept_inputs(found));
    let order = order_of(keys);
    let all = packing_order(found);
    lemma_kept(found, found.len());
    lemma_order_of(keys);
    lemma_no_problem(found, 0);
    lemma_covers_injective(order, 0, keys.len() as int);
    assert forall|k: int| 0 <= k < files.len() implies {
        &&& 0 <= all[k] < found.len()
        &&& is_packable(found[all[k]])
        &&& is_listed_file(#[trigger] files[k], found[all[k]])
        &&& files[k].id == k
    } by {
        assert(0 <= order[k] < positions.len());
        let n = positions[order[k]];
        assert(!found[n].skipped());
        assert(found[n].problem() is None);
    }
    assert forall|a: int, b: int| 0 <= a < b < all.len() implies all[a] != all[b] by {
        assert(order[a] != order[b]);
        if order[a] < order[b] {
            assert(positions[order[a]] < positions[order[b]]);
        } else {
            assert(positions[order[b]] < positions[order[a]]);
        }
    }
    assert forall|n: int| 0 <= n < found.len() && is_packable(#[trigger] found[n]) implies all.contains(
        n,
    ) by {
        assert(!found[n].skipped());
        assert(positions.contains(n));
        let p = choose|p: int| 0 <= p < positions.len() && positions[p] == n;
        assert(order.contains(p));
        let k = choose|k: int| 0 <= k < order.len() && order[k] == p;
        assert(all[k] == n);
    }
}

/// A directory is refused just where a file that is to be packed has a path that
/// is no text, or is too large.
pub proof fn law_what_cannot_be_packed_is_refused(found: Seq<FoundView>)
    requires
        found.len() <= u32::MAX,
    ensures
        collected(found) is Err <==> exists|n: int|
            0 <= n < found.len() && is_packable(#[trigger] found[n]) && ({
                ||| found[n].components.last() is None
                ||| !all_text(found[n].components, (found[n].components.len() - 1) as nat)
                ||| found[n].size > 0xffff_ffff
            }),
{
    lemma_no_problem(found, 0);
    let positions = kept(found, found.len());
    lemma_kept_count(found, found.len());
    if collected(found) is Err {
        assert(listing_problem(found, 0) is Some);
        let n = choose|n: int|
            0 <= n < found.len() && !(#[trigger] found[n]).skipped() && found[n].problem() is Some;
        assert(is_packable(found[n]));
    }
}

proof fn lemma_kept_count(found: Seq<FoundView>, count: nat)
    ensures
        kept(found, count).len() <= count,
    decreases count,
{
    if count > 0 {
        lemma_kept_count(found, (count - 1) as nat);
    }
}

/// The parts of a path that are joined by slashes are found again between them.
pub proof fn law_joined_parts_are_found_again(parts: Seq<Option<Seq<char>>>, count: nat)
    requires
        0 < count <= parts.len(),
        all_text(parts, count),
        forall|i: int, k: int|
            0 <= i < count && 0 <= k < parts[i]->Some_0.len() ==> #[trigger] parts[i]->Some_0[k]
                != '/',
    ensures
        parts_of(joined(parts, count), '/') == Seq::new(count, |i: int| parts[i]->Some_0),
    decreases count,
{
    let last = parts[count - 1]->Some_0;
    let texts = Seq::new(count, |i: int| parts[i]->Some_0);
    assert(parts[count - 1] is Some);
    assert forall|k: int| 0 <= k < last.len() implies #[trigger] last[k] != '/' by {
        assert(parts[count - 1]->Some_0[k] != '/');
    }
    if count == 1 {
        lemma_single_part(last, '/');
        assert(texts =~= seq![last]);
    } else {
        let fewer = (count - 1) as nat;
        law_joined_parts_are_found_again(parts, fewer);
        lemma_parts_joined(joined(parts, fewer), '/', last, 0);
        assert(Seq::new(fewer, |i: int| parts[i]->Some_0).push(last) =~= texts);
    }
}

/// The directory of a file to pack is the path of the listed file without its last
/// part: its parts, with slashes between them.
pub proof fn law_directories_are_the_parts_in_front(file: FoundView, id: u32)
    requires
        file.components.len() > 0,
        all_text(file.components, file.components.len()),
        forall|i: int, k: int|
            0 <= i < file.components.len() && 0 <= k < file.components[i]->Some_0.len()
                ==> #[trigger] file.components[i]->Some_0[k] != '/',
    ensures
        ({
            let n = file.components.len();
            let directory = file.input(id).directory;
            &&& n == 1 ==> directory.len() == 0
            &&& n > 1 ==> parts_of(directory, '/') == Seq::new(
                (n - 1) as nat,
                |i: int| file.components[i]->Some_0,
            )
        }),
{
    if file.components.len() > 1 {
        law_joined_parts_are_found_again(
            file.components,
            (file.components.len() - 1) as nat,
        );
    }
}

} // verus!
