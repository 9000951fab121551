//! What holds of the files to pack, whatever the order of the listing.

use vstd::prelude::*;
use vstd::seq_lib::group_to_multiset_ensures;
use vstd::utf8::encode_utf8;

use crate::cpk::collect::{
    collected, engine_rank, engine_ranks, folded_path, kept, kept_inputs, listing_problem,
    packing_order, plain_rank, FoundView,
};
use crate::cpk::encrypt::data::DummyDecryptor;
use crate::cpk::input::{default_profile, InputView};
use crate::cpk::layout::{lemma_covers_injective, Job};
use crate::cpk::writer::written;
use crate::utils::sort::{
    comes_before, lemma_order_of, lemma_strictly_sorted_unique, lex_le, order_of,
    strictly_sorted,
};
use crate::utils::text::lemma_encode_injective;

verus! {

/// The two files have the same directory and name.
pub open spec fn same_path(a: FoundView, b: FoundView) -> bool {
    a.input(0).directory == b.input(0).directory && a.input(0).file_name == b.input(0).file_name
}

/// No two files that are not passed over have the same directory and name.
pub open spec fn paths_distinct(found: Seq<FoundView>) -> bool {
    forall|i: int, j: int|
        0 <= i < j < found.len() && !(#[trigger] found[i]).skipped() && !(
        #[trigger] found[j]).skipped() ==> !same_path(found[i], found[j])
}

/// The sequence holds no zero.
spec fn no_zero(s: Seq<int>) -> bool {
    forall|i: int| 0 <= i < s.len() ==> #[trigger] s[i] != 0
}

/// What stands before the first zero, and what stands behind it, is told apart.
proof fn lemma_first_zero(a: Seq<int>, b: Seq<int>, c: Seq<int>, d: Seq<int>)
    requires
        no_zero(a),
        no_zero(c),
        a + seq![0int] + b == c + seq![0int] + d,
    ensures
        a == c,
        b == d,
{
    let s = a + seq![0int] + b;
    let t = c + seq![0int] + d;
    assert(s[a.len() as int] == 0 && t[c.len() as int] == 0);
    if a.len() < c.len() {
        assert(t[a.len() as int] == c[a.len() as int]);
    } else if c.len() < a.len() {
        assert(s[c.len() as int] == a[c.len() as int]);
    }
    assert(a =~= s.take(a.len() as int));
    assert(c =~= t.take(a.len() as int));
    assert(b =~= s.skip((a.len() + 1) as int));
    assert(d =~= t.skip((a.len() + 1) as int));
}

/// Texts with the same rank are the same.
proof fn lemma_plain_rank_injective(a: Seq<char>, b: Seq<char>)
    requires
        plain_rank(a) == plain_rank(b),
    ensures
        a == b,
{
    let x = encode_utf8(a);
    let y = encode_utf8(b);
    assert(plain_rank(a).len() == x.len() && plain_rank(b).len() == y.len());
    assert forall|i: int| 0 <= i < x.len() implies x[i] == y[i] by {
        assert(plain_rank(a)[i] == x[i] + 1);
        assert(plain_rank(b)[i] == y[i] + 1);
    }
    assert(x =~= y);
    lemma_encode_injective(a, b);
}

/// Files with the same sort key have the same directory and name.
proof fn lemma_rank_injective(a: InputView, b: InputView)
    requires
        engine_rank(a) == engine_rank(b),
    ensures
        a.directory == b.directory,
        a.file_name == b.file_name,
{
    lemma_first_zero(
        folded_path(a),
        plain_rank(a.directory) + seq![0int] + plain_rank(a.file_name),
        folded_path(b),
        plain_rank(b.directory) + seq![0int] + plain_rank(b.file_name),
    );
    lemma_first_zero(
        plain_rank(a.directory),
        plain_rank(a.file_name),
        plain_rank(b.directory),
        plain_rank(b.file_name),
    );
    lemma_plain_rank_injective(a.directory, b.directory);
    lemma_plain_rank_injective(a.file_name, b.file_name);
}

/// The positions of the files that are not passed over: ascending, and all.
pub proof fn lemma_kept(found: Seq<FoundView>, count: nat)
    requires
        count <= found.len(),
    ensures
        forall|k: int|
            0 <= k < kept(found, count).len() ==> 0 <= #[trigger] kept(found, count)[k] < count
                && !found[kept(found, count)[k]].skipped(),
        forall|k: int, l: int|
            0 <= k < l < kept(found, count).len() ==> #[trigger] kept(found, count)[k]
                < #[trigger] kept(found, count)[l],
        forall|i: int|
            0 <= i < count && !found[i].skipped() ==> #[trigger] kept(found, count).contains(i),
    decreases count,
{
    if count > 0 {
        lemma_kept(found, (count - 1) as nat);
        let before = kept(found, (count - 1) as nat);
        let after = kept(found, count);
        assert forall|i: int| 0 <= i < count && !found[i].skipped() implies #[trigger] after.contains(
            i,
        ) by {
            if i == count - 1 {
                assert(after[before.len() as int] == i);
            } else {
                assert(before.contains(i));
                let k = choose|k: int| 0 <= k < before.len() && before[k] == i;
                assert(after[k] == i);
            }
        }
    }
}

/// The files to pack, in packing order.
spec fn packed_files(found: Seq<FoundView>) -> Seq<FoundView> {
    Seq::new(packing_order(found).len(), |k: int| found[packing_order(found)[k]])
}

/// The sort key of a listed file.
spec fn found_rank() -> spec_fn(FoundView) -> Seq<int> {
    |f: FoundView| engine_rank(f.input(0))
}

/// The files to pack are those that are not passed over, strictly sorted.
proof fn lemma_packed_files(found: Seq<FoundView>)
    requires
        paths_distinct(found),
    ensures
        strictly_sorted(packed_files(found), found_rank()),
        forall|x: FoundView| #[trigger]
            packed_files(found).contains(x) <==> found.contains(x) && !x.skipped(),
{
    let positions = kept(found, found.len());
    let inputs = kept_inputs(found);
    let keys = engine_ranks(inputs);
    let order = order_of(keys);
    let files = packed_files(found);
    lemma_kept(found, found.len());
    lemma_order_of(keys);
    lemma_covers_injective(order, 0, keys.len() as int);
    assert forall|a: int, b: int| 0 <= a < b < files.len() implies lex_le(
        found_rank()(#[trigger] files[a]),
        found_rank()(#[trigger] files[b]),
    ) && found_rank()(files[a]) != found_rank()(files[b]) by {
        let i = order[a];
        let j = order[b];
        assert(comes_before(keys, i, j));
        assert(files[a] == found[positions[i]] && files[b] == found[positions[j]]);
        assert(keys[i] == engine_rank(files[a].input(0)));
        assert(keys[j] == engine_rank(files[b].input(0)));
        if keys[i] == keys[j] {
            lemma_rank_injective(files[a].input(0), files[b].input(0));
            assert(i != j);
            if positions[i] < positions[j] {
                assert(!same_path(found[positions[i]], found[positions[j]]));
            } else {
                assert(!same_path(found[positions[j]], found[positions[i]]));
            }
        }
    }
    assert forall|x: FoundView| #[trigger] files.contains(x) <==> found.contains(x) && !x.skipped()
        by {
        if files.contains(x) {
            let k = choose|k: int| 0 <= k < files.len() && files[k] == x;
            assert(0 <= order[k] < keys.len());
            assert(found[positions[order[k]]] == x);
        }
        if found.contains(x) && !x.skipped() {
            let i = choose|i: int| 0 <= i < found.len() && found[i] == x;
            assert(positions.contains(i));
            let p = choose|p: int| 0 <= p < positions.len() && positions[p] == i;
            assert(order.contains(p));
            let k = choose|k: int| 0 <= k < order.len() && order[k] == p;
            assert(files[k] == x);
        }
    }
}

/// A listing has no problem just where no file of it has one.
pub proof fn lemma_no_problem(found: Seq<FoundView>, from: int)
    requires
        0 <= from <= found.len(),
    ensures
        listing_problem(found, from) is None <==> forall|i: int|
            from <= i < found.len() && !(#[trigger] found[i]).skipped() ==> found[i].problem() is None,
    decreases found.len() - from,
{
    if from < found.len() {
        lemma_no_problem(found, from + 1);
        if listing_problem(found, from) is None {
            assert forall|i: int|
                from <= i < found.len() && !(#[trigger] found[i]).skipped() implies found[i].problem() is None by {
                if i > from {
                    assert(from + 1 <= i);
                }
            }
        }
    }
}

/// An item that a sequence holds twice stands at two places.
proof fn lemma_twice<T>(s: Seq<T>, x: T) -> (places: (int, int))
    requires
        s.to_multiset().count(x) >= 2,
    ensures
        0 <= places.0 < places.1 < s.len(),
        s[places.0] == x,
        s[places.1] == x,
{
    broadcast use group_to_multiset_ensures;

    assert(s.contains(x));
    let i = choose|i: int| 0 <= i < s.len() && s[i] == x;
    let rest = s.remove(i);
    assert(rest.to_multiset().count(x) >= 1);
    assert(rest.contains(x));
    let j = choose|j: int| 0 <= j < rest.len() && rest[j] == x;
    if j < i {
        (j, i)
    } else {
        (i, j + 1)
    }
}

/// The files of a list of items.
spec fn files_of<T>(items: Seq<T>, file: spec_fn(T) -> FoundView) -> Seq<FoundView> {
    Seq::new(items.len(), |i: int| file(items[i]))
}

/// Paths that are distinct in one listing are so in each rearrangement of it.
proof fn lemma_distinct_rearranged<T>(a: Seq<T>, b: Seq<T>, file: spec_fn(T) -> FoundView)
    requires
        a.to_multiset() == b.to_multiset(),
        paths_distinct(files_of(a, file)),
    ensures
        paths_distinct(files_of(b, file)),
{
    broadcast use group_to_multiset_ensures;

    let f = files_of(a, file);
    let g = files_of(b, file);
    assert forall|i: int, j: int|
        0 <= i < j < g.len() && !(#[trigger] g[i]).skipped() && !(
        #[trigger] g[j]).skipped() implies !same_path(g[i], g[j]) by {
        let x = b[i];
        let y = b[j];
        assert(b.contains(x) && b.contains(y));
        assert(a.to_multiset().count(x) > 0 && a.to_multiset().count(y) > 0);
        assert(a.contains(x) && a.contains(y));
        if x == y {
            let rest = b.remove(j);
            assert(rest[i] == x);
            assert(rest.contains(x));
            assert(rest.to_multiset().count(x) > 0);
            assert(rest.to_multiset() == b.to_multiset().remove(x));
            let places = lemma_twice(a, x);
            assert(!same_path(f[places.0], f[places.1]));
        } else {
            let p = choose|p: int| 0 <= p < a.len() && a[p] == x;
            let q = choose|q: int| 0 <= q < a.len() && a[q] == y;
            if p < q {
                assert(!same_path(f[p], f[q]));
            } else {
                assert(!same_path(f[q], f[p]));
            }
        }
    }
}

/// Listings of the same files give the same files to pack.
proof fn lemma_same_files(a: Seq<FoundView>, b: Seq<FoundView>)
    requires
        forall|x: FoundView| #[trigger] a.contains(x) <==> b.contains(x),
        paths_distinct(a),
        paths_distinct(b),
        listing_problem(a, 0) is None,
    ensures
        collected(a) == collected(b),
        packed_files(a) == packed_files(b),
{
    lemma_packed_files(a);
    lemma_packed_files(b);
    let p = packed_files(a);
    let q = packed_files(b);
    assert forall|x: FoundView| #[trigger] p.contains(x) <==> q.contains(x) by {
        assert(a.contains(x) <==> b.contains(x));
    }
    lemma_strictly_sorted_unique(p, q, found_rank());
    lemma_no_problem(a, 0);
    lemma_no_problem(b, 0);
    assert forall|i: int| 0 <= i < b.len() && !(#[trigger] b[i]).skipped() implies b[i].problem() is None
        by {
        assert(b.contains(b[i]));
        assert(a.contains(b[i]));
        let j = choose|j: int| 0 <= j < a.len() && a[j] == b[i];
        assert(a[j].problem() is None);
    }
    assert(packing_order(a).len() == p.len() && packing_order(b).len() == q.len());
    if p.len() <= u32::MAX + 1 {
        assert forall|k: int| 0 <= k < p.len() implies a[packing_order(a)[k]] == b[packing_order(
            b,
        )[k]] by {
            assert(p[k] == q[k]);
        }
        assert(collected(a)->Ok_0 =~= collected(b)->Ok_0);
    }
}

/// The files to pack, their order and their IDs do not depend on the order in
/// which the directory is listed.
pub proof fn law_listing_order_does_not_matter(a: Seq<FoundView>, b: Seq<FoundView>)
    requires
        a.to_multiset() == b.to_multiset(),
        paths_distinct(a),
        listing_problem(a, 0) is None,
    ensures
        collected(a) == collected(b),
{
    broadcast use group_to_multiset_ensures;

    assert forall|x: FoundView| #[trigger] a.contains(x) <==> b.contains(x) by {
        assert(a.contains(x) <==> a.to_multiset().count(x) > 0);
        assert(b.contains(x) <==> b.to_multiset().count(x) > 0);
    }
    let itself = |f: FoundView| f;
    assert(files_of(a, itself) =~= a);
    assert(files_of(b, itself) =~= b);
    lemma_distinct_rearranged(a, b, itself);
    lemma_same_files(a, b);
}

/// The listed files, each with its contents.
pub open spec fn with_contents(found: Seq<FoundView>, contents: Seq<Seq<u8>>) -> Seq<
    (FoundView, Seq<u8>),
> {
    Seq::new(found.len(), |i: int| (found[i], contents[i]))
}

/// The contents of the files to pack, in packing order.
pub open spec fn packed_contents(found: Seq<FoundView>, contents: Seq<Seq<u8>>) -> Seq<Seq<u8>> {
    let order = packing_order(found);
    Seq::new(order.len(), |k: int| contents[order[k]])
}

/// The archive of a directory does not depend on the order in which the
/// directory is listed: neither the files to pack nor their contents do.
pub proof fn law_directory_archive_is_deterministic(
    a: Seq<FoundView>,
    b: Seq<FoundView>,
    contents_a: Seq<Seq<u8>>,
    contents_b: Seq<Seq<u8>>,
    alignment: u16,
    p5r: bool,
)
    requires
        with_contents(a, contents_a).to_multiset() == with_contents(b, contents_b).to_multiset(),
        paths_distinct(a),
        listing_problem(a, 0) is None,
    ensures
        collected(a) == collected(b),
        packed_contents(a, contents_a) == packed_contents(b, contents_b),
        collected(a) matches Ok(files) ==> {
            let job = Job { files, alignment, profile: default_profile() };
            written::<DummyDecryptor>(job, packed_contents(a, contents_a), p5r, false)
                == written::<DummyDecryptor>(job, packed_contents(b, contents_b), p5r, false)
        },
{
    broadcast use group_to_multiset_ensures;

    let pa = with_contents(a, contents_a);
    let pb = with_contents(b, contents_b);
    let first = |p: (FoundView, Seq<u8>)| p.0;
    assert forall|x: (FoundView, Seq<u8>)| #[trigger] pa.contains(x) <==> pb.contains(x) by {
        assert(pa.contains(x) <==> pa.to_multiset().count(x) > 0);
        assert(pb.contains(x) <==> pb.to_multiset().count(x) > 0);
    }
    assert(files_of(pa, first) =~= a);
    assert(files_of(pb, first) =~= b);
    lemma_distinct_rearranged(pa, pb, first);
    assert forall|x: FoundView| #[trigger] a.contains(x) <==> b.contains(x) by {
        if a.contains(x) {
            let i = choose|i: int| 0 <= i < a.len() && a[i] == x;
            assert(pa.contains(pa[i]));
            assert(pb.contains(pa[i]));
            let j = choose|j: int| 0 <= j < pb.len() && pb[j] == pa[i];
            assert(b[j] == x);
        }
        if b.contains(x) {
            let i = choose|i: int| 0 <= i < b.len() && b[i] == x;
            assert(pb.contains(pb[i]));
            assert(pa.contains(pb[i]));
            let j = choose|j: int| 0 <= j < pa.len() && pa[j] == pb[i];
            assert(a[j] == x);
        }
    }
    lemma_same_files(a, b);
    lemma_packed_at(a);
    lemma_packed_at(b);
    let (order_a, order_b) = (packing_order(a), packing_order(b));
    assert(packed_files(a).len() == order_a.len() && packed_files(b).len() == order_b.len());
    assert forall|k: int| 0 <= k < order_a.len() implies contents_a[order_a[k]]
        == contents_b[order_b[k]] by {
        let (i, j) = (order_a[k], order_b[k]);
        assert(packed_files(a)[k] == a[i] && packed_files(b)[k] == b[j]);
        assert(pa[i] == (a[i], contents_a[i]));
        assert(pa.contains(pa[i]));
        assert(pb.contains(pa[i]));
        let l = choose|l: int| 0 <= l < pb.len() && pb[l] == pa[i];
        assert(pb[l] == (b[l], contents_b[l]));
        assert(b[l] == b[j]);
        if l < j {
            assert(!same_path(b[l], b[j]));
        } else if j < l {
            assert(!same_path(b[j], b[l]));
        }
    }
    assert(packed_contents(a, contents_a) =~= packed_contents(b, contents_b));
}

/// The packing order holds positions of files that are not passed over.
proof fn lemma_packed_at(found: Seq<FoundView>)
    ensures
        forall|k: int|
            0 <= k < packing_order(found).len() ==> 0 <= #[trigger] packing_order(found)[k]
                < found.len() && !found[packing_order(found)[k]].skipped(),
{
    let positions = kept(found, found.len());
    let keys = engine_ranks(kept_inputs(found));
    let order = order_of(keys);
    lemma_kept(found, found.len());
    lemma_order_of(keys);
    assert forall|k: int| 0 <= k < packing_order(found).len() implies 0 <= #[trigger] packing_order(
        found,
    )[k] < found.len() && !found[packing_order(found)[k]].skipped() by {
        assert(0 <= order[k] < keys.len());
        assert(packing_order(found)[k] == positions[order[k]]);
    }
}

} // verus!
