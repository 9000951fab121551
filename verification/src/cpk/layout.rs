//! Where the parts of an archive stand.

use std::collections::HashSet;

use vstd::arithmetic::power2::is_pow2;
use vstd::prelude::*;

use crate::cpk::error::{CpkWriterError, WriterErrorView};
use crate::cpk::header::{CpkChunkKind, CPK_CHUNK_HEADER_SIZE};
use crate::cpk::index::{
    build_chunk, build_header_table, build_itoc_table, build_toc_table, chunk, header_model,
    itoc_fits, itoc_model, lemma_chunk_len, lemma_itoc_table, toc_model, toc_row, HeaderFields,
};
use crate::cpk::input::{
    inputs_view, CpkInputFile, CpkWriteReport, CpkWriterOptions, CpkWriterProfile, InputView,
    ProfileView,
};
use crate::cpk::utf::{data_cells, lemma_width_nonnegative, pool_cells, Cell, Pool, TableModel};
use crate::cpk::utf_laws::lemma_sections;
use crate::utils::align::{aligned, is_power_of_two, lemma_aligned, round_up};
use crate::utils::bytes::{push_bytes, push_zeros, zeros};
use crate::utils::sort::{as_ints, covers, is_order, lemma_order_of, order_of, ranks, stable_order};

verus! {

broadcast use vstd::std_specs::hash::group_hash_axioms;

/// Where the first index begins; file offsets in a TOC count from here.
pub const ENGINE_INDEX_BASE: u64 = 0x800;

/// Where the copyright mark stands, directly before the first index.
pub const COPYRIGHT_MARKER_OFFSET: u64 = 0x7fa;

/// The copyright mark, `(c)CRI`.
pub open spec fn copyright_mark() -> Seq<u8> {
    seq![0x28u8, 0x63u8, 0x29u8, 0x43u8, 0x52u8, 0x49u8]
}

/// `s` with zeros behind it, up to the offset `at`.
pub open spec fn padded(s: Seq<u8>, at: int) -> Seq<u8> {
    s + zeros(at - s.len())
}

/// The sort keys of the files' IDs.
pub open spec fn id_ranks(files: Seq<InputView>) -> Seq<Seq<int>> {
    Seq::new(files.len(), |i: int| seq![files[i].id as int])
}

/// What is wrong with the IDs of the files from `from` on: they must fit in 16
/// bits and differ.
pub open spec fn id_problem(files: Seq<InputView>, from: int) -> Option<WriterErrorView>
    decreases files.len() - from,
{
    if from >= files.len() {
        None
    } else if files[from].id > u16::MAX {
        Some(WriterErrorView::ItocIdTooLarge(files[from].id))
    } else if exists|j: int| 0 <= j < from && (#[trigger] files[j]).id == files[from].id {
        Some(WriterErrorView::DuplicateItocId(files[from].id))
    } else {
        id_problem(files, from + 1)
    }
}

/// An archive to write: its files, its alignment and its profile.
pub struct Job {
    pub files: Seq<InputView>,
    pub alignment: u16,
    pub profile: ProfileView,
}

impl Job {
    pub open spec fn by_name(self) -> bool {
        self.profile.index_mode.by_name()
    }

    pub open spec fn by_id(self) -> bool {
        self.profile.index_mode.by_id()
    }

    pub open spec fn step(self) -> int {
        self.alignment as int
    }

    /// The order in which the files' bytes stand: by ascending ID where there is
    /// an index by ID, else as they are listed.
    pub open spec fn order(self) -> Seq<int> {
        if self.by_id() {
            order_of(id_ranks(self.files))
        } else {
            Seq::new(self.files.len(), |i: int| i)
        }
    }

    /// The TOC before the file offsets are known.
    pub open spec fn toc_probe(self) -> TableModel {
        toc_model(self.files, Seq::new(self.files.len(), |i: int| 0u64))
    }

    /// The ITOC.
    pub open spec fn itoc(self) -> TableModel {
        itoc_model(self.files, self.order(), self.profile.direct_itoc)
    }

    /// Bytes of the TOC chunk.
    pub open spec fn toc_size(self) -> int {
        if self.by_name() {
            CPK_CHUNK_HEADER_SIZE + self.toc_probe().total()
        } else {
            0
        }
    }

    /// Bytes of the ITOC chunk.
    pub open spec fn itoc_size(self) -> int {
        if self.by_id() {
            CPK_CHUNK_HEADER_SIZE + self.itoc().total()
        } else {
            0
        }
    }

    /// Offset of the TOC chunk; zero where there is none.
    pub open spec fn toc_offset(self) -> int {
        if self.by_name() {
            ENGINE_INDEX_BASE as int
        } else {
            0
        }
    }

    /// The first free offset behind the TOC.
    pub open spec fn toc_end(self) -> int {
        if self.by_name() {
            aligned(ENGINE_INDEX_BASE + self.toc_size(), self.step())
        } else {
            ENGINE_INDEX_BASE as int
        }
    }

    /// Offset of the ITOC chunk; zero where there is none.
    pub open spec fn itoc_offset(self) -> int {
        if self.by_id() {
            self.toc_end()
        } else {
            0
        }
    }

    /// The first free offset behind the indexes.
    pub open spec fn itoc_end(self) -> int {
        if self.by_id() {
            aligned(self.toc_end() + self.itoc_size(), self.step())
        } else {
            self.toc_end()
        }
    }

    /// Offset of the first file.
    pub open spec fn content_offset(self) -> int {
        aligned(self.itoc_end(), self.step())
    }

    /// Offset of the file at position `k` of the order; behind the last one,
    /// the size of the archive.
    pub open spec fn cursor(self, k: int) -> int
        decreases k,
    {
        if k <= 0 {
            self.content_offset()
        } else {
            aligned(self.cursor(k - 1) + self.files[self.order()[k - 1]].size, self.step())
        }
    }

    /// All offsets can be computed in 64 bits.
    pub open spec fn cursors_fit(self) -> bool {
        forall|k: int|
            0 <= k < self.files.len() ==> #[trigger] self.cursor(k)
                + self.files[self.order()[k]].size + self.step() - 1 <= u64::MAX
    }

    pub open spec fn archive_size(self) -> int {
        self.cursor(self.files.len() as int)
    }

    /// Offset of the file `i`.
    pub open spec fn offset(self, i: int) -> int {
        self.cursor(self.order().index_of(i))
    }

    /// The file offsets as the TOC stores them.
    pub open spec fn toc_offsets(self) -> Seq<u64> {
        Seq::new(self.files.len(), |i: int| (self.offset(i) - ENGINE_INDEX_BASE) as u64)
    }

    /// The TOC.
    pub open spec fn toc(self) -> TableModel {
        toc_model(self.files, self.toc_offsets())
    }

    /// The offsets and sizes that the header tells.
    pub open spec fn header_fields(self) -> HeaderFields {
        HeaderFields {
            archive_size: self.archive_size() as u64,
            content_offset: self.content_offset() as u64,
            content_size: (self.archive_size() - self.content_offset()) as u64,
            toc_offset: self.toc_offset() as u64,
            toc_size: self.toc_size() as u64,
            itoc_offset: self.itoc_offset() as u64,
            itoc_size: self.itoc_size() as u64,
            alignment: self.alignment,
            file_count: self.files.len() as u32,
        }
    }

    /// The header table.
    pub open spec fn header(self) -> TableModel {
        header_model(self.header_fields(), self.profile)
    }

    /// Why the archive cannot be laid out; `None` where it can.
    pub open spec fn problem(self) -> Option<WriterErrorView> {
        if !is_pow2(self.alignment as int) {
            Some(WriterErrorView::InvalidAlignment(self.alignment as u32))
        } else if self.files.len() == 0 {
            Some(WriterErrorView::EmptyInput)
        } else if self.files.len() > u32::MAX {
            Some(WriterErrorView::TooManyFiles(self.files.len() as usize))
        } else if self.by_id() && id_problem(self.files, 0) is Some {
            id_problem(self.files, 0)
        } else if self.by_name() && !self.toc_probe().fits() {
            Some(WriterErrorView::ArithmeticOverflow)
        } else if self.by_id() && !itoc_fits(self.files, self.order(), self.profile.direct_itoc) {
            Some(WriterErrorView::ArithmeticOverflow)
        } else if self.by_id() && self.content_offset() > u32::MAX {
            Some(WriterErrorView::ItocContentOffsetTooLarge(self.content_offset() as u64))
        } else if !self.cursors_fit() || !self.header().fits() {
            Some(WriterErrorView::ArithmeticOverflow)
        } else if CPK_CHUNK_HEADER_SIZE + self.header().total() > COPYRIGHT_MARKER_OFFSET {
            Some(
                WriterErrorView::HeaderTooLarge(
                    (CPK_CHUNK_HEADER_SIZE + self.header().total()) as usize,
                ),
            )
        } else {
            None
        }
    }

    /// What the archive tells of itself.
    pub open spec fn report(self) -> CpkWriteReport {
        CpkWriteReport {
            files: self.files.len() as u32,
            toc_offset: self.toc_offset() as u64,
            itoc_offset: self.itoc_offset() as u64,
            content_offset: self.content_offset() as u64,
            archive_size: self.archive_size() as u64,
        }
    }

    /// The header chunk and the copyright mark.
    pub open spec fn head(self) -> Seq<u8> {
        padded(chunk(CpkChunkKind::Cpk, self.header().bytes()), COPYRIGHT_MARKER_OFFSET as int)
            + copyright_mark()
    }

    /// The archive up to the end of the TOC chunk.
    pub open spec fn head_and_toc(self) -> Seq<u8> {
        if self.by_name() {
            padded(self.head(), self.toc_offset()) + chunk(CpkChunkKind::Toc, self.toc().bytes())
        } else {
            self.head()
        }
    }

    /// The archive up to the end of the ITOC chunk.
    pub open spec fn head_and_indexes(self) -> Seq<u8> {
        if self.by_id() {
            padded(self.head_and_toc(), self.itoc_offset()) + chunk(
                CpkChunkKind::Itoc,
                self.itoc().bytes(),
            )
        } else {
            self.head_and_toc()
        }
    }

    /// The archive up to the first file.
    pub open spec fn front(self) -> Seq<u8> {
        padded(self.head_and_indexes(), self.content_offset())
    }

    /// The archive up to the end of the first `k` files in order.
    pub open spec fn upto(self, payloads: Seq<Seq<u8>>, k: int) -> Seq<u8>
        decreases k,
    {
        if k <= 0 {
            self.front()
        } else {
            padded(self.upto(payloads, k - 1), self.cursor(k - 1)) + payloads[self.order()[k - 1]]
        }
    }

    /// The archive up to the file at position `k` of the order.
    pub open spec fn before_file(self, payloads: Seq<Seq<u8>>, k: int) -> Seq<u8> {
        padded(self.upto(payloads, k), self.cursor(k))
    }

    /// The archive.
    pub open spec fn archive(self, payloads: Seq<Seq<u8>>) -> Seq<u8> {
        padded(self.upto(payloads, self.files.len() as int), self.archive_size())
    }

    /// There is one payload per file, of the file's packed size.
    pub open spec fn payloads_match(self, payloads: Seq<Seq<u8>>) -> bool {
        &&& payloads.len() == self.files.len()
        &&& forall|i: int|
            0 <= i < payloads.len() ==> (#[trigger] payloads[i]).len() == self.files[i].size
    }
}

/// The order lists every file once.
pub proof fn lemma_order_covers(job: Job)
    ensures
        covers(job.order(), 0, job.files.len() as int),
        job.by_id() ==> is_order(job.order(), id_ranks(job.files)),
{
    if job.by_id() {
        lemma_order_of(id_ranks(job.files));
    } else {
        let order = job.order();
        assert forall|i: int| 0 <= i < job.files.len() implies #[trigger] order.contains(i) by {
            assert(order[i] == i);
        }
    }
}

/// A list of `high - low` indices that holds each of `low..high` holds each once.
pub proof fn lemma_covers_injective(order: Seq<int>, low: int, high: int)
    requires
        covers(order, low, high),
    ensures
        order.no_duplicates(),
{
    let all = Set::new(|i: int| low <= i < high);
    vstd::set_lib::lemma_int_range(low, high);
    assert(all =~= vstd::set_lib::set_int_range(low, high));
    assert(order.to_set() =~= all) by {
        assert forall|i: int| #[trigger] order.to_set().contains(i) <==> all.contains(i) by {
            if all.contains(i) {
                assert(order.contains(i));
            }
            if order.to_set().contains(i) {
                let a = choose|a: int| 0 <= a < order.len() && order[a] == i;
                assert(low <= order[a] < high);
            }
        }
    }
    order.lemma_no_dup_set_cardinality();
}

/// The file at position `k` of the order stands at the offset of that position.
pub proof fn lemma_offset_at(job: Job, k: int)
    requires
        0 <= k < job.files.len(),
    ensures
        0 <= job.order()[k] < job.files.len(),
        job.order().index_of(job.order()[k]) == k,
        job.offset(job.order()[k]) == job.cursor(k),
{
    lemma_order_covers(job);
    lemma_covers_injective(job.order(), 0, job.files.len() as int);
    let order = job.order();
    let i = order[k];
    let j = order.index_of(i);
    assert(order.contains(i));
    assert(0 <= j < order.len() && order[j] == i);
}

/// Every file stands at some position of the order.
pub proof fn lemma_position(job: Job, i: int) -> (k: int)
    requires
        0 <= i < job.files.len(),
    ensures
        0 <= k < job.files.len(),
        job.order()[k] == i,
        job.offset(i) == job.cursor(k),
{
    lemma_order_covers(job);
    assert(job.order().contains(i));
    let k = choose|k: int| 0 <= k < job.order().len() && job.order()[k] == i;
    lemma_offset_at(job, k);
    k
}

/// Two tables whose cells differ in numbers alone.
spec fn alike(a: TableModel, b: TableModel) -> bool {
    &&& a.name == b.name
    &&& a.columns == b.columns
    &&& a.rows.len() == b.rows.len()
    &&& forall|r: int| 0 <= r < a.rows.len() ==> rows_alike(#[trigger] a.rows[r], b.rows[r])
}

spec fn rows_alike(a: Seq<Cell>, b: Seq<Cell>) -> bool {
    &&& a.len() == b.len()
    &&& forall|c: int|
        0 <= c < a.len() ==> (#[trigger] a[c]).kind() == b[c].kind() && (a[c] is Text || a[c] is Blob
            ==> a[c] == b[c])
}

proof fn lemma_alike_cells(p: Pool, a: Seq<Cell>, b: Seq<Cell>, count: nat)
    requires
        rows_alike(a, b),
        count <= a.len(),
    ensures
        pool_cells(p, a, count) == pool_cells(p, b, count),
        data_cells(a, count) == data_cells(b, count),
    decreases count,
{
    if count > 0 {
        lemma_alike_cells(p, a, b, (count - 1) as nat);
        assert(a[count - 1].kind() == b[count - 1].kind());
    }
}

proof fn lemma_alike_names(a: TableModel, b: TableModel, count: nat)
    requires
        alike(a, b),
    ensures
        a.pool_names(count) == b.pool_names(count),
    decreases count,
{
    if count > 0 {
        lemma_alike_names(a, b, (count - 1) as nat);
    }
}

proof fn lemma_alike_rows(a: TableModel, b: TableModel, count: nat)
    requires
        alike(a, b),
        count <= a.rows.len(),
    ensures
        a.pool_rows(count) == b.pool_rows(count),
        a.data_rows(count) == b.data_rows(count),
    decreases count,
{
    if count == 0 {
        lemma_alike_names(a, b, a.columns.len());
    } else {
        lemma_alike_rows(a, b, (count - 1) as nat);
        assert(rows_alike(a.rows[count - 1], b.rows[count - 1]));
        lemma_alike_cells(
            a.pool_rows((count - 1) as nat),
            a.rows[count - 1],
            b.rows[count - 1],
            a.rows[count - 1].len(),
        );
    }
}

proof fn lemma_alike_width(a: TableModel, b: TableModel, count: nat)
    requires
        alike(a, b),
    ensures
        a.width(count) == b.width(count),
    decreases count,
{
    if count > 0 {
        lemma_alike_width(a, b, (count - 1) as nat);
    }
}

/// The size of the TOC does not depend on the file offsets in it.
pub proof fn lemma_toc_total(files: Seq<InputView>, x: Seq<u64>, y: Seq<u64>)
    ensures
        toc_model(files, x).total() == toc_model(files, y).total(),
        toc_model(files, x).fits() == toc_model(files, y).fits(),
{
    let a = toc_model(files, x);
    let b = toc_model(files, y);
    assert forall|r: int| 0 <= r < a.rows.len() implies rows_alike(#[trigger] a.rows[r], b.rows[r])
        && a.row_shaped(r) && b.row_shaped(r) by {
        assert(a.rows[r] == toc_row(files[r], x[r]));
        assert(b.rows[r] == toc_row(files[r], y[r]));
    }
    assert(a.shaped() && b.shaped());
    lemma_alike_rows(a, b, a.rows.len());
    lemma_alike_width(a, b, a.columns.len());
}

/// A table that can be stored takes between 33 bytes and what 32 bits can tell.
pub proof fn lemma_total_bounds(m: TableModel)
    requires
        m.fits(),
    ensures
        32 <= m.total() <= u32::MAX + 8,
{
    lemma_width_nonnegative(m, m.columns.len());
    assert(m.row_size() * m.rows.len() >= 0) by (nonlinear_arith)
        requires
            m.row_size() >= 0,
    ;
}

/// The bounds of the archive's front.
pub proof fn lemma_front_bounds(job: Job)
    requires
        job.alignment > 0,
        job.by_name() ==> job.toc_probe().fits(),
        job.by_id() ==> itoc_fits(job.files, job.order(), job.profile.direct_itoc),
    ensures
        0 <= job.toc_size() <= 0x1_0000_0100,
        0 <= job.itoc_size() <= 0x1_0000_0100,
        ENGINE_INDEX_BASE + job.toc_size() <= job.toc_end() <= 0x1_0002_0000,
        job.toc_end() + job.itoc_size() <= job.itoc_end() <= 0x2_0004_0000,
        job.itoc_end() <= job.content_offset() <= 0x2_0006_0000,
        job.content_offset() % job.step() == 0,
{
    if job.by_name() {
        lemma_total_bounds(job.toc_probe());
        lemma_aligned(ENGINE_INDEX_BASE + job.toc_size(), job.step());
    }
    if job.by_id() {
        lemma_total_bounds(job.itoc());
        lemma_aligned(job.toc_end() + job.itoc_size(), job.step());
    }
    lemma_aligned(job.itoc_end(), job.step());
}

/// Each file begins at a multiple of the alignment, behind the end of the one
/// before it.
pub proof fn lemma_cursor_step(job: Job, k: int)
    requires
        job.alignment > 0,
        job.content_offset() >= 0,
        job.content_offset() % job.step() == 0,
        0 <= k < job.files.len(),
    ensures
        job.cursor(k) >= job.content_offset(),
        job.cursor(k) % job.step() == 0,
        job.cursor(k) + job.files[job.order()[k]].size <= job.cursor(k + 1) < job.cursor(k)
            + job.files[job.order()[k]].size + job.step(),
        job.cursor(k + 1) % job.step() == 0,
    decreases k,
{
    if k > 0 {
        lemma_cursor_step(job, k - 1);
    }
    lemma_aligned(job.cursor(k) + job.files[job.order()[k]].size, job.step());
}

/// The offsets ascend along the order.
pub proof fn lemma_cursor_monotonic(job: Job, j: int, k: int)
    requires
        job.alignment > 0,
        job.content_offset() >= 0,
        job.content_offset() % job.step() == 0,
        0 <= j <= k <= job.files.len(),
    ensures
        job.cursor(j) <= job.cursor(k),
    decreases k - j,
{
    if j < k {
        lemma_cursor_monotonic(job, j, k - 1);
        lemma_cursor_step(job, k - 1);
    }
}

fn check_ids(files: &[CpkInputFile]) -> (r: Option<CpkWriterError>)
    ensures
        match r {
            Some(e) => id_problem(inputs_view(files@), 0) == Some(e@),
            None => id_problem(inputs_view(files@), 0) is None && forall|i: int|
                0 <= i < files@.len() ==> (#[trigger] files@[i]).id <= u16::MAX,
        },
{
    let ghost views = inputs_view(files@);
    let mut used: HashSet<u32> = HashSet::new();
    let mut i: usize = 0;
    while i < files.len()
        invariant
            i <= files@.len(),
            views == inputs_view(files@),
            id_problem(views, 0) == id_problem(views, i as int),
            forall|id: u32|
                used@.contains(id) <==> exists|j: int| 0 <= j < i && (#[trigger] views[j]).id == id,
            forall|j: int| 0 <= j < i ==> (#[trigger] files@[j]).id <= u16::MAX,
        decreases files@.len() - i,
    {
        let id: u32 = files[i].id;
        assert(views[i as int].id == id);
        if id > u16::MAX as u32 {
            return Some(CpkWriterError::ItocIdTooLarge(id));
        }
        let fresh = used.insert(id);
        if !fresh {
            return Some(CpkWriterError::DuplicateItocId(id));
        }
        i = i + 1;
        assert forall|x: u32|
            used@.contains(x) <==> exists|j: int| 0 <= j < i && (#[trigger] views[j]).id == x by {
            if x == id {
                assert(views[i - 1].id == x);
            }
        }
    }
    None
}

/// The order in which the files' bytes stand.
pub fn build_physical_order(files: &[CpkInputFile], profile: &CpkWriterProfile) -> (r: Result<
    Vec<usize>,
    CpkWriterError,
>)
    ensures
        ({
            let job = Job { files: inputs_view(files@), alignment: 0, profile: profile@ };
            match r {
                Ok(order) => {
                    &&& as_ints(order@) == job.order()
                    &&& order@.len() == files@.len()
                    &&& forall|k: int| 0 <= k < order@.len() ==> #[trigger] order@[k] < files@.len()
                    &&& job.by_id() ==> id_problem(job.files, 0) is None && forall|i: int|
                        0 <= i < files@.len() ==> (#[trigger] files@[i]).id <= u16::MAX
                },
                Err(e) => job.by_id() && id_problem(job.files, 0) == Some(e@),
            }
        }),
{
    let ghost job = Job { files: inputs_view(files@), alignment: 0, profile: profile@ };
    proof {
        lemma_order_covers(job);
    }
    if !profile.index_mode.has_itoc() {
        let mut order: Vec<usize> = Vec::new();
        let mut i: usize = 0;
        while i < files.len()
            invariant
                i <= files@.len(),
                order@.len() == i,
                forall|k: int| 0 <= k < i ==> #[trigger] order@[k] == k,
            decreases files@.len() - i,
        {
            order.push(i);
            i = i + 1;
        }
        assert(as_ints(order@) =~= job.order());
        return Ok(order);
    }
    match check_ids(files) {
        Some(e) => {
            return Err(e);
        },
        None => {},
    }
    let mut ids: Vec<u32> = Vec::new();
    let mut i: usize = 0;
    while i < files.len()
        invariant
            i <= files@.len(),
            ids@.len() == i,
            forall|k: int| 0 <= k < i ==> #[trigger] ids@[k] == files@[k].id,
        decreases files@.len() - i,
    {
        ids.push(files[i].id);
        i = i + 1;
    }
    assert(ranks(ids@) =~= id_ranks(job.files));
    let order = stable_order(&ids);
    assert forall|k: int| 0 <= k < order@.len() implies #[trigger] order@[k] < files@.len() by {
        assert(as_ints(order@)[k] == order@[k]);
    }
    Ok(order)
}

/// One step of writing an archive.
#[derive(Debug)]
pub enum WriteStep {
    /// Write these bytes.
    Bytes(Vec<u8>),
    /// Write this many zeros.
    Zeros(u64),
    /// Write the packed bytes of the file with this index.
    Payload(usize),
}

/// What a step writes.
pub open spec fn step_bytes(step: WriteStep, payloads: Seq<Seq<u8>>) -> Seq<u8> {
    match step {
        WriteStep::Bytes(bytes) => bytes@,
        WriteStep::Zeros(count) => zeros(count as int),
        WriteStep::Payload(i) => payloads[i as int],
    }
}

/// What the first `count` steps write.
pub open spec fn steps_bytes(steps: Seq<WriteStep>, payloads: Seq<Seq<u8>>, count: nat) -> Seq<u8>
    decreases count,
{
    if count == 0 {
        Seq::empty()
    } else {
        steps_bytes(steps, payloads, (count - 1) as nat) + step_bytes(steps[count - 1], payloads)
    }
}

/// The indices of the files among the first `count` steps.
pub open spec fn steps_payloads(steps: Seq<WriteStep>, count: nat) -> Seq<int>
    decreases count,
{
    if count == 0 {
        Seq::empty()
    } else {
        let before = steps_payloads(steps, (count - 1) as nat);
        match steps[count - 1] {
            WriteStep::Payload(i) => before.push(i as int),
            _ => before,
        }
    }
}

/// Each file is asked for where its turn comes: behind all that stands in front
/// of it, and nothing else.
pub open spec fn files_in_turn(steps: Seq<WriteStep>, job: Job) -> bool {
    forall|s: int, payloads: Seq<Seq<u8>>|
        #![trigger steps[s], job.payloads_match(payloads)]
        0 <= s < steps.len() && steps[s] is Payload && job.payloads_match(payloads)
            ==> steps_bytes(steps, payloads, s as nat) == job.before_file(
            payloads,
            steps_payloads(steps, s as nat).len() as int,
        )
}

/// How to write an archive.
#[derive(Debug)]
pub struct CpkPlan {
    pub steps: Vec<WriteStep>,
    pub report: CpkWriteReport,
}

impl CpkPlan {
    /// Carrying out the steps writes the archive of `job`, and takes the files
    /// in the order in which they stand.
    pub open spec fn writes(self, job: Job) -> bool {
        &&& self.report == job.report()
        &&& steps_payloads(self.steps@, self.steps@.len()) == job.order()
        &&& files_in_turn(self.steps@, job)
        &&& forall|payloads: Seq<Seq<u8>>|
            #![trigger job.archive(payloads)]
            job.payloads_match(payloads) ==> steps_bytes(self.steps@, payloads, self.steps@.len())
                == job.archive(payloads)
    }
}

/// The offsets of the indexes and of the first file.
fn place_indexes(
    toc_len: Option<u64>,
    itoc_len: Option<u64>,
    alignment: u64,
    Ghost(job): Ghost<Job>,
) -> (places: (u64, u64, u64))
    requires
        job.alignment == alignment,
        alignment > 0,
        job.by_name() ==> job.toc_probe().fits(),
        job.by_id() ==> itoc_fits(job.files, job.order(), job.profile.direct_itoc),
        toc_len is Some <==> job.by_name(),
        itoc_len is Some <==> job.by_id(),
        toc_len matches Some(len) ==> len == job.toc_size(),
        itoc_len matches Some(len) ==> len == job.itoc_size(),
    ensures
        places.0 == job.toc_offset(),
        places.1 == job.itoc_offset(),
        places.2 == job.content_offset(),
{
    proof {
        lemma_front_bounds(job);
    }
    let mut cursor: u64 = ENGINE_INDEX_BASE;
    let mut toc_offset: u64 = 0;
    let mut itoc_offset: u64 = 0;
    match toc_len {
        Some(len) => {
            toc_offset = cursor;
            cursor = match round_up(cursor + len, alignment) {
                Some(v) => v,
                None => 0,
            };
        },
        None => {},
    }
    assert(cursor == job.toc_end());
    match itoc_len {
        Some(len) => {
            itoc_offset = cursor;
            cursor = match round_up(cursor + len, alignment) {
                Some(v) => v,
                None => 0,
            };
        },
        None => {},
    }
    assert(cursor == job.itoc_end());
    let content_offset: u64 = match round_up(cursor, alignment) {
        Some(v) => v,
        None => 0,
    };
    (toc_offset, itoc_offset, content_offset)
}

/// The offset of each file in order, and the size of the archive.
fn place_files(
    files: &[CpkInputFile],
    order: &Vec<usize>,
    content_offset: u64,
    alignment: u64,
    Ghost(job): Ghost<Job>,
) -> (cursors: Option<Vec<u64>>)
    requires
        job.files == inputs_view(files@),
        job.alignment == alignment,
        alignment > 0,
        as_ints(order@) == job.order(),
        order@.len() == files@.len(),
        forall|k: int| 0 <= k < order@.len() ==> #[trigger] order@[k] < files@.len(),
        content_offset == job.content_offset(),
    ensures
        match cursors {
            Some(v) => {
                &&& job.cursors_fit()
                &&& v@.len() == files@.len() + 1
                &&& forall|k: int| 0 <= k <= files@.len() ==> #[trigger] v@[k] == job.cursor(k)
            },
            None => !job.cursors_fit(),
        },
{
    let mut cursors: Vec<u64> = Vec::new();
    let mut cursor: u64 = content_offset;
    cursors.push(cursor);
    let mut k: usize = 0;
    while k < order.len()
        invariant
            k <= order@.len(),
            job.files == inputs_view(files@),
            job.alignment == alignment,
            alignment > 0,
            as_ints(order@) == job.order(),
            order@.len() == files@.len(),
            forall|j: int| 0 <= j < order@.len() ==> #[trigger] order@[j] < files@.len(),
            cursor == job.cursor(k as int),
            cursors@.len() == k + 1,
            forall|j: int| 0 <= j <= k ==> #[trigger] cursors@[j] == job.cursor(j),
            forall|j: int|
                0 <= j < k ==> #[trigger] job.cursor(j) + job.files[job.order()[j]].size
                    + job.step() - 1 <= u64::MAX,
        decreases order@.len() - k,
    {
        let size: u64 = files[order[k]].size as u64;
        assert(job.order()[k as int] == order@[k as int]);
        assert(job.files[job.order()[k as int]].size == size);
        let end: u64 = match cursor.checked_add(size) {
            Some(v) => v,
            None => {
                assert(job.cursor(k as int) + job.files[job.order()[k as int]].size + job.step() - 1
                    > u64::MAX);
                return None;
            },
        };
        cursor = match round_up(end, alignment) {
            Some(v) => v,
            None => {
                assert(job.cursor(k as int) + job.files[job.order()[k as int]].size + job.step() - 1
                    > u64::MAX);
                return None;
            },
        };
        assert(job.cursor(k + 1) == cursor);
        cursors.push(cursor);
        k = k + 1;
    }
    Some(cursors)
}

/// The offsets of the files as the TOC stores them.
fn offsets_for_toc(order: &Vec<usize>, cursors: &Vec<u64>, Ghost(job): Ghost<Job>) -> (offsets: Vec<
    u64,
>)
    requires
        order@.len() == job.files.len(),
        as_ints(order@) == job.order(),
        cursors@.len() == order@.len() + 1,
        forall|k: int| 0 <= k <= order@.len() ==> #[trigger] cursors@[k] == job.cursor(k),
        forall|k: int| 0 <= k <= order@.len() ==> #[trigger] cursors@[k] >= ENGINE_INDEX_BASE,
    ensures
        offsets@ == job.toc_offsets(),
{
    proof {
        lemma_order_covers(job);
        lemma_covers_injective(job.order(), 0, job.files.len() as int);
    }
    let mut offsets: Vec<u64> = vec![0; order.len()];
    let mut k: usize = 0;
    while k < order.len()
        invariant
            k <= order@.len(),
            order@.len() == job.files.len(),
            as_ints(order@) == job.order(),
            covers(job.order(), 0, job.files.len() as int),
            job.order().no_duplicates(),
            cursors@.len() == order@.len() + 1,
            forall|j: int| 0 <= j <= order@.len() ==> #[trigger] cursors@[j] == job.cursor(j),
            forall|j: int| 0 <= j <= order@.len() ==> #[trigger] cursors@[j] >= ENGINE_INDEX_BASE,
            offsets@.len() == order@.len(),
            forall|j: int|
                0 <= j < k ==> offsets@[#[trigger] job.order()[j]] == job.cursor(j)
                    - ENGINE_INDEX_BASE,
        decreases order@.len() - k,
    {
        let index: usize = order[k];
        assert(job.order()[k as int] == index);
        let offset: u64 = cursors[k] - ENGINE_INDEX_BASE;
        offsets.set(index, offset);
        assert forall|j: int| 0 <= j < k + 1 implies offsets@[#[trigger] job.order()[j]]
            == job.cursor(j) - ENGINE_INDEX_BASE by {
            if j < k {
                assert(job.order()[j] != job.order()[k as int]);
            }
        }
        k = k + 1;
    }
    assert forall|i: int| 0 <= i < job.files.len() implies #[trigger] offsets@[i]
        == job.toc_offsets()[i] by {
        let j = lemma_position(job, i);
        assert(job.order()[j] == i);
    }
    assert(offsets@ =~= job.toc_offsets());
    offsets
}

/// Appends zeros up to the offset `at`.
fn pad_to(output: &mut Vec<u8>, at: u64)
    requires
        old(output)@.len() <= at,
    ensures
        final(output)@ == padded(old(output)@, at as int),
{
    let count: u64 = at - output.len() as u64;
    push_zeros(output, count);
}

/// The header chunk and the copyright mark.
fn build_head(header_chunk: Vec<u8>) -> (output: Vec<u8>)
    requires
        header_chunk@.len() <= COPYRIGHT_MARKER_OFFSET,
    ensures
        output@ == padded(header_chunk@, COPYRIGHT_MARKER_OFFSET as int) + copyright_mark(),
        output@.len() == ENGINE_INDEX_BASE,
{
    let mut output = header_chunk;
    pad_to(&mut output, COPYRIGHT_MARKER_OFFSET);
    let ghost before = output@;
    output.push(0x28);
    output.push(0x63);
    output.push(0x29);
    output.push(0x43);
    output.push(0x52);
    output.push(0x49);
    assert(output@ =~= before + copyright_mark());
    output
}

/// The parts of an archive's front stand where they are told to stand.
pub proof fn lemma_front(job: Job)
    requires
        job.problem() is None,
    ensures
        job.alignment > 0,
        job.head().len() == ENGINE_INDEX_BASE,
        job.head_and_toc().len() == ENGINE_INDEX_BASE + job.toc_size(),
        job.by_id() ==> job.head_and_toc().len() <= job.itoc_offset(),
        job.head_and_indexes().len() <= job.content_offset(),
        job.front().len() == job.content_offset(),
        job.content_offset() % job.step() == 0,
        job.content_offset() >= ENGINE_INDEX_BASE,
{
    reveal(is_pow2);
    lemma_front_bounds(job);
    lemma_sections(job.header());
    lemma_chunk_len(CpkChunkKind::Cpk, job.header().bytes());
    if job.by_name() {
        lemma_toc_total(job.files, job.toc_offsets(), Seq::new(job.files.len(), |i: int| 0u64));
        lemma_sections(job.toc());
        lemma_chunk_len(CpkChunkKind::Toc, job.toc().bytes());
    }
    if job.by_id() {
        lemma_sections(job.itoc());
        lemma_chunk_len(CpkChunkKind::Itoc, job.itoc().bytes());
    }
}

/// The archive up to the first file.
fn build_front(
    header_chunk: Vec<u8>,
    toc_chunk: Option<Vec<u8>>,
    itoc_chunk: Option<Vec<u8>>,
    itoc_offset: u64,
    content_offset: u64,
    Ghost(job): Ghost<Job>,
) -> (front: Vec<u8>)
    requires
        job.problem() is None,
        header_chunk@ == chunk(CpkChunkKind::Cpk, job.header().bytes()),
        toc_chunk is Some <==> job.by_name(),
        itoc_chunk is Some <==> job.by_id(),
        toc_chunk matches Some(c) ==> c@ == chunk(CpkChunkKind::Toc, job.toc().bytes()),
        itoc_chunk matches Some(c) ==> c@ == chunk(CpkChunkKind::Itoc, job.itoc().bytes()),
        itoc_offset == job.itoc_offset(),
        content_offset == job.content_offset(),
    ensures
        front@ == job.front(),
{
    proof {
        lemma_front(job);
        lemma_sections(job.header());
        lemma_chunk_len(CpkChunkKind::Cpk, job.header().bytes());
    }
    let mut front = build_head(header_chunk);
    assert(front@ == job.head());
    match toc_chunk {
        Some(bytes) => {
            assert(padded(front@, job.toc_offset()) =~= front@);
            push_bytes(&mut front, bytes.as_slice());
        },
        None => {},
    }
    assert(front@ == job.head_and_toc());
    match itoc_chunk {
        Some(bytes) => {
            pad_to(&mut front, itoc_offset);
            push_bytes(&mut front, bytes.as_slice());
        },
        None => {},
    }
    assert(front@ == job.head_and_indexes());
    pad_to(&mut front, content_offset);
    front
}

/// The steps write the first `k` files in order and end at `position`.
spec fn steps_reach(steps: Seq<WriteStep>, job: Job, k: int, position: int) -> bool {
    &&& steps_payloads(steps, steps.len()) == job.order().take(k)
    &&& files_in_turn(steps, job)
    &&& forall|payloads: Seq<Seq<u8>>|
        #![trigger job.upto(payloads, k)]
        job.payloads_match(payloads) ==> {
            &&& steps_bytes(steps, payloads, steps.len()) == job.upto(payloads, k)
            &&& job.upto(payloads, k).len() == position
        }
}

proof fn lemma_first_step(front: Vec<u8>, job: Job)
    requires
        front@ == job.front(),
        job.files.len() == job.order().len(),
    ensures
        steps_reach(seq![WriteStep::Bytes(front)], job, 0, front@.len() as int),
{
    let steps = seq![WriteStep::Bytes(front)];
    reveal_with_fuel(steps_payloads, 2);
    reveal_with_fuel(steps_bytes, 2);
    assert(steps_payloads(steps, 1) =~= job.order().take(0));
    assert forall|payloads: Seq<Seq<u8>>|
        #![trigger job.upto(payloads, 0)]
        job.payloads_match(payloads) implies {
        &&& steps_bytes(steps, payloads, steps.len()) == job.upto(payloads, 0)
        &&& job.upto(payloads, 0).len() == front@.len()
    } by {
        assert(steps_bytes(steps, payloads, 1) =~= job.front());
    }
}

proof fn lemma_next_file(steps: Seq<WriteStep>, job: Job, k: int, position: int, index: usize)
    requires
        steps_reach(steps, job, k, position),
        0 <= k < job.files.len() == job.order().len(),
        index == job.order()[k],
        0 <= index < job.files.len(),
        0 <= position <= job.cursor(k) <= u64::MAX,
    ensures
        steps_reach(
            with_file(steps, (job.cursor(k) - position) as u64, index),
            job,
            k + 1,
            job.cursor(k) + job.files[index as int].size,
        ),
{
    let gap = (job.cursor(k) - position) as u64;
    let after = with_file(steps, gap, index);
    let middle = steps.push(WriteStep::Zeros(gap));
    lemma_with_file(steps, gap, index, Seq::empty());
    lemma_files_in_turn(steps, WriteStep::Zeros(gap), job);
    assert forall|payloads: Seq<Seq<u8>>| #[trigger]
        job.payloads_match(payloads) implies steps_bytes(middle, payloads, middle.len())
        == job.before_file(payloads, steps_payloads(middle, middle.len()).len() as int) by {
        let before = job.upto(payloads, k);
        lemma_steps_prefix(steps, middle, payloads, steps.len());
        lemma_steps_payloads_prefix(steps, middle, steps.len());
        assert(middle[steps.len() as int] == WriteStep::Zeros(gap));
        assert(before.len() == position);
    }
    lemma_files_in_turn(middle, WriteStep::Payload(index), job);
    assert(job.order().take(k + 1) =~= job.order().take(k).push(index as int));
    assert forall|payloads: Seq<Seq<u8>>|
        #![trigger job.upto(payloads, k + 1)]
        job.payloads_match(payloads) implies {
        &&& steps_bytes(after, payloads, after.len()) == job.upto(payloads, k + 1)
        &&& job.upto(payloads, k + 1).len() == job.cursor(k) + job.files[index as int].size
    } by {
        let before = job.upto(payloads, k);
        lemma_with_file(steps, gap, index, payloads);
        assert(payloads[index as int].len() == job.files[index as int].size);
        assert(before.len() == position);
        assert(job.upto(payloads, k + 1) == padded(before, job.cursor(k)) + payloads[index as int]);
    }
}

/// Steps that are added do not change where earlier files are asked for.
proof fn lemma_files_in_turn(steps: Seq<WriteStep>, step: WriteStep, job: Job)
    requires
        files_in_turn(steps, job),
        step is Payload ==> forall|payloads: Seq<Seq<u8>>| #[trigger]
            job.payloads_match(payloads) ==> steps_bytes(steps, payloads, steps.len())
                == job.before_file(payloads, steps_payloads(steps, steps.len()).len() as int),
    ensures
        files_in_turn(steps.push(step), job),
{
    let after = steps.push(step);
    assert forall|s: int, payloads: Seq<Seq<u8>>|
        #![trigger after[s], job.payloads_match(payloads)]
        0 <= s < after.len() && after[s] is Payload && job.payloads_match(
            payloads,
        ) implies steps_bytes(after, payloads, s as nat) == job.before_file(
        payloads,
        steps_payloads(after, s as nat).len() as int,
    ) by {
        lemma_steps_prefix(steps, after, payloads, s as nat);
        lemma_steps_payloads_prefix(steps, after, s as nat);
        if s < steps.len() {
            assert(steps[s] is Payload);
        }
    }
}

proof fn lemma_last_step(steps: Seq<WriteStep>, job: Job, position: int)
    requires
        job.files.len() == job.order().len(),
        steps_reach(steps, job, job.files.len() as int, position),
        0 <= position <= job.archive_size() <= u64::MAX,
    ensures
        ({
            let after = steps.push(WriteStep::Zeros((job.archive_size() - position) as u64));
            &&& steps_payloads(after, after.len()) == job.order()
            &&& files_in_turn(after, job)
            &&& forall|payloads: Seq<Seq<u8>>|
                #![trigger job.archive(payloads)]
                job.payloads_match(payloads) ==> steps_bytes(after, payloads, after.len())
                    == job.archive(payloads)
        }),
{
    let gap = (job.archive_size() - position) as u64;
    let after = steps.push(WriteStep::Zeros(gap));
    let n = steps.len();
    lemma_files_in_turn(steps, WriteStep::Zeros(gap), job);
    assert(after[n as int] == WriteStep::Zeros(gap));
    assert forall|payloads: Seq<Seq<u8>>|
        #![trigger job.archive(payloads)]
        job.payloads_match(payloads) implies steps_bytes(after, payloads, after.len())
        == job.archive(payloads) by {
        let before = job.upto(payloads, job.files.len() as int);
        lemma_steps_prefix(steps, after, payloads, n);
        assert(before.len() == position);
    }
    lemma_steps_payloads_prefix(steps, after, n);
    assert(job.order().take(job.files.len() as int) =~= job.order());
}

/// The steps with a file behind them, after some zeros.
spec fn with_file(steps: Seq<WriteStep>, gap: u64, index: usize) -> Seq<WriteStep> {
    steps.push(WriteStep::Zeros(gap)).push(WriteStep::Payload(index))
}

proof fn lemma_with_file(
    steps: Seq<WriteStep>,
    gap: u64,
    index: usize,
    payloads: Seq<Seq<u8>>,
)
    ensures
        ({
            let after = with_file(steps, gap, index);
            &&& steps_bytes(after, payloads, after.len()) == steps_bytes(
                steps,
                payloads,
                steps.len(),
            ) + zeros(gap as int) + payloads[index as int]
            &&& steps_payloads(after, after.len()) == steps_payloads(steps, steps.len()).push(
                index as int,
            )
        }),
{
    let after = with_file(steps, gap, index);
    let n = steps.len();
    lemma_steps_prefix(steps, after, payloads, n);
    lemma_steps_payloads_prefix(steps, after, n);
    reveal_with_fuel(steps_bytes, 3);
    reveal_with_fuel(steps_payloads, 3);
    assert(after[n as int] == WriteStep::Zeros(gap));
    assert(after[n as int + 1] == WriteStep::Payload(index));
    assert(after.len() == n + 2);
    assert(steps_bytes(after, payloads, n + 1) == steps_bytes(after, payloads, n) + zeros(
        gap as int,
    ));
}

/// The steps that write an archive with this front.
fn build_steps(
    front: Vec<u8>,
    files: &[CpkInputFile],
    order: &Vec<usize>,
    cursors: &Vec<u64>,
    Ghost(job): Ghost<Job>,
) -> (steps: Vec<WriteStep>)
    requires
        job.files == inputs_view(files@),
        job.alignment > 0,
        front@ == job.front(),
        front@.len() == job.content_offset(),
        job.content_offset() % job.step() == 0,
        order@.len() == files@.len(),
        as_ints(order@) == job.order(),
        forall|k: int| 0 <= k < order@.len() ==> #[trigger] order@[k] < files@.len(),
        cursors@.len() == order@.len() + 1,
        forall|k: int| 0 <= k <= order@.len() ==> #[trigger] cursors@[k] == job.cursor(k),
    ensures
        steps_payloads(steps@, steps@.len()) == job.order(),
        files_in_turn(steps@, job),
        forall|payloads: Seq<Seq<u8>>|
            #![trigger job.archive(payloads)]
            job.payloads_match(payloads) ==> steps_bytes(steps@, payloads, steps@.len())
                == job.archive(payloads),
{
    let mut steps: Vec<WriteStep> = Vec::new();
    let mut position: u64 = front.len() as u64;
    proof {
        lemma_first_step(front, job);
    }
    steps.push(WriteStep::Bytes(front));
    assert(steps@ =~= seq![WriteStep::Bytes(front)]);
    let mut k: usize = 0;
    while k < order.len()
        invariant
            k <= order@.len(),
            job.files == inputs_view(files@),
            job.alignment > 0,
            job.content_offset() >= 0,
            job.content_offset() % job.step() == 0,
            order@.len() == files@.len(),
            as_ints(order@) == job.order(),
            forall|j: int| 0 <= j < order@.len() ==> #[trigger] order@[j] < files@.len(),
            cursors@.len() == order@.len() + 1,
            forall|j: int| 0 <= j <= order@.len() ==> #[trigger] cursors@[j] == job.cursor(j),
            position <= job.cursor(k as int),
            steps_reach(steps@, job, k as int, position as int),
        decreases order@.len() - k,
    {
        let index: usize = order[k];
        let start: u64 = cursors[k];
        let size: u64 = files[index].size as u64;
        let ghost before = steps@;
        assert(job.order()[k as int] == index);
        proof {
            lemma_cursor_step(job, k as int);
            lemma_next_file(before, job, k as int, position as int, index);
        }
        assert(cursors@[k + 1] == job.cursor(k + 1));
        steps.push(WriteStep::Zeros(start - position));
        steps.push(WriteStep::Payload(index));
        assert(steps@ =~= with_file(before, (start - position) as u64, index));
        position = start + size;
        k = k + 1;
    }
    let end: u64 = cursors[order.len()];
    proof {
        lemma_last_step(steps@, job, position as int);
    }
    steps.push(WriteStep::Zeros(end - position));
    steps
}

/// The chunks of the indexes, as far as they can be made before the files have
/// their offsets.
struct IndexSizes {
    toc_len: Option<u64>,
    itoc_len: Option<u64>,
    itoc_chunk: Option<Vec<u8>>,
}

impl IndexSizes {
    spec fn of(self, job: Job) -> bool {
        &&& job.by_name() ==> job.toc_probe().fits()
        &&& job.by_id() ==> itoc_fits(job.files, job.order(), job.profile.direct_itoc)
        &&& self.toc_len is Some <==> job.by_name()
        &&& self.itoc_len is Some <==> job.by_id()
        &&& self.itoc_chunk is Some <==> job.by_id()
        &&& self.toc_len matches Some(len) ==> len == job.toc_size()
        &&& self.itoc_len matches Some(len) ==> len == job.itoc_size()
        &&& self.itoc_chunk matches Some(c) ==> c@ == chunk(CpkChunkKind::Itoc, job.itoc().bytes())
    }
}

fn measure_indexes(
    files: &[CpkInputFile],
    order: &Vec<usize>,
    profile: &CpkWriterProfile,
    Ghost(job): Ghost<Job>,
) -> (r: Result<IndexSizes, CpkWriterError>)
    requires
        job.files == inputs_view(files@),
        job.profile == profile@,
        as_ints(order@) == job.order(),
        forall|k: int| 0 <= k < order@.len() ==> #[trigger] order@[k] < files@.len(),
        job.by_id() ==> forall|i: int|
            0 <= i < files@.len() ==> (#[trigger] files@[i]).id <= u16::MAX,
    ensures
        match r {
            Ok(sizes) => sizes.of(job),
            Err(e) => e@ == WriterErrorView::ArithmeticOverflow && ((job.by_name()
                && !job.toc_probe().fits()) || (job.by_id() && !itoc_fits(
                job.files,
                job.order(),
                job.profile.direct_itoc,
            ))),
        },
{
    let mut toc_len: Option<u64> = None;
    if profile.index_mode.has_toc() {
        let no_offsets: Vec<u64> = vec![0; files.len()];
        assert(no_offsets@ =~= Seq::new(job.files.len(), |i: int| 0u64));
        match build_toc_table(files, &no_offsets) {
            Ok(table) => {
                proof {
                    lemma_sections(job.toc_probe());
                    lemma_total_bounds(job.toc_probe());
                }
                toc_len = Some(table.len() as u64 + CPK_CHUNK_HEADER_SIZE as u64);
            },
            Err(e) => {
                return Err(e);
            },
        }
    }
    let mut itoc_len: Option<u64> = None;
    let mut itoc_chunk: Option<Vec<u8>> = None;
    if profile.index_mode.has_itoc() {
        proof {
            assert forall|k: int| 0 <= k < job.order().len() implies job.files[
                #[trigger] job.order()[k]
            ].id <= u16::MAX by {
                assert(as_ints(order@)[k] == order@[k]);
                assert(files@[order@[k] as int].id <= u16::MAX);
            }
            lemma_itoc_table(job.files, job.order(), job.profile.direct_itoc);
        }
        match build_itoc_table(files, order, profile.direct_itoc) {
            Ok(table) => {
                proof {
                    lemma_sections(job.itoc());
                    lemma_total_bounds(job.itoc());
                }
                itoc_len = Some(table.len() as u64 + CPK_CHUNK_HEADER_SIZE as u64);
                itoc_chunk = Some(build_chunk(CpkChunkKind::Itoc, &table));
            },
            Err(e) => {
                return Err(e);
            },
        }
    }
    Ok(IndexSizes { toc_len, itoc_len, itoc_chunk })
}

/// Lays out the archive of `files`.
pub fn build_plan(
    files: &[CpkInputFile],
    options: CpkWriterOptions,
    profile: &CpkWriterProfile,
) -> (r: Result<CpkPlan, CpkWriterError>)
    ensures
        ({
            let job = Job {
                files: inputs_view(files@),
                alignment: options.alignment,
                profile: profile@,
            };
            match job.problem() {
                None => r matches Ok(plan) && plan.writes(job),
                Some(e) => r matches Err(f) && f@ == e,
            }
        }),
{
    let ghost job = Job {
        files: inputs_view(files@),
        alignment: options.alignment,
        profile: profile@,
    };
    reveal(is_pow2);
    if !is_power_of_two(options.alignment) {
        return Err(CpkWriterError::InvalidAlignment(options.alignment as u32));
    }
    if files.len() == 0 {
        return Err(CpkWriterError::EmptyInput);
    }
    if files.len() as u64 > u32::MAX as u64 {
        return Err(CpkWriterError::TooManyFiles(files.len()));
    }
    let alignment: u64 = options.alignment as u64;
    let order = match build_physical_order(files, profile) {
        Ok(order) => order,
        Err(e) => {
            return Err(e);
        },
    };
    assert(as_ints(order@) == job.order());
    let sizes = match measure_indexes(files, &order, profile, Ghost(job)) {
        Ok(sizes) => sizes,
        Err(e) => {
            return Err(e);
        },
    };
    let (toc_offset, itoc_offset, content_offset) = place_indexes(
        sizes.toc_len,
        sizes.itoc_len,
        alignment,
        Ghost(job),
    );
    if profile.index_mode.has_itoc() && content_offset > u32::MAX as u64 {
        return Err(CpkWriterError::ItocContentOffsetTooLarge(content_offset));
    }
    let cursors = match place_files(files, &order, content_offset, alignment, Ghost(job)) {
        Some(cursors) => cursors,
        None => {
            return Err(CpkWriterError::ArithmeticOverflow);
        },
    };
    let header_chunk = match build_header_chunk(
        files,
        options,
        profile,
        &sizes,
        toc_offset,
        itoc_offset,
        content_offset,
        cursors[files.len()],
        Ghost(job),
    ) {
        Ok(bytes) => bytes,
        Err(e) => {
            return Err(e);
        },
    };
    assert(job.problem() is None);
    let toc_chunk = build_toc_chunk(files, profile, &order, &cursors, Ghost(job));
    let front = build_front(
        header_chunk,
        toc_chunk,
        sizes.itoc_chunk,
        itoc_offset,
        content_offset,
        Ghost(job),
    );
    proof {
        lemma_front(job);
    }
    let archive_size: u64 = cursors[files.len()];
    let steps = build_steps(front, files, &order, &cursors, Ghost(job));
    let report = CpkWriteReport {
        files: files.len() as u32,
        toc_offset,
        itoc_offset,
        content_offset,
        archive_size,
    };
    Ok(CpkPlan { steps, report })
}

/// The header chunk, if it fits in front of the indexes.
fn build_header_chunk(
    files: &[CpkInputFile],
    options: CpkWriterOptions,
    profile: &CpkWriterProfile,
    sizes: &IndexSizes,
    toc_offset: u64,
    itoc_offset: u64,
    content_offset: u64,
    archive_size: u64,
    Ghost(job): Ghost<Job>,
) -> (r: Result<Vec<u8>, CpkWriterError>)
    requires
        job == (Job {
            files: inputs_view(files@),
            alignment: options.alignment,
            profile: profile@,
        }),
        job.alignment > 0,
        files@.len() <= u32::MAX,
        sizes.of(job),
        toc_offset == job.toc_offset(),
        itoc_offset == job.itoc_offset(),
        content_offset == job.content_offset(),
        archive_size == job.archive_size(),
    ensures
        match r {
            Ok(bytes) => {
                &&& bytes@ == chunk(CpkChunkKind::Cpk, job.header().bytes())
                &&& job.header().fits()
                &&& CPK_CHUNK_HEADER_SIZE + job.header().total() <= COPYRIGHT_MARKER_OFFSET
            },
            Err(e) => if !job.header().fits() {
                e@ == WriterErrorView::ArithmeticOverflow
            } else {
                &&& CPK_CHUNK_HEADER_SIZE + job.header().total() > COPYRIGHT_MARKER_OFFSET
                &&& e@ == WriterErrorView::HeaderTooLarge(
                    (CPK_CHUNK_HEADER_SIZE + job.header().total()) as usize,
                )
            },
        },
{
    proof {
        lemma_front_bounds(job);
        lemma_cursor_monotonic(job, 0, files@.len() as int);
    }
    let toc_size: u64 = match sizes.toc_len {
        Some(len) => len,
        None => 0,
    };
    let itoc_size: u64 = match sizes.itoc_len {
        Some(len) => len,
        None => 0,
    };
    let header_table = match build_header_table(
        archive_size,
        content_offset,
        archive_size - content_offset,
        toc_offset,
        toc_size,
        itoc_offset,
        itoc_size,
        options.alignment,
        files.len() as u32,
        profile,
    ) {
        Ok(table) => table,
        Err(e) => {
            return Err(e);
        },
    };
    let header_chunk = build_chunk(CpkChunkKind::Cpk, &header_table);
    proof {
        lemma_sections(job.header());
        lemma_chunk_len(CpkChunkKind::Cpk, job.header().bytes());
    }
    if header_chunk.len() as u64 > COPYRIGHT_MARKER_OFFSET {
        return Err(CpkWriterError::HeaderTooLarge(header_chunk.len()));
    }
    Ok(header_chunk)
}

/// The TOC chunk, where the archive has one.
fn build_toc_chunk(
    files: &[CpkInputFile],
    profile: &CpkWriterProfile,
    order: &Vec<usize>,
    cursors: &Vec<u64>,
    Ghost(job): Ghost<Job>,
) -> (toc_chunk: Option<Vec<u8>>)
    requires
        job.files == inputs_view(files@),
        job.profile == profile@,
        job.problem() is None,
        order@.len() == files@.len(),
        as_ints(order@) == job.order(),
        cursors@.len() == order@.len() + 1,
        forall|k: int| 0 <= k <= order@.len() ==> #[trigger] cursors@[k] == job.cursor(k),
    ensures
        toc_chunk is Some <==> job.by_name(),
        toc_chunk matches Some(c) ==> c@ == chunk(CpkChunkKind::Toc, job.toc().bytes()),
{
    if !profile.index_mode.has_toc() {
        return None;
    }
    proof {
        lemma_front(job);
        assert forall|k: int| 0 <= k <= files@.len() implies #[trigger] cursors@[k]
            >= ENGINE_INDEX_BASE by {
            lemma_cursor_monotonic(job, 0, k);
        }
        lemma_toc_total(job.files, job.toc_offsets(), Seq::new(job.files.len(), |i: int| 0u64));
    }
    let offsets = offsets_for_toc(order, cursors, Ghost(job));
    match build_toc_table(files, &offsets) {
        Ok(table) => Some(build_chunk(CpkChunkKind::Toc, &table)),
        Err(_) => None,
    }
}

proof fn lemma_steps_prefix(
    few: Seq<WriteStep>,
    many: Seq<WriteStep>,
    payloads: Seq<Seq<u8>>,
    count: nat,
)
    requires
        count <= few.len() <= many.len(),
        forall|i: int| 0 <= i < few.len() ==> few[i] == #[trigger] many[i],
    ensures
        steps_bytes(few, payloads, count) == steps_bytes(many, payloads, count),
    decreases count,
{
    if count > 0 {
        lemma_steps_prefix(few, many, payloads, (count - 1) as nat);
        assert(few[count - 1] == many[count - 1]);
    }
}

proof fn lemma_steps_payloads_prefix(few: Seq<WriteStep>, many: Seq<WriteStep>, count: nat)
    requires
        count <= few.len() <= many.len(),
        forall|i: int| 0 <= i < few.len() ==> few[i] == #[trigger] many[i],
    ensures
        steps_payloads(few, count) == steps_payloads(many, count),
    decreases count,
{
    if count > 0 {
        lemma_steps_payloads_prefix(few, many, (count - 1) as nat);
        assert(few[count - 1] == many[count - 1]);
    }
}

} // verus!
