//! Writes archives.

use vstd::prelude::*;

use vstd::arithmetic::power2::is_pow2;

use crate::cpk::collect::{collect_files, collected, found_view, packing_order, FoundFile};
use crate::cpk::encrypt::data::{DummyDecryptor, FileDecryptor};
use crate::cpk::error::WriterErrorView;
use crate::cpk::input::{default_profile, inputs_view, InputView};
use crate::cpk::layout::{
    build_plan, lemma_order_covers, lemma_position, step_bytes, steps_bytes, steps_payloads, Job,
    WriteStep,
};
use crate::utils::align::is_power_of_two;
use crate::utils::bytes::{copy_range, push_bytes, push_zeros, zeros};
use crate::utils::sort::{as_ints, covers};
use crate::utils::text::str_eq;

pub use crate::cpk::error::CpkWriterError;
pub use crate::cpk::input::{
    CpkIndexMode, CpkInputFile, CpkRawPayload, CpkWriteReport, CpkWriterOptions, CpkWriterProfile,
};
pub use crate::cpk::layout::CpkPlan;

verus! {

/// What is done to get the packed bytes of a file.
#[derive(Debug, Clone, Copy, PartialEq, Eq, Structural)]
pub enum PayloadAction {
    /// Take the packed bytes of an existing archive, as they are.
    Reuse { absolute_offset: u64, size: u32 },
    /// Transform the extracted file.
    Encrypt,
    /// Take the extracted file as it is.
    Store,
}

/// The user string that marks a file for the file transform.
pub open spec fn encryption_mark() -> Seq<char> {
    "CRI_CFATTR:ENCRYPT"@
}

/// What is done to get the packed bytes of a file. `p5r` asks for the file
/// transform, and `available` tells whether there is one.
pub open spec fn action_for(file: InputView, p5r: bool, available: bool) -> Result<
    PayloadAction,
    WriterErrorView,
> {
    match file.raw_payload {
        Some(raw) => if raw.size != file.size {
            Err(WriterErrorView::InvalidRawPayload(raw.archive_path))
        } else {
            Ok(
                PayloadAction::Reuse {
                    absolute_offset: raw.absolute_offset,
                    size: raw.size,
                },
            )
        },
        None => if p5r && file.user_string == encryption_mark() {
            if available {
                Ok(PayloadAction::Encrypt)
            } else {
                Err(WriterErrorView::UnsupportedP5rEncryption)
            }
        } else {
            Ok(PayloadAction::Store)
        },
    }
}

/// The part of `source` from `start` on, `size` bytes at most.
pub open spec fn range_of(source: Seq<u8>, start: int, size: int) -> Seq<u8> {
    if start >= source.len() {
        Seq::empty()
    } else if start + size > source.len() {
        source.subrange(start, source.len() as int)
    } else {
        source.subrange(start, start + size)
    }
}

/// The bytes that an action makes of its source: of the existing archive, or of
/// the extracted file.
pub open spec fn action_bytes<E: FileDecryptor>(action: PayloadAction, source: Seq<u8>) -> Seq<u8> {
    match action {
        PayloadAction::Reuse { absolute_offset, size } => range_of(
            source,
            absolute_offset as int,
            size as int,
        ),
        PayloadAction::Encrypt => E::transformed(source),
        PayloadAction::Store => source,
    }
}

/// Why `written` bytes are not the packed bytes of the file.
pub open spec fn size_problem(file: InputView, action: PayloadAction, written: int) -> Option<
    WriterErrorView,
> {
    if written == file.size {
        None
    } else if action is Reuse {
        Some(WriterErrorView::InvalidRawPayload(file.raw_payload->Some_0.archive_path))
    } else {
        Some(
            WriterErrorView::PayloadSizeChanged {
                path: file.source_path,
                expected: file.size,
                wrote: written as u64,
            },
        )
    }
}

/// The packed bytes of a file, made from its source.
pub open spec fn packed<E: FileDecryptor>(
    file: InputView,
    source: Seq<u8>,
    p5r: bool,
    available: bool,
) -> Result<Seq<u8>, WriterErrorView> {
    match action_for(file, p5r, available) {
        Err(e) => Err(e),
        Ok(action) => {
            let bytes = action_bytes::<E>(action, source);
            match size_problem(file, action, bytes.len() as int) {
                Some(e) => Err(e),
                None => Ok(bytes),
            }
        },
    }
}

/// The contents of a list of sources.
pub open spec fn sources_view(sources: Seq<Vec<u8>>) -> Seq<Seq<u8>> {
    Seq::new(sources.len(), |i: int| sources[i]@)
}

/// The first file from position `k` of the order on that has no packed bytes.
pub open spec fn payload_problem<E: FileDecryptor>(
    job: Job,
    sources: Seq<Seq<u8>>,
    p5r: bool,
    available: bool,
    k: int,
) -> Option<WriterErrorView>
    decreases job.files.len() - k,
{
    if k >= job.files.len() {
        None
    } else {
        let i = job.order()[k];
        match packed::<E>(job.files[i], sources[i], p5r, available) {
            Err(e) => Some(e),
            Ok(_) => payload_problem::<E>(job, sources, p5r, available, k + 1),
        }
    }
}

/// The packed bytes of all files.
pub open spec fn payloads_of<E: FileDecryptor>(
    job: Job,
    sources: Seq<Seq<u8>>,
    p5r: bool,
    available: bool,
) -> Seq<Seq<u8>> {
    Seq::new(
        job.files.len(),
        |i: int| packed::<E>(job.files[i], sources[i], p5r, available)->Ok_0,
    )
}

/// The archive that is written, or why none is.
pub open spec fn written<E: FileDecryptor>(
    job: Job,
    sources: Seq<Seq<u8>>,
    p5r: bool,
    available: bool,
) -> Result<Seq<u8>, WriterErrorView> {
    if job.problem() is Some {
        Err(job.problem()->Some_0)
    } else {
        match payload_problem::<E>(job, sources, p5r, available, 0) {
            Some(e) => Err(e),
            None => Ok(job.archive(payloads_of::<E>(job, sources, p5r, available))),
        }
    }
}

/// The first position from `k` of the order on whose file has no packed bytes.
pub open spec fn failed_at<E: FileDecryptor>(
    job: Job,
    sources: Seq<Seq<u8>>,
    p5r: bool,
    available: bool,
    k: int,
) -> int
    decreases job.files.len() - k,
{
    if k >= job.files.len() {
        k
    } else {
        let i = job.order()[k];
        match packed::<E>(job.files[i], sources[i], p5r, available) {
            Err(_) => k,
            Ok(_) => failed_at::<E>(job, sources, p5r, available, k + 1),
        }
    }
}

/// The bytes that are written of a file before its size is looked at.
pub open spec fn attempted<E: FileDecryptor>(
    file: InputView,
    source: Seq<u8>,
    p5r: bool,
    available: bool,
) -> Seq<u8> {
    match action_for(file, p5r, available) {
        Err(_) => Seq::empty(),
        Ok(action) => action_bytes::<E>(action, source),
    }
}

/// What has been written when writing ends: the archive, or what comes before
/// the file that cannot be packed and what was written of that file. An archive
/// that cannot be laid out is not begun.
pub open spec fn output_of<E: FileDecryptor>(
    job: Job,
    sources: Seq<Seq<u8>>,
    p5r: bool,
    available: bool,
) -> Seq<u8> {
    match written::<E>(job, sources, p5r, available) {
        Ok(archive) => archive,
        Err(_) => if job.problem() is Some {
            Seq::empty()
        } else {
            let k = failed_at::<E>(job, sources, p5r, available, 0);
            let i = job.order()[k];
            job.before_file(payloads_of::<E>(job, sources, p5r, available), k) + attempted::<E>(
                job.files[i],
                sources[i],
                p5r,
                available,
            )
        },
    }
}

/// `before` with `bytes` written over its front.
pub open spec fn overwritten(before: Seq<u8>, bytes: Seq<u8>) -> Seq<u8> {
    if before.len() <= bytes.len() {
        bytes
    } else {
        bytes + before.skip(bytes.len() as int)
    }
}

/// Writes archives.
#[derive(Debug)]
pub struct CpkWriter;

/// What is done to get the packed bytes of a file.
pub fn payload_action(file: &CpkInputFile, p5r_encryption: bool, available: bool) -> (r: Result<
    PayloadAction,
    CpkWriterError,
>)
    ensures
        match action_for(file@, p5r_encryption, available) {
            Ok(action) => r matches Ok(a) && a == action,
            Err(e) => r matches Err(f) && f@ == e,
        },
{
    match &file.raw_payload {
        Some(raw) => {
            if raw.size != file.size {
                return Err(CpkWriterError::InvalidRawPayload(raw.archive_path.clone()));
            }
            Ok(
                PayloadAction::Reuse {
                    absolute_offset: raw.absolute_offset,
                    size: raw.size,
                },
            )
        },
        None => {
            if p5r_encryption && str_eq(file.user_string.as_str(), "CRI_CFATTR:ENCRYPT") {
                if available {
                    Ok(PayloadAction::Encrypt)
                } else {
                    Err(CpkWriterError::UnsupportedP5rEncryption)
                }
            } else {
                Ok(PayloadAction::Store)
            }
        },
    }
}

/// Whether `written` bytes are the packed bytes of the file.
pub fn check_payload(file: &CpkInputFile, action: PayloadAction, written: u64) -> (r: Result<
    (),
    CpkWriterError,
>)
    requires
        action is Reuse ==> file.raw_payload is Some,
    ensures
        match size_problem(file@, action, written as int) {
            None => r is Ok,
            Some(e) => r matches Err(f) && f@ == e,
        },
{
    if written == file.size as u64 {
        return Ok(());
    }
    match (action, &file.raw_payload) {
        (PayloadAction::Reuse { .. }, Some(raw)) => {
            Err(CpkWriterError::InvalidRawPayload(raw.archive_path.clone()))
        },
        _ => Err(
            CpkWriterError::PayloadSizeChanged {
                path: file.source_path.clone(),
                expected: file.size,
                wrote: written,
            },
        ),
    }
}

/// The bytes that an action makes of its source.
fn make_payload<E: FileDecryptor>(action: PayloadAction, source: &Vec<u8>) -> (bytes: Vec<u8>)
    ensures
        bytes@ == action_bytes::<E>(action, source@),
{
    let bytes: Vec<u8> = match action {
        PayloadAction::Reuse { absolute_offset, size } => {
            if absolute_offset >= source.len() as u64 {
                Vec::new()
            } else if size as u64 > source.len() as u64 - absolute_offset {
                copy_range(source.as_slice(), absolute_offset as usize, source.len())
            } else {
                copy_range(
                    source.as_slice(),
                    absolute_offset as usize,
                    absolute_offset as usize + size as usize,
                )
            }
        },
        PayloadAction::Encrypt => {
            let mut data = copy_range(source.as_slice(), 0, source.len());
            assert(data@ =~= source@);
            E::decrypt_in_place(&mut data);
            data
        },
        PayloadAction::Store => {
            let data = copy_range(source.as_slice(), 0, source.len());
            assert(data@ =~= source@);
            data
        },
    };
    assert(bytes@ =~= action_bytes::<E>(action, source@));
    bytes
}

/// The packed bytes of a file, made from its source.
pub fn packed_payload<E: FileDecryptor>(
    file: &CpkInputFile,
    source: &Vec<u8>,
    p5r_encryption: bool,
    available: bool,
) -> (r: Result<Vec<u8>, CpkWriterError>)
    ensures
        match packed::<E>(file@, source@, p5r_encryption, available) {
            Ok(bytes) => r matches Ok(b) && b@ == bytes && bytes.len() == file.size,
            Err(e) => r matches Err(f) && f@ == e,
        },
{
    let mut output: Vec<u8> = Vec::new();
    match write_payload::<E>(&mut output, file, source, p5r_encryption, available) {
        Ok(_) => {
            assert(output@ =~= attempted::<E>(file@, source@, p5r_encryption, available));
            Ok(output)
        },
        Err(e) => Err(e),
    }
}

/// Writes the packed bytes of a file behind `output`.
fn write_payload<E: FileDecryptor>(
    output: &mut Vec<u8>,
    file: &CpkInputFile,
    source: &Vec<u8>,
    p5r_encryption: bool,
    available: bool,
) -> (r: Result<(), CpkWriterError>)
    ensures
        final(output)@ == old(output)@ + attempted::<E>(file@, source@, p5r_encryption, available),
        match packed::<E>(file@, source@, p5r_encryption, available) {
            Ok(bytes) => r is Ok && bytes == attempted::<E>(
                file@,
                source@,
                p5r_encryption,
                available,
            ) && bytes.len() == file.size,
            Err(e) => r matches Err(f) && f@ == e,
        },
{
    let action = match payload_action(file, p5r_encryption, available) {
        Ok(action) => action,
        Err(e) => {
            assert(output@ =~= output@ + Seq::<u8>::empty());
            return Err(e);
        },
    };
    let bytes = make_payload::<E>(action, source);
    push_bytes(output, bytes.as_slice());
    check_payload(file, action, bytes.len() as u64)
}

/// The files taken by fewer steps are the first of those taken by more.
proof fn lemma_steps_order(steps: Seq<WriteStep>, few: nat, many: nat)
    requires
        few <= many <= steps.len(),
    ensures
        steps_payloads(steps, few).len() <= steps_payloads(steps, many).len(),
        steps_payloads(steps, few) == steps_payloads(steps, many).take(
            steps_payloads(steps, few).len() as int,
        ),
    decreases many,
{
    let n = steps_payloads(steps, few).len() as int;
    if few < many {
        lemma_steps_order(steps, few, (many - 1) as nat);
        assert(steps_payloads(steps, many).take(n) =~= steps_payloads(
            steps,
            (many - 1) as nat,
        ).take(n));
    } else {
        assert(steps_payloads(steps, few).take(n) =~= steps_payloads(steps, few));
    }
}

/// Without a problem, every file has packed bytes of its size.
pub proof fn lemma_payloads_match<E: FileDecryptor>(
    job: Job,
    sources: Seq<Seq<u8>>,
    p5r: bool,
    available: bool,
)
    requires
        payload_problem::<E>(job, sources, p5r, available, 0) is None,
    ensures
        forall|i: int|
            0 <= i < job.files.len() ==> #[trigger] packed::<E>(
                job.files[i],
                sources[i],
                p5r,
                available,
            ) is Ok,
        job.payloads_match(payloads_of::<E>(job, sources, p5r, available)),
{
    assert forall|i: int| 0 <= i < job.files.len() implies #[trigger] packed::<E>(
        job.files[i],
        sources[i],
        p5r,
        available,
    ) is Ok by {
        let k = lemma_position(job, i);
        lemma_no_problem_at::<E>(job, sources, p5r, available, 0, k);
    }
    let payloads = payloads_of::<E>(job, sources, p5r, available);
    assert forall|i: int| 0 <= i < payloads.len() implies (#[trigger] payloads[i]).len()
        == job.files[i].size by {
        assert(packed::<E>(job.files[i], sources[i], p5r, available) is Ok);
    }
}

proof fn lemma_no_problem_at<E: FileDecryptor>(
    job: Job,
    sources: Seq<Seq<u8>>,
    p5r: bool,
    available: bool,
    from: int,
    k: int,
)
    requires
        payload_problem::<E>(job, sources, p5r, available, from) is None,
        0 <= from <= k < job.files.len(),
    ensures
        packed::<E>(
            job.files[job.order()[k]],
            sources[job.order()[k]],
            p5r,
            available,
        ) is Ok,
    decreases k - from,
{
    if from < k {
        lemma_no_problem_at::<E>(job, sources, p5r, available, from + 1, k);
    }
}

/// Where the files up to `k` have packed bytes, the first that has none is found
/// from `k` on.
pub proof fn lemma_failed_at<E: FileDecryptor>(
    job: Job,
    sources: Seq<Seq<u8>>,
    p5r: bool,
    available: bool,
    from: int,
    k: int,
)
    requires
        0 <= from <= k < job.files.len(),
        forall|j: int|
            from <= j < k ==> packed::<E>(
                job.files[#[trigger] job.order()[j]],
                sources[job.order()[j]],
                p5r,
                available,
            ) is Ok,
        packed::<E>(
            job.files[job.order()[k]],
            sources[job.order()[k]],
            p5r,
            available,
        ) is Err,
    ensures
        failed_at::<E>(job, sources, p5r, available, from) == k,
        payload_problem::<E>(job, sources, p5r, available, from) == Some(
            packed::<E>(
                job.files[job.order()[k]],
                sources[job.order()[k]],
                p5r,
                available,
            )->Err_0,
        ),
    decreases k - from,
{
    if from < k {
        assert(packed::<E>(
            job.files[job.order()[from]],
            sources[job.order()[from]],
            p5r,
            available,
        ) is Ok);
        lemma_failed_at::<E>(job, sources, p5r, available, from + 1, k);
    }
}

/// The archive up to a file depends on the files before it only.
pub proof fn lemma_upto_agrees(job: Job, a: Seq<Seq<u8>>, b: Seq<Seq<u8>>, k: int)
    requires
        forall|j: int| 0 <= j < k ==> a[#[trigger] job.order()[j]] == b[job.order()[j]],
    ensures
        job.upto(a, k) == job.upto(b, k),
    decreases k,
{
    if k > 0 {
        lemma_upto_agrees(job, a, b, k - 1);
        assert(a[job.order()[k - 1]] == b[job.order()[k - 1]]);
    }
}

/// What steps write depends on the files that they take only.
proof fn lemma_steps_agree(
    steps: Seq<WriteStep>,
    a: Seq<Seq<u8>>,
    b: Seq<Seq<u8>>,
    count: nat,
)
    requires
        count <= steps.len(),
        forall|j: int|
            0 <= j < steps_payloads(steps, count).len() ==> a[#[trigger] steps_payloads(
                steps,
                count,
            )[j]] == b[steps_payloads(steps, count)[j]],
    ensures
        steps_bytes(steps, a, count) == steps_bytes(steps, b, count),
    decreases count,
{
    if count > 0 {
        let before = steps_payloads(steps, (count - 1) as nat);
        let after = steps_payloads(steps, count);
        assert forall|j: int| 0 <= j < before.len() implies a[#[trigger] before[j]] == b[before[j]] by {
            assert(after[j] == before[j]);
        }
        lemma_steps_agree(steps, a, b, (count - 1) as nat);
        if let WriteStep::Payload(i) = steps[count - 1] {
            assert(after[before.len() as int] == i);
        }
    }
}

/// The packed bytes of the files that have some, and zeros for the others.
spec fn filled<E: FileDecryptor>(
    job: Job,
    sources: Seq<Seq<u8>>,
    p5r: bool,
    available: bool,
) -> Seq<Seq<u8>> {
    Seq::new(
        job.files.len(),
        |i: int|
            match packed::<E>(job.files[i], sources[i], p5r, available) {
                Ok(bytes) => bytes,
                Err(_) => zeros(job.files[i].size as int),
            },
    )
}

/// When the turn of a file comes, what stands in front of it has been written.
proof fn lemma_turn<E: FileDecryptor>(
    plan: CpkPlan,
    job: Job,
    sources: Seq<Seq<u8>>,
    p5r: bool,
    available: bool,
    s: int,
)
    requires
        plan.writes(job),
        0 <= s < plan.steps@.len(),
        plan.steps@[s] is Payload,
        covers(job.order(), 0, job.files.len() as int),
        forall|j: int|
            0 <= j < steps_payloads(plan.steps@, s as nat).len() ==> packed::<E>(
                job.files[#[trigger] job.order()[j]],
                sources[job.order()[j]],
                p5r,
                available,
            ) is Ok,
    ensures
        ({
            let k = steps_payloads(plan.steps@, s as nat).len() as int;
            let payloads = payloads_of::<E>(job, sources, p5r, available);
            &&& k < job.files.len()
            &&& plan.steps@[s]->Payload_0 == job.order()[k]
            &&& steps_bytes(plan.steps@, payloads, s as nat) == job.before_file(payloads, k)
        }),
{
    let steps = plan.steps@;
    let taken = steps_payloads(steps, s as nat);
    let k = taken.len() as int;
    let payloads = payloads_of::<E>(job, sources, p5r, available);
    let other = filled::<E>(job, sources, p5r, available);
    lemma_steps_order(steps, (s + 1) as nat, steps.len());
    lemma_steps_order(steps, s as nat, steps.len());
    assert(steps_payloads(steps, (s + 1) as nat)[k] == steps[s]->Payload_0);
    assert(job.payloads_match(other));
    assert forall|j: int| 0 <= j < k implies payloads[#[trigger] job.order()[j]]
        == other[job.order()[j]] by {
        assert(packed::<E>(
            job.files[job.order()[j]],
            sources[job.order()[j]],
            p5r,
            available,
        ) is Ok);
    }
    assert forall|j: int| 0 <= j < k implies payloads[#[trigger] taken[j]] == other[taken[j]] by {
        assert(taken[j] == job.order()[j]);
    }
    lemma_steps_agree(steps, payloads, other, s as nat);
    lemma_upto_agrees(job, payloads, other, k);
}

/// Writes the archive of `files` from their sources. The first part of the
/// result is what has been written, whether or not writing came to its end.
fn write_archive<E: FileDecryptor>(
    files: &[CpkInputFile],
    sources: &Vec<Vec<u8>>,
    options: CpkWriterOptions,
    profile: &CpkWriterProfile,
    available: bool,
) -> (r: (Vec<u8>, Result<CpkWriteReport, CpkWriterError>))
    requires
        sources@.len() == files@.len(),
    ensures
        ({
            let job = Job {
                files: inputs_view(files@),
                alignment: options.alignment,
                profile: profile@,
            };
            let given = sources_view(sources@);
            &&& r.0@ == output_of::<E>(job, given, options.p5r_encryption, available)
            &&& match written::<E>(job, given, options.p5r_encryption, available) {
                Ok(_) => r.1 matches Ok(report) && report == job.report(),
                Err(e) => r.1 matches Err(f) && f@ == e,
            }
        }),
{
    let p5r: bool = options.p5r_encryption;
    let mut output: Vec<u8> = Vec::new();
    assert(output@ =~= Seq::empty());
    let plan = match build_plan(files, options, profile) {
        Ok(plan) => plan,
        Err(e) => {
            return (output, Err(e));
        },
    };
    let ghost job = Job {
        files: inputs_view(files@),
        alignment: options.alignment,
        profile: profile@,
    };
    let ghost given = sources_view(sources@);
    let ghost payloads = payloads_of::<E>(job, given, p5r, available);
    let ghost steps = plan.steps@;
    proof {
        lemma_order_covers(job);
    }
    let mut s: usize = 0;
    assert(output@ =~= steps_bytes(steps, payloads, 0));
    while s < plan.steps.len()
        invariant
            s <= steps.len(),
            steps == plan.steps@,
            plan.writes(job),
            p5r == options.p5r_encryption,
            job == (Job {
                files: inputs_view(files@),
                alignment: options.alignment,
                profile: profile@,
            }),
            job.problem() is None,
            given == sources_view(sources@),
            sources@.len() == files@.len(),
            payloads == payloads_of::<E>(job, given, p5r, available),
            covers(job.order(), 0, job.files.len() as int),
            steps_payloads(steps, s as nat).len() <= job.files.len(),
            forall|j: int|
                0 <= j < steps_payloads(steps, s as nat).len() ==> packed::<E>(
                    job.files[#[trigger] job.order()[j]],
                    given[job.order()[j]],
                    p5r,
                    available,
                ) is Ok,
            output@ == steps_bytes(steps, payloads, s as nat),
        decreases steps.len() - s,
    {
        proof {
            lemma_steps_order(steps, (s + 1) as nat, steps.len());
        }
        let ghost before = output@;
        match &plan.steps[s] {
            WriteStep::Bytes(bytes) => {
                push_bytes(&mut output, bytes.as_slice());
            },
            WriteStep::Zeros(count) => {
                push_zeros(&mut output, *count);
            },
            WriteStep::Payload(index) => {
                let index: usize = *index;
                let ghost k = steps_payloads(steps, s as nat).len() as int;
                proof {
                    lemma_turn::<E>(plan, job, given, p5r, available, s as int);
                }
                assert(job.order()[k] == index);
                match write_payload::<E>(
                    &mut output,
                    &files[index],
                    &sources[index],
                    p5r,
                    available,
                ) {
                    Ok(_) => {},
                    Err(e) => {
                        proof {
                            lemma_failed_at::<E>(job, given, p5r, available, 0, k);
                        }
                        return (output, Err(e));
                    },
                }
            },
        }
        assert(output@ =~= before + step_bytes(steps[s as int], payloads));
        s = s + 1;
    }
    proof {
        lemma_all_packed::<E>(job, given, p5r, available, 0);
        lemma_payloads_match::<E>(job, given, p5r, available);
        assert(output@ == job.archive(payloads));
    }
    (output, Ok(plan.report))
}

/// Where every file has packed bytes there is no problem.
proof fn lemma_all_packed<E: FileDecryptor>(
    job: Job,
    sources: Seq<Seq<u8>>,
    p5r: bool,
    available: bool,
    k: int,
)
    requires
        0 <= k <= job.files.len(),
        forall|j: int|
            0 <= j < job.files.len() ==> packed::<E>(
                job.files[#[trigger] job.order()[j]],
                sources[job.order()[j]],
                p5r,
                available,
            ) is Ok,
    ensures
        payload_problem::<E>(job, sources, p5r, available, k) is None,
    decreases job.files.len() - k,
{
    if k < job.files.len() {
        lemma_all_packed::<E>(job, sources, p5r, available, k + 1);
        assert(packed::<E>(
            job.files[job.order()[k]],
            sources[job.order()[k]],
            p5r,
            available,
        ) is Ok);
    }
}

/// Writes `bytes` over the front of `output`.
fn overwrite(output: &mut Vec<u8>, bytes: Vec<u8>)
    ensures
        final(output)@ == overwritten(old(output)@, bytes@),
{
    let mut bytes = bytes;
    if output.len() > bytes.len() {
        let ghost front = bytes@;
        let tail = copy_range(output.as_slice(), bytes.len(), output.len());
        push_bytes(&mut bytes, tail.as_slice());
        assert(bytes@ =~= overwritten(old(output)@, front));
    }
    *output = bytes;
}

impl CpkWriter {
    /// Lays out the archive of `files`: what to write, in which order. A file's
    /// packed bytes are asked for where their turn comes.
    pub fn plan(files: &[CpkInputFile], options: CpkWriterOptions, profile: &CpkWriterProfile) -> (r:
        Result<CpkPlan, CpkWriterError>)
        ensures
            ({
                let job = Job {
                    files: inputs_view(files@),
                    alignment: options.alignment,
                    profile: profile@,
                };
                match job.problem() {
                    None => r matches Ok(plan) && plan.writes(job),
                    Some(e) => r matches Err(f) && f@ == e,
                }
            }),
    {
        build_plan(files, options, profile)
    }

    /// Packs the files of a directory listing into `output`, in place of what was
    /// there. `contents` holds the contents of each listed file. A listing that
    /// cannot be packed leaves the output alone.
    pub fn pack_directory(
        output: &mut Vec<u8>,
        found: &Vec<FoundFile>,
        contents: &Vec<Vec<u8>>,
        options: CpkWriterOptions,
    ) -> (r: Result<CpkWriteReport, CpkWriterError>)
        requires
            contents@.len() == found@.len(),
            forall|i: int| 0 <= i < found@.len() ==> (#[trigger] found@[i]).components@.len() > 0,
        ensures
            ({
                let views = found_view(found@);
                let order = packing_order(views);
                let sources = Seq::new(order.len(), |k: int| contents@[order[k]]@);
                let job = Job {
                    files: collected(views)->Ok_0,
                    alignment: options.alignment,
                    profile: default_profile(),
                };
                if !is_pow2(options.alignment as int) {
                    &&& final(output)@ == old(output)@
                    &&& r matches Err(f)
                    &&& f@ == WriterErrorView::InvalidAlignment(options.alignment as u32)
                } else if collected(views) is Err {
                    &&& final(output)@ == old(output)@
                    &&& r matches Err(f)
                    &&& f@ == collected(views)->Err_0
                } else if job.files.len() == 0 {
                    &&& final(output)@ == old(output)@
                    &&& r matches Err(f)
                    &&& f@ == WriterErrorView::EmptyInput
                } else {
                    &&& final(output)@ == output_of::<DummyDecryptor>(
                        job,
                        sources,
                        options.p5r_encryption,
                        false,
                    )
                    &&& match written::<DummyDecryptor>(
                        job,
                        sources,
                        options.p5r_encryption,
                        false,
                    ) {
                        Ok(_) => r == Ok::<CpkWriteReport, CpkWriterError>(job.report()),
                        Err(e) => r matches Err(f) && f@ == e,
                    }
                }
            }),
    {
        if !is_power_of_two(options.alignment) {
            return Err(CpkWriterError::InvalidAlignment(options.alignment as u32));
        }
        let (files, positions) = match collect_files(found) {
            Ok(collected) => collected,
            Err(e) => {
                return Err(e);
            },
        };
        if files.len() == 0 {
            return Err(CpkWriterError::EmptyInput);
        }
        let mut sources: Vec<Vec<u8>> = Vec::new();
        let mut k: usize = 0;
        while k < positions.len()
            invariant
                k <= positions@.len(),
                contents@.len() == found@.len(),
                sources@.len() == k,
                forall|j: int| 0 <= j < positions@.len() ==> #[trigger] positions@[j] < found@.len(),
                forall|j: int|
                    0 <= j < k ==> (#[trigger] sources@[j])@ == contents@[positions@[j] as int]@,
            decreases positions@.len() - k,
        {
            let bytes: &Vec<u8> = &contents[positions[k]];
            let copy = copy_range(bytes.as_slice(), 0, bytes.len());
            assert(copy@ =~= bytes@);
            sources.push(copy);
            k = k + 1;
        }
        proof {
            let order = packing_order(found_view(found@));
            assert(sources_view(sources@) =~= Seq::new(order.len(), |k: int| contents@[order[k]]@))
                by {
                assert forall|j: int| 0 <= j < positions@.len() implies #[trigger] order[j]
                    == positions@[j] by {
                    assert(as_ints(positions@)[j] == positions@[j]);
                }
            }
        }
        Self::pack_files(output, files.as_slice(), &sources, options)
    }

    /// Packs `files` into `output`, in place of what was there, with the default
    /// profile.
    pub fn pack_files(
        output: &mut Vec<u8>,
        files: &[CpkInputFile],
        sources: &Vec<Vec<u8>>,
        options: CpkWriterOptions,
    ) -> (r: Result<CpkWriteReport, CpkWriterError>)
        requires
            sources@.len() == files@.len(),
        ensures
            ({
                let job = Job {
                    files: inputs_view(files@),
                    alignment: options.alignment,
                    profile: default_profile(),
                };
                let given = sources_view(sources@);
                let end = output_of::<DummyDecryptor>(job, given, options.p5r_encryption, false);
                &&& final(output)@ == end
                &&& match written::<DummyDecryptor>(job, given, options.p5r_encryption, false) {
                    Ok(_) => r == Ok::<CpkWriteReport, CpkWriterError>(job.report()),
                    Err(e) => r matches Err(f) && f@ == e,
                }
            }),
    {
        let profile = CpkWriterProfile::default();
        Self::pack_files_with_profile(output, files, sources, options, &profile)
    }

    /// Packs `files` into `output`, in place of what was there. `sources` holds,
    /// for each file, the contents of the extracted file, or of the archive whose
    /// packed bytes are reused.
    pub fn pack_files_with_profile(
        output: &mut Vec<u8>,
        files: &[CpkInputFile],
        sources: &Vec<Vec<u8>>,
        options: CpkWriterOptions,
        profile: &CpkWriterProfile,
    ) -> (r: Result<CpkWriteReport, CpkWriterError>)
        requires
            sources@.len() == files@.len(),
        ensures
            ({
                let job = Job {
                    files: inputs_view(files@),
                    alignment: options.alignment,
                    profile: profile@,
                };
                let given = sources_view(sources@);
                let end = output_of::<DummyDecryptor>(job, given, options.p5r_encryption, false);
                &&& final(output)@ == end
                &&& match written::<DummyDecryptor>(job, given, options.p5r_encryption, false) {
                    Ok(_) => r == Ok::<CpkWriteReport, CpkWriterError>(job.report()),
                    Err(e) => r matches Err(f) && f@ == e,
                }
            }),
    {
        let (bytes, result) = write_archive::<DummyDecryptor>(
            files,
            sources,
            options,
            profile,
            false,
        );
        *output = bytes;
        result
    }

    /// Writes the archive of `files` over the front of `output`, with the
    /// default profile.
    pub fn write(
        output: &mut Vec<u8>,
        files: &[CpkInputFile],
        sources: &Vec<Vec<u8>>,
        options: CpkWriterOptions,
    ) -> (r: Result<CpkWriteReport, CpkWriterError>)
        requires
            sources@.len() == files@.len(),
        ensures
            ({
                let job = Job {
                    files: inputs_view(files@),
                    alignment: options.alignment,
                    profile: default_profile(),
                };
                let given = sources_view(sources@);
                let end = output_of::<DummyDecryptor>(job, given, options.p5r_encryption, false);
                &&& final(output)@ == overwritten(old(output)@, end)
                &&& match written::<DummyDecryptor>(job, given, options.p5r_encryption, false) {
                    Ok(_) => r == Ok::<CpkWriteReport, CpkWriterError>(job.report()),
                    Err(e) => r matches Err(f) && f@ == e,
                }
            }),
    {
        let profile = CpkWriterProfile::default();
        Self::write_with_profile(output, files, sources, options, &profile)
    }

    /// Writes the archive of `files` over the front of `output`. Reused packed
    /// bytes only change where a file's bytes come from: the header and the
    /// indexes are always made anew.
    pub fn write_with_profile(
        output: &mut Vec<u8>,
        files: &[CpkInputFile],
        sources: &Vec<Vec<u8>>,
        options: CpkWriterOptions,
        profile: &CpkWriterProfile,
    ) -> (r: Result<CpkWriteReport, CpkWriterError>)
        requires
            sources@.len() == files@.len(),
        ensures
            ({
                let job = Job {
                    files: inputs_view(files@),
                    alignment: options.alignment,
                    profile: profile@,
                };
                let given = sources_view(sources@);
                let end = output_of::<DummyDecryptor>(job, given, options.p5r_encryption, false);
                &&& final(output)@ == overwritten(old(output)@, end)
                &&& match written::<DummyDecryptor>(job, given, options.p5r_encryption, false) {
                    Ok(_) => r == Ok::<CpkWriteReport, CpkWriterError>(job.report()),
                    Err(e) => r matches Err(f) && f@ == e,
                }
            }),
    {
        let (bytes, result) = write_archive::<DummyDecryptor>(files, sources, options, profile, false);
        overwrite(output, bytes);
        result
    }

    /// Writes the archive of `files` over the front of `output`. Files marked
    /// for the file transform are transformed by `E`.
    pub fn write_with_encryption<E: FileDecryptor>(
        output: &mut Vec<u8>,
        files: &[CpkInputFile],
        sources: &Vec<Vec<u8>>,
        options: CpkWriterOptions,
        profile: &CpkWriterProfile,
    ) -> (r: Result<CpkWriteReport, CpkWriterError>)
        requires
            sources@.len() == files@.len(),
        ensures
            ({
                let job = Job {
                    files: inputs_view(files@),
                    alignment: options.alignment,
                    profile: profile@,
                };
                let given = sources_view(sources@);
                let end = output_of::<E>(job, given, options.p5r_encryption, true);
                &&& final(output)@ == overwritten(old(output)@, end)
                &&& match written::<E>(job, given, options.p5r_encryption, true) {
                    Ok(_) => r == Ok::<CpkWriteReport, CpkWriterError>(job.report()),
                    Err(e) => r matches Err(f) && f@ == e,
                }
            }),
    {
        let (bytes, result) = write_archive::<E>(files, sources, options, profile, true);
        overwrite(output, bytes);
        result
    }
}

} // verus!
