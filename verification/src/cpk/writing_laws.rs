//! What has been written when writing ends, and over what.

use vstd::prelude::*;

use crate::cpk::archive_laws::{lemma_stands_archive, lemma_upto_len};
use crate::cpk::encrypt::data::FileDecryptor;
use crate::cpk::error::WriterErrorView;
use crate::cpk::layout::{lemma_cursor_monotonic, lemma_front, lemma_offset_at, Job};
use crate::cpk::writer::{
    lemma_failed_at, lemma_payloads_match, lemma_upto_agrees, output_of, overwritten, packed,
    payload_problem, payloads_of, written,
};

verus! {

/// What is written over the front of a file stands there whole, and of what was in
/// the file nothing changes that reaches further.
pub proof fn law_writing_keeps_what_reaches_further(before: Seq<u8>, bytes: Seq<u8>, i: int)
    ensures
        overwritten(before, bytes).take(bytes.len() as int) == bytes,
        overwritten(before, bytes).len() >= before.len(),
        before.len() <= bytes.len() ==> overwritten(before, bytes).len() == bytes.len(),
        before.len() > bytes.len() ==> overwritten(before, bytes).len() == before.len(),
        bytes.len() <= i < before.len() ==> overwritten(before, bytes)[i] == before[i],
{
    assert(overwritten(before, bytes).take(bytes.len() as int) =~= bytes);
}

proof fn lemma_all_packed<E: FileDecryptor>(
    job: Job,
    sources: Seq<Seq<u8>>,
    p5r: bool,
    available: bool,
    k: int,
)
    requires
        0 <= k <= job.files.len(),
        forall|i: int|
            0 <= i < job.files.len() ==> (#[trigger] packed::<E>(
                job.files[i],
                sources[i],
                p5r,
                available,
            )) is Ok,
    ensures
        payload_problem::<E>(job, sources, p5r, available, k) is None,
    decreases job.files.len() - k,
{
    if k < job.files.len() {
        lemma_offset_at(job, k);
        let i = job.order()[k];
        assert(packed::<E>(job.files[i], sources[i], p5r, available) is Ok);
        lemma_all_packed::<E>(job, sources, p5r, available, k + 1);
    }
}

/// An archive is written where it can be laid out and every one of its files can be
/// packed, and in no other case, and it is then all that has been written.
pub proof fn law_archives_are_written_whole<E: FileDecryptor>(
    job: Job,
    sources: Seq<Seq<u8>>,
    p5r: bool,
    available: bool,
)
    ensures
        written::<E>(job, sources, p5r, available) is Ok <==> job.problem() is None && forall|
            i: int,
        |
            0 <= i < job.files.len() ==> (#[trigger] packed::<E>(
                job.files[i],
                sources[i],
                p5r,
                available,
            )) is Ok,
        written::<E>(job, sources, p5r, available) matches Ok(archive) ==> {
            &&& output_of::<E>(job, sources, p5r, available) == archive
            &&& archive.len() == job.archive_size()
        },
        job.problem() matches Some(e) ==> {
            &&& written::<E>(job, sources, p5r, available) == Err::<Seq<u8>, WriterErrorView>(e)
            &&& output_of::<E>(job, sources, p5r, available).len() == 0
        },
{
    if written::<E>(job, sources, p5r, available) is Ok {
        lemma_payloads_match::<E>(job, sources, p5r, available);
        lemma_upto_len(
            job,
            payloads_of::<E>(job, sources, p5r, available),
            job.files.len() as int,
        );
    } else if forall|i: int|
        0 <= i < job.files.len() ==> (#[trigger] packed::<E>(
            job.files[i],
            sources[i],
            p5r,
            available,
        )) is Ok {
        lemma_all_packed::<E>(job, sources, p5r, available, 0);
    }
}

/// Where the files in front of one have packed bytes and that one has none, writing
/// ends with its error. What has been written up to its offset is the front of any
/// archive with the same files before it. Behind that stands what its source gave,
/// whatever its size, and nothing where it was to be encrypted and could not be.
pub proof fn law_broken_archives_are_the_front_of_whole_ones<E: FileDecryptor>(
    job: Job,
    sources: Seq<Seq<u8>>,
    p5r: bool,
    available: bool,
    payloads: Seq<Seq<u8>>,
    k: int,
)
    requires
        job.problem() is None,
        job.payloads_match(payloads),
        0 <= k < job.files.len(),
        forall|j: int|
            0 <= j < k ==> packed::<E>(
                job.files[#[trigger] job.order()[j]],
                sources[job.order()[j]],
                p5r,
                available,
            ) == Ok::<Seq<u8>, WriterErrorView>(payloads[job.order()[j]]),
        packed::<E>(
            job.files[job.order()[k]],
            sources[job.order()[k]],
            p5r,
            available,
        ) is Err,
    ensures
        ({
            let i = job.order()[k];
            let output = output_of::<E>(job, sources, p5r, available);
            let marked = p5r && job.files[i].user_string == "CRI_CFATTR:ENCRYPT"@;
            let rest = output.skip(job.offset(i));
            &&& written::<E>(job, sources, p5r, available) == packed::<E>(
                job.files[i],
                sources[i],
                p5r,
                available,
            )
            &&& output.take(job.offset(i)) == job.archive(payloads).take(job.offset(i))
            &&& output.len() >= job.offset(i)
            &&& job.files[i].raw_payload is None && !marked ==> rest == sources[i]
            &&& job.files[i].raw_payload is None && marked && available ==> rest
                == E::transformed(sources[i])
            &&& job.files[i].raw_payload is None && marked && !available ==> rest.len() == 0
            &&& rest.len() != job.files[i].size || (marked && !available) || (
            job.files[i].raw_payload matches Some(raw) && raw.size != job.files[i].size)
        }),
{
    lemma_front(job);
    lemma_offset_at(job, k);
    assert forall|j: int| 0 <= j < k implies packed::<E>(
        job.files[#[trigger] job.order()[j]],
        sources[job.order()[j]],
        p5r,
        available,
    ) is Ok by {}
    lemma_failed_at::<E>(job, sources, p5r, available, 0, k);
    let i = job.order()[k];
    let at = job.offset(i);
    let own = payloads_of::<E>(job, sources, p5r, available);
    assert forall|j: int| 0 <= j < k implies own[#[trigger] job.order()[j]]
        == payloads[job.order()[j]] by {
        lemma_offset_at(job, j);
    }
    lemma_upto_agrees(job, own, payloads, k);
    lemma_upto_len(job, payloads, k);
    lemma_cursor_monotonic(job, 0, k);
    let before = job.before_file(payloads, k);
    assert(before.len() == at);
    let next = job.upto(payloads, k + 1);
    assert(next == before + payloads[i]);
    assert(next.subrange(0, at) =~= before);
    lemma_stands_archive(job, payloads, k + 1, 0, before);
    let output = output_of::<E>(job, sources, p5r, available);
    assert(output.take(at) =~= before);
    assert(job.archive(payloads).take(at) =~= job.archive(payloads).subrange(0, at));
    assert(output == before + output.skip(at));
}

} // verus!
