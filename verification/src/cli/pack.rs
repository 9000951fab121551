//! How an archive is packed.

use vstd::prelude::*;
use vstd::string::*;

use crate::cli::arguments::{CliError, PackArguments, PackView};
use crate::cpk::input::{CpkInputFile, CpkWriterOptions};
use crate::manifest::model::{Manifest, ManifestView};

verus! {

/// The options for packing a directory that has a manifest. `over_source`
/// tells whether the archive to write is the one that was unpacked.
pub open spec fn rebuild_options_of(m: ManifestView, args: PackView, over_source: bool) -> Result<
    CpkWriterOptions,
    Seq<char>,
> {
    if args.reuse_raw_entries && over_source {
        Err(
            "--reuse-raw-entries cannot overwrite the source CPK because raw entry bytes are read from it"@,
        )
    } else {
        Ok(
            CpkWriterOptions {
                alignment: match args.alignment {
                    Some(a) => a,
                    None => if m.alignment == 0 {
                        1
                    } else {
                        m.alignment
                    },
                },
                p5r_encryption: m.p5r || args.p5r,
            },
        )
    }
}

/// The options for packing a directory that has a manifest. `over_source`
/// tells whether the archive to write is the one that was unpacked.
pub fn rebuild_options(manifest: &Manifest, args: &PackArguments, over_source: bool) -> (r: Result<
    CpkWriterOptions,
    CliError,
>)
    ensures
        match rebuild_options_of(manifest@, args@, over_source) {
            Ok(v) => r matches Ok(o) && o == v,
            Err(e) => r matches Err(f) && f@ == e,
        },
        r is Err <==> args.reuse_raw_entries && over_source,
        r matches Ok(o) ==> {
            &&& args.alignment is Some ==> Some(o.alignment) == args.alignment
            &&& args.alignment is None && manifest.alignment > 0 ==> o.alignment
                == manifest.alignment
            &&& o.p5r_encryption <==> manifest.p5r || args.p5r
        },
{
    if args.reuse_raw_entries && over_source {
        return Err(
            CliError {
                message:
                    "--reuse-raw-entries cannot overwrite the source CPK because raw entry bytes are read from it".to_owned(),
            },
        );
    }
    let alignment: u16 = match args.alignment {
        Some(alignment) => alignment,
        None => if manifest.alignment == 0 {
            1
        } else {
            manifest.alignment
        },
    };
    Ok(CpkWriterOptions { alignment, p5r_encryption: manifest.p5r || args.p5r })
}

/// The options for packing a directory without a manifest.
pub open spec fn fresh_options_of(args: PackView) -> Result<CpkWriterOptions, Seq<char>> {
    if args.reuse_raw_entries {
        Err("--reuse-raw-entries requires a .cri-cpk-manifest-v2 generated by unpack"@)
    } else {
        Ok(
            CpkWriterOptions {
                alignment: match args.alignment {
                    Some(a) => a,
                    None => 0x800,
                },
                p5r_encryption: args.p5r,
            },
        )
    }
}

/// The options for packing a directory without a manifest.
pub fn fresh_options(args: &PackArguments) -> (r: Result<CpkWriterOptions, CliError>)
    ensures
        match fresh_options_of(args@) {
            Ok(v) => r matches Ok(o) && o == v,
            Err(e) => r matches Err(f) && f@ == e,
        },
        r is Err <==> args.reuse_raw_entries,
        r matches Ok(o) ==> {
            &&& args.alignment is Some ==> Some(o.alignment) == args.alignment
            &&& args.alignment is None ==> o.alignment == 0x800
            &&& o.p5r_encryption <==> args.p5r
        },
{
    if args.reuse_raw_entries {
        return Err(
            CliError {
                message:
                    "--reuse-raw-entries requires a .cri-cpk-manifest-v2 generated by unpack".to_owned(),
            },
        );
    }
    let alignment: u16 = match args.alignment {
        Some(alignment) => alignment,
        None => 0x800,
    };
    Ok(CpkWriterOptions { alignment, p5r_encryption: args.p5r })
}

/// Refuses to rebuild an archive without files.
pub fn require_files(files: &Vec<CpkInputFile>) -> (r: Result<(), CliError>)
    ensures
        r is Ok <==> files@.len() > 0,
        r matches Err(e) ==> e@ == "input directory contains no packable files"@,
{
    if files.len() == 0 {
        return Err(CliError { message: "input directory contains no packable files".to_owned() });
    }
    Ok(())
}

} // verus!
