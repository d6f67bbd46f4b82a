use vstd::prelude::*;
use crate::error::LzrsError;

verus! {

/// The compression algorithm chosen for a whole container.
#[derive(Clone, Copy, Debug, PartialEq, Eq, Structural)]
pub enum CompressingMode {
    LZ77,
    LZ78,
}

/// The container-format algorithm id recorded for a compressing mode.
pub open spec fn method_id(mode: CompressingMode) -> u32 {
    match mode {
        CompressingMode::LZ77 => 77,
        CompressingMode::LZ78 => 78,
    }
}

/// The archiver's command-line request, once parsed: one mode flag, the
/// chosen algorithm, an optional output name, and the file list.
pub struct LZRSArgs {
    pub method: CompressingMode,
    pub compress: bool,
    pub decompress: bool,
    pub output: Option<String>,
    pub files: Vec<String>,
}

/// A request is consistent when it does not ask for compression and
/// decompression at once, names at least one file, and names exactly one
/// file for decompression.
pub open spec fn args_consistent(args: LZRSArgs) -> bool {
    &&& !(args.compress && args.decompress)
    &&& args.files@.len() >= 1
    &&& args.decompress ==> args.files@.len() == 1
}

/// Validates a command-line request, rejecting exactly the inconsistent
/// ones.
pub fn validate_args(args: &LZRSArgs) -> (r: Result<(), LzrsError>)
    ensures
        r is Ok <==> args_consistent(*args),
        r is Err ==> r->Err_0 == LzrsError::InvalidArguments,
{
    if args.compress && args.decompress {
        return Err(LzrsError::InvalidArguments);
    }
    if args.files.len() == 0 {
        return Err(LzrsError::InvalidArguments);
    }
    if args.decompress && args.files.len() != 1 {
        return Err(LzrsError::InvalidArguments);
    }
    Ok(())
}

} // verus!
