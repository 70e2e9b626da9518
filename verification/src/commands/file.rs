use vstd::prelude::*;

verus! {

/// The largest file the app reads: 64 MiB.
pub const MAX_FILE_BYTES: u64 = 64 * 1024 * 1024;

/// The message for a file over [`MAX_FILE_BYTES`].
pub open spec fn file_too_large_message() -> Seq<char> {
    "文件超过 64MB"@
}

/// Refuses a length over [`MAX_FILE_BYTES`]; a length of exactly that size
/// passes.
pub fn reject_if_too_large(len: u64) -> (r: Result<(), String>)
    ensures
        len <= MAX_FILE_BYTES ==> r is Ok,
        len > MAX_FILE_BYTES ==> (r matches Err(e) && e@ == file_too_large_message()),
{
    if len > MAX_FILE_BYTES {
        Err("文件超过 64MB".to_owned())
    } else {
        Ok(())
    }
}

} // verus!
