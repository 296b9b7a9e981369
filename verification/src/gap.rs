//! Compression of the bytes between the chunks.

use vstd::prelude::*;
use vstd::string::StringExecFns;

verus! {

pub const ZSTD_LEVEL: i32 = 19;

/// What `zstd::encode_all` returns for the data at the given level: the frame,
/// or the text of the error.
pub uninterp spec fn zstd_frame(data: Seq<u8>, level: i32) -> Result<Seq<u8>, Seq<char>>;

/// What `zstd::decode_all` returns for the frames: the data, or the text of the error.
pub uninterp spec fn zstd_content(frames: Seq<u8>) -> Result<Seq<u8>, Seq<char>>;

/// Calls `zstd::encode_all`. Its result is a function of the data and the
/// level, and `zstd::decode_all` gives the data back from a frame that it made.
/// Running out of memory is left aside.
#[verifier::external_body]
fn zstd_encode_all(data: &[u8], level: i32) -> (r: Result<Vec<u8>, String>)
    ensures
        match r {
            Ok(frame) => zstd_frame(data@, level) == Ok::<Seq<u8>, Seq<char>>(frame@)
                && zstd_content(frame@) == Ok::<Seq<u8>, Seq<char>>(data@),
            Err(e) => zstd_frame(data@, level) == Err::<Seq<u8>, Seq<char>>(e@),
        },
{
    zstd::encode_all(std::io::Cursor::new(data), level).map_err(|e| e.to_string())
}

/// Calls `zstd::decode_all`. Its result is a function of the bytes. Running out
/// of memory is left aside.
#[verifier::external_body]
fn zstd_decode_all(frames: &[u8]) -> (r: Result<Vec<u8>, String>)
    ensures
        match r {
            Ok(data) => zstd_content(frames@) == Ok::<Seq<u8>, Seq<char>>(data@),
            Err(e) => zstd_content(frames@) == Err::<Seq<u8>, Seq<char>>(e@),
        },
{
    zstd::decode_all(std::io::Cursor::new(frames)).map_err(|e| e.to_string())
}

/// The outcome of a step, the message of a failure put after `before`.
pub open spec fn with_context(before: Seq<char>, r: Result<Seq<u8>, Seq<char>>) -> Result<
    Seq<u8>,
    Seq<char>,
> {
    match r {
        Ok(data) => Ok(data),
        Err(e) => Err(before + e),
    }
}

/// The outcome of a step, in terms of its bytes and its message.
pub open spec fn outcome_view(r: Result<Vec<u8>, String>) -> Result<Seq<u8>, Seq<char>> {
    match r {
        Ok(data) => Ok(data@),
        Err(e) => Err(e@),
    }
}

/// Puts `before` in front of the message of a failure.
pub fn in_context(before: &str, r: Result<Vec<u8>, String>) -> (q: Result<Vec<u8>, String>)
    ensures
        outcome_view(q) == with_context(before@, outcome_view(r)),
{
    match r {
        Ok(data) => Ok(data),
        Err(e) => {
            let mut t = before.to_string();
            t.append(e.as_str());
            Err(t)
        },
    }
}

/// Compresses the bytes of a gap.
pub fn zstd_compress(data: &[u8]) -> (r: Result<Vec<u8>, String>)
    ensures
        outcome_view(r) == with_context("zstd compress: "@, zstd_frame(data@, ZSTD_LEVEL)),
        outcome_view(r) == with_context("zstd compress: "@, zstd_frame(data@, 19)),
        r matches Ok(frame) ==> zstd_content(frame@) == Ok::<Seq<u8>, Seq<char>>(data@),
{
    in_context("zstd compress: ", zstd_encode_all(data, ZSTD_LEVEL))
}

/// Gives back the bytes of a gap.
pub fn zstd_decompress(data: &[u8]) -> (r: Result<Vec<u8>, String>)
    ensures
        outcome_view(r) == with_context("zstd decompress: "@, zstd_content(data@)),
{
    in_context("zstd decompress: ", zstd_decode_all(data))
}

/// Context changes no data, and of a failure keeps the whole message behind it.
pub proof fn lemma_with_context(before: Seq<char>, r: Result<Seq<u8>, Seq<char>>)
    ensures
        r matches Ok(data) ==> with_context(before, r) == Ok::<Seq<u8>, Seq<char>>(data),
        r matches Err(e) ==> {
            &&& with_context(before, r) is Err
            &&& with_context(before, r)->Err_0.take(before.len() as int) == before
            &&& with_context(before, r)->Err_0.skip(before.len() as int) == e
        },
{
    if let Err(e) = r {
        assert((before + e).take(before.len() as int) =~= before);
        assert((before + e).skip(before.len() as int) =~= e);
    }
}

} // verus!
