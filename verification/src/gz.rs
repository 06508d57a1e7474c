use vstd::prelude::*;

use flate2::Compression;
use flate2::read::GzDecoder;
use flate2::write::GzEncoder;
use std::io::Read;
use std::io::Write;

verus! {

/// The compressing writer of the write path: a gzip stream over an
/// in-memory buffer. Opaque to the verifier; what has been written into it
/// is named by [`gz_chars`].
#[verifier::external_body]
pub struct GzWriter {
    inner: GzEncoder<Vec<u8>>,
}

/// The text handed to a compressing writer so far, as the characters of the
/// UTF-8 data written into it.
pub uninterp spec fn gz_chars(w: GzWriter) -> Seq<char>;

/// The text recovered from a gzip byte stream: decompress the bytes and
/// decode the result as UTF-8; `None` when either step fails. A pure
/// function of the bytes alone.
pub uninterp spec fn gunzip_text(data: Seq<u8>) -> Option<Seq<char>>;

/// Relies on flate2's GzEncoder::new: a fresh fast-level compressor that has
/// been handed no data yet, writing into an in-memory buffer.
#[verifier::external_body]
pub(crate) fn gz_new() -> (w: GzWriter)
    ensures
        gz_chars(w) == Seq::<char>::empty(),
{
    GzWriter { inner: GzEncoder::new(Vec::new(), Compression::fast()) }
}

/// Relies on Write::write_all for flate2's GzEncoder: hands the UTF-8 bytes
/// of `s` to the compressor, appending them to the data written. A write
/// error could only come from the inner writer, and the in-memory buffer
/// underneath never fails; were one ever reported it would be swallowed, as
/// a logging sink must not panic its host.
#[verifier::external_body]
pub(crate) fn gz_write_str(w: &mut GzWriter, s: &str)
    ensures
        gz_chars(*final(w)) == gz_chars(*old(w)) + s@,
{
    let _ = w.inner.write_all(s.as_bytes());
}

/// Relies on Write::flush for flate2's GzEncoder: moves buffered compressed
/// bytes towards the underlying buffer without changing the data written.
#[verifier::external_body]
pub(crate) fn gz_flush(w: &mut GzWriter)
    ensures
        gz_chars(*final(w)) == gz_chars(*old(w)),
{
    let _ = w.inner.flush();
}

/// Relies on flate2's GzEncoder::finish: closes the stream and hands back
/// the buffer, now one complete gzip member holding the data written.
/// flate2's GzDecoder decompresses what GzEncoder compressed, and UTF-8
/// decoding inverts the UTF-8 encoding of the text, so reading the buffer
/// back yields exactly that text. With an in-memory buffer underneath,
/// finish cannot fail.
#[verifier::external_body]
pub(crate) fn gz_finish(w: GzWriter) -> (r: Vec<u8>)
    ensures
        gunzip_text(r@) == Some(gz_chars(w)),
{
    match w.inner.finish() {
        Ok(v) => v,
        Err(_) => Vec::new(),
    }
}

/// Relies on flate2's GzDecoder together with Read::read_to_end, and on
/// std's String::from_utf8: decompresses a gzip byte stream and decodes the
/// result as UTF-8 text; fails exactly when one of the two steps fails.
#[verifier::external_body]
pub fn gunzip_to_text(data: &Vec<u8>) -> (r: Option<String>)
    ensures
        r is Some <==> gunzip_text(data@) is Some,
        r matches Some(s) ==> Some(s@) == gunzip_text(data@),
{
    let mut d = GzDecoder::new(&data[..]);
    let mut out = Vec::new();
    match d.read_to_end(&mut out) {
        Ok(_) => match String::from_utf8(out) {
            Ok(t) => Some(t),
            Err(_) => None,
        },
        Err(_) => None,
    }
}

} // verus!
