//! The state file's envelope: a four-byte tag, a version byte, and the
//! serialized index, compressed since version 2. Serializing the index
//! itself happens outside this module; here the payload is plain bytes.
//!
//! Saving writes to a hidden sibling file and renames it over the target,
//! so that the target always holds either the old or the new state.

use crate::paths::join_path;
use crate::text::{chars_of, decimal, format_u64, push_char, push_text, string_from_chars};
use vstd::prelude::*;

verus! {

/// Length of the header: the tag and the version byte.
pub const HEADER_SIZE: usize = 5;

/// Version whose payload is stored as is.
pub const LEGACY_VERSION: u8 = 1;

/// Version whose payload is brotli-compressed; the one that is written.
pub const CURRENT_VERSION: u8 = 2;

/// Brotli quality for new state files: fast rather than smallest.
pub const COMPRESSION_QUALITY: i32 = 5;

/// Brotli window, as a power of two (4 MiB).
pub const COMPRESSION_WINDOW: i32 = 22;

/// The tag that opens every state file: `FSSN`.
pub open spec fn magic() -> Seq<u8> {
    seq![70u8, 83u8, 83u8, 78u8]
}

/// Decoded bytes, or a decoder's message.
pub type Decoded = Result<Seq<u8>, Seq<char>>;

/// A serialized index, or why a state file was not accepted.
pub type Opened = Result<Seq<u8>, EnvelopeFault>;

/// The outcome of brotli decompression of `data`: the decoded bytes, or the
/// decoder's message.
pub uninterp spec fn brotli_decompressed(data: Seq<u8>) -> Decoded;

/// The brotli encoding of `data` at the given quality and window.
pub uninterp spec fn brotli_compressed(data: Seq<u8>, quality: i32, lgwin: i32) -> Seq<u8>;

/// Relies on `brotli::BrotliDecompress`, which decodes a brotli stream read
/// from `data`; its outcome depends on the bytes alone.
#[verifier::external_body]
fn brotli_decompress(data: &[u8]) -> (r: Result<Vec<u8>, String>)
    ensures
        r matches Ok(v) ==> brotli_decompressed(data@) == Decoded::Ok(v@),
        r matches Err(m) ==> brotli_decompressed(data@) == Decoded::Err(m@),
{
    let mut out = Vec::new();
    match brotli::BrotliDecompress(&mut &data[..], &mut out) {
        Ok(()) => Ok(out),
        Err(e) => Err(e.to_string()),
    }
}

/// Relies on `brotli::BrotliCompress` with the given quality and window.
/// It fails only when reading its input or writing its output fails, or
/// when its metadata protocol is misused; reading a slice and writing a
/// `Vec` never fail, and it does not misuse the protocol, so it succeeds.
/// Brotli is lossless: decompressing its output gives `data` back.
#[verifier::external_body]
fn brotli_compress(data: &[u8], quality: i32, lgwin: i32) -> (r: Result<Vec<u8>, String>)
    requires
        0 <= quality <= 11,
        10 <= lgwin <= 24,
    ensures
        r is Ok,
        r matches Ok(c) ==> c@ == brotli_compressed(data@, quality, lgwin),
        r matches Ok(c) ==> brotli_decompressed(c@) == Decoded::Ok(data@),
{
    let mut params = brotli::enc::BrotliEncoderParams::default();
    params.quality = quality;
    params.lgwin = lgwin;
    let mut out = Vec::new();
    match brotli::BrotliCompress(&mut &data[..], &mut out, &params) {
        Ok(_) => Ok(out),
        Err(e) => Err(e.to_string()),
    }
}

/// Why a state file's bytes were not accepted.
#[derive(Debug)]
pub enum EnvelopeError {
    /// Shorter than the header.
    Truncated,
    /// The first four bytes are not the tag.
    WrongMagic,
    /// A version byte this format does not know.
    UnsupportedVersion(u8),
    /// A version 2 payload that does not decompress; the decoder's message.
    Decompression(String),
}

/// An `EnvelopeError` as plain values.
pub enum EnvelopeFault {
    Truncated,
    WrongMagic,
    UnsupportedVersion(u8),
    Decompression(Seq<char>),
}

impl View for EnvelopeError {
    type V = EnvelopeFault;

    open spec fn view(&self) -> EnvelopeFault {
        match self {
            EnvelopeError::Truncated => EnvelopeFault::Truncated,
            EnvelopeError::WrongMagic => EnvelopeFault::WrongMagic,
            EnvelopeError::UnsupportedVersion(v) => EnvelopeFault::UnsupportedVersion(*v),
            EnvelopeError::Decompression(m) => EnvelopeFault::Decompression(m@),
        }
    }
}

/// What the bytes of a state file hold: the serialized index, or why they
/// are not accepted. The checks go in order: length, tag, version, payload.
pub open spec fn opened(data: Seq<u8>) -> Opened {
    if data.len() < HEADER_SIZE {
        Err(EnvelopeFault::Truncated)
    } else if data.take(4) != magic() {
        Err(EnvelopeFault::WrongMagic)
    } else if data[4] == LEGACY_VERSION {
        Ok(data.skip(5))
    } else if data[4] == CURRENT_VERSION {
        match brotli_decompressed(data.skip(5)) {
            Ok(p) => Ok(p),
            Err(m) => Err(EnvelopeFault::Decompression(m)),
        }
    } else {
        Err(EnvelopeFault::UnsupportedVersion(data[4]))
    }
}

/// The message that reports a rejected state file.
pub open spec fn fault_reason(f: EnvelopeFault) -> Seq<char> {
    match f {
        EnvelopeFault::Truncated => "truncated state file"@,
        EnvelopeFault::WrongMagic => "not a state file (wrong magic)"@,
        EnvelopeFault::UnsupportedVersion(v) => "unsupported version "@ + decimal(v as nat),
        EnvelopeFault::Decompression(m) => "decompression error: "@ + m,
    }
}

/// Which kind of rejection a fault is.
pub open spec fn fault_kind(f: EnvelopeFault) -> nat {
    match f {
        EnvelopeFault::Truncated => 0,
        EnvelopeFault::WrongMagic => 1,
        EnvelopeFault::UnsupportedVersion(_) => 2,
        EnvelopeFault::Decompression(_) => 3,
    }
}

/// Every kind of rejection has a reason of its own: faults of different
/// kinds are never reported with the same message.
pub proof fn lemma_fault_reasons_distinct(a: EnvelopeFault, b: EnvelopeFault)
    requires
        fault_kind(a) != fault_kind(b),
    ensures
        fault_reason(a) != fault_reason(b),
{
    reveal_strlit("truncated state file");
    reveal_strlit("not a state file (wrong magic)");
    reveal_strlit("unsupported version ");
    reveal_strlit("decompression error: ");
    assert(fault_reason(a)[0] != fault_reason(b)[0]);
}

impl EnvelopeError {
    /// A human-readable reason, distinct for each kind of rejection.
    pub fn reason(&self) -> (r: String)
        ensures
            r@ == fault_reason(self@),
    {
        match self {
            EnvelopeError::Truncated => "truncated state file".to_owned(),
            EnvelopeError::WrongMagic => "not a state file (wrong magic)".to_owned(),
            EnvelopeError::UnsupportedVersion(v) => {
                let mut s = "unsupported version ".to_owned();
                let digits = format_u64(*v as u64);
                push_text(&mut s, digits.as_str());
                s
            },
            EnvelopeError::Decompression(m) => {
                let mut s = "decompression error: ".to_owned();
                push_text(&mut s, m.as_str());
                s
            },
        }
    }
}

/// Checks the header of a state file's bytes and returns the serialized
/// index they carry, decompressed when the version asks for it.
pub fn open_envelope(data: &[u8]) -> (r: Result<Vec<u8>, EnvelopeError>)
    ensures
        r matches Ok(p) ==> opened(data@) == Opened::Ok(p@),
        r matches Err(e) ==> opened(data@) == Opened::Err(e@),
{
    if data.len() < HEADER_SIZE {
        return Err(EnvelopeError::Truncated);
    }
    if !(data[0] == 70u8 && data[1] == 83u8 && data[2] == 83u8 && data[3] == 78u8) {
        assert(data@.take(4) != magic()) by {
            if data@.take(4) == magic() {
                assert(data@[0] == data@.take(4)[0]);
                assert(data@[1] == data@.take(4)[1]);
                assert(data@[2] == data@.take(4)[2]);
                assert(data@[3] == data@.take(4)[3]);
            }
        }
        return Err(EnvelopeError::WrongMagic);
    }
    assert(data@.take(4) =~= magic());
    let version = data[4];
    let payload = vstd::slice::slice_subrange(data, HEADER_SIZE, data.len());
    assert(payload@ =~= data@.skip(5));
    if version == LEGACY_VERSION {
        Ok(vstd::slice::slice_to_vec(payload))
    } else if version == CURRENT_VERSION {
        match brotli_decompress(payload) {
            Ok(p) => Ok(p),
            Err(m) => Err(EnvelopeError::Decompression(m)),
        }
    } else {
        Err(EnvelopeError::UnsupportedVersion(version))
    }
}

/// The bytes of a state file holding `payload`: the tag, the current
/// version, and the compressed payload. Opening them gives `payload` back.
pub fn seal_envelope(payload: &[u8]) -> (d: Vec<u8>)
    ensures
        d@ == magic() + seq![CURRENT_VERSION] + brotli_compressed(
            payload@,
            COMPRESSION_QUALITY,
            COMPRESSION_WINDOW,
        ),
        opened(d@) == Opened::Ok(payload@),
{
    let compressed = brotli_compress(payload, COMPRESSION_QUALITY, COMPRESSION_WINDOW).unwrap();
    let mut data: Vec<u8> = Vec::new();
    data.push(70u8);
    data.push(83u8);
    data.push(83u8);
    data.push(78u8);
    data.push(CURRENT_VERSION);
    let ghost header = data@;
    assert(header =~= magic() + seq![CURRENT_VERSION]);
    let mut i: usize = 0;
    while i < compressed.len()
        invariant
            i <= compressed@.len(),
            data@ == header + compressed@.take(i as int),
        decreases compressed@.len() - i,
    {
        assert(compressed@.take(i + 1) =~= compressed@.take(i as int).push(compressed@[i as int]));
        data.push(compressed[i]);
        i = i + 1;
    }
    assert(compressed@.take(i as int) =~= compressed@);
    assert(data@.take(4) =~= magic());
    assert(data@.skip(5) =~= compressed@);
    data
}

/// The hidden name used while a file is written: a dot in front unless
/// there is one already, and `.tmp` after.
pub open spec fn hidden_name(name: Seq<char>) -> Seq<char> {
    if name.len() > 0 && name[0] == '.' {
        name + ".tmp"@
    } else {
        seq!['.'] + name + ".tmp"@
    }
}

/// The sibling of `path` that a save writes first: the same directory and
/// the hidden form of the file name.
pub open spec fn temp_path(path: Seq<char>) -> Seq<char> {
    match crate::paths::last_index_of(path, '/') {
        None => hidden_name(path),
        Some(i) => path.take(i + 1) + hidden_name(path.skip(i + 1)),
    }
}

/// The hidden sibling path a save writes before renaming it over `path`:
/// `/dir/my.state` gives `/dir/.my.state.tmp`, `/dir/.fsscan.state` gives
/// `/dir/.fsscan.state.tmp`.
pub fn tmp_path_for(path: &str) -> (r: String)
    ensures
        r@ == temp_path(path@),
{
    let cs = chars_of(path);
    let mut i: usize = cs.len();
    while i > 0 && cs[i - 1] != '/'
        invariant
            i <= cs@.len(),
            cs@ == path@,
            forall|j: int| i <= j < cs@.len() ==> cs@[j] != '/',
        decreases i,
    {
        i = i - 1;
    }
    proof {
        crate::paths::lemma_last_index_of(path@, '/');
        if i > 0 {
            if let Some(k) = crate::paths::last_index_of(path@, '/') {
                assert(k == i - 1) by {
                    if k < i - 1 {
                    } else if k > i - 1 {
                    }
                }
            }
        }
    }
    let mut out = string_from_chars(&cs, 0, i);
    let name = string_from_chars(&cs, i, cs.len());
    if i < cs.len() && cs[i] == '.' {
        push_text(&mut out, name.as_str());
    } else {
        push_char(&mut out, '.');
        push_text(&mut out, name.as_str());
    }
    push_text(&mut out, ".tmp");
    proof {
        assert(name@ =~= path@.skip(i as int));
        if i == 0 {
            assert(path@.take(0) =~= Seq::<char>::empty());
        }
    }
    assert(out@ =~= temp_path(path@));
    out
}

/// The state file path: the one given, or `.fsscan.state` in `root`.
pub fn resolve_state_path(state: Option<String>, root: &str) -> (r: String)
    ensures
        state matches Some(s) ==> r@ == s@,
        state is None ==> r@ == join_path(root@, ".fsscan.state"@),
{
    match state {
        Some(s) => s,
        None => crate::paths::join(root, ".fsscan.state"),
    }
}

} // verus!
