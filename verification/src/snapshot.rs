//! Snapshot framing. A snapshot is an 8-byte magic naming its format,
//! followed by the encoded world. Formats are magic-tagged and refused on
//! mismatch, so an old or foreign file is never silently reinterpreted;
//! older formats are recognised so that their importers can carry them
//! forward.

use vstd::prelude::*;

verus! {

/// The snapshot formats vivere knows.
#[derive(Clone, Copy, Debug, PartialEq, Eq, Structural)]
pub enum SnapshotFormat {
    /// v0.1 ("protocell"), magic `VIVERE01`.
    V01,
    /// v0.2 ("contact"), magic `VIVERE02`.
    V02,
    /// The current format (v0.3, "cortex"), magic `VIVERE03`.
    Current,
}

/// Why bytes were refused as a snapshot.
#[derive(Clone, Copy, Debug, PartialEq, Eq, Structural)]
pub enum SnapshotError {
    /// The bytes do not start with the magic of the expected format.
    BadMagic { expected: SnapshotFormat },
}

/// The length of every magic.
pub const MAGIC_LEN: usize = 8;

/// The ASCII digit that ends each format's magic.
pub open spec fn version_digit(f: SnapshotFormat) -> u8 {
    match f {
        SnapshotFormat::V01 => 0x31u8,
        SnapshotFormat::V02 => 0x32u8,
        SnapshotFormat::Current => 0x33u8,
    }
}

/// The magic of format `f`: ASCII `VIVERE0` and the format's digit.
pub open spec fn magic_of(f: SnapshotFormat) -> Seq<u8> {
    seq![0x56u8, 0x49u8, 0x56u8, 0x45u8, 0x52u8, 0x45u8, 0x30u8, version_digit(f)]
}

/// `bytes` begins with the magic of `f`.
pub open spec fn has_magic(bytes: Seq<u8>, f: SnapshotFormat) -> bool {
    bytes.len() >= MAGIC_LEN && bytes.take(MAGIC_LEN as int) == magic_of(f)
}

/// The format whose magic `bytes` begins with, if any.
pub open spec fn format_of(bytes: Seq<u8>) -> Option<SnapshotFormat> {
    if has_magic(bytes, SnapshotFormat::V01) {
        Some(SnapshotFormat::V01)
    } else if has_magic(bytes, SnapshotFormat::V02) {
        Some(SnapshotFormat::V02)
    } else if has_magic(bytes, SnapshotFormat::Current) {
        Some(SnapshotFormat::Current)
    } else {
        None
    }
}

/// The magic of format `f`.
pub fn magic(f: SnapshotFormat) -> (r: Vec<u8>)
    ensures
        r@ == magic_of(f),
{
    let d: u8 = match f {
        SnapshotFormat::V01 => 0x31,
        SnapshotFormat::V02 => 0x32,
        SnapshotFormat::Current => 0x33,
    };
    let r = vec![0x56u8, 0x49u8, 0x56u8, 0x45u8, 0x52u8, 0x45u8, 0x30u8, d];
    assert(r@ =~= magic_of(f));
    r
}

/// Whether `bytes` begins with the magic of `f`.
pub fn starts_with_magic(bytes: &[u8], f: SnapshotFormat) -> (r: bool)
    ensures
        r == has_magic(bytes@, f),
{
    let m = magic(f);
    if bytes.len() < MAGIC_LEN {
        return false;
    }
    let mut i: usize = 0;
    while i < MAGIC_LEN
        invariant
            i <= MAGIC_LEN,
            bytes@.len() >= MAGIC_LEN,
            m@ == magic_of(f),
            forall|j: int| 0 <= j < i ==> bytes@[j] == m@[j],
        decreases MAGIC_LEN - i,
    {
        if bytes[i] != m[i] {
            assert(bytes@.take(MAGIC_LEN as int)[i as int] != magic_of(f)[i as int]);
            return false;
        }
        i = i + 1;
    }
    assert(bytes@.take(MAGIC_LEN as int) =~= magic_of(f));
    true
}

/// The format a snapshot declares by its magic, or `None` for bytes that
/// are no vivere snapshot.
pub fn sniff_format(bytes: &[u8]) -> (r: Option<SnapshotFormat>)
    ensures
        r == format_of(bytes@),
{
    if starts_with_magic(bytes, SnapshotFormat::V01) {
        Some(SnapshotFormat::V01)
    } else if starts_with_magic(bytes, SnapshotFormat::V02) {
        Some(SnapshotFormat::V02)
    } else if starts_with_magic(bytes, SnapshotFormat::Current) {
        Some(SnapshotFormat::Current)
    } else {
        None
    }
}

/// A snapshot file of format `f` holding the encoded world `payload`.
pub fn frame(f: SnapshotFormat, payload: &[u8]) -> (r: Vec<u8>)
    ensures
        r@ == magic_of(f) + payload@,
{
    let mut out = magic(f);
    let mut i: usize = 0;
    while i < payload.len()
        invariant
            i <= payload@.len(),
            out@ == magic_of(f) + payload@.take(i as int),
        decreases payload@.len() - i,
    {
        out.push(payload[i]);
        i = i + 1;
        assert(out@ =~= magic_of(f) + payload@.take(i as int));
    }
    assert(payload@.take(payload@.len() as int) =~= payload@);
    out
}

/// The encoded world inside a snapshot of format `f`: everything after the
/// magic. Bytes that do not begin with the magic of `f` are refused.
pub fn unframe(f: SnapshotFormat, bytes: &[u8]) -> (r: Result<Vec<u8>, SnapshotError>)
    ensures
        has_magic(bytes@, f) <==> r is Ok,
        r matches Ok(p) ==> p@ == bytes@.skip(MAGIC_LEN as int),
        r matches Err(e) ==> e == (SnapshotError::BadMagic { expected: f }),
{
    if !starts_with_magic(bytes, f) {
        return Err(SnapshotError::BadMagic { expected: f });
    }
    let mut out: Vec<u8> = Vec::with_capacity(bytes.len() - MAGIC_LEN);
    let mut i: usize = MAGIC_LEN;
    while i < bytes.len()
        invariant
            MAGIC_LEN <= i <= bytes@.len(),
            out@ == bytes@.subrange(MAGIC_LEN as int, i as int),
        decreases bytes@.len() - i,
    {
        out.push(bytes[i]);
        i = i + 1;
        assert(out@ =~= bytes@.subrange(MAGIC_LEN as int, i as int));
    }
    assert(out@ =~= bytes@.skip(MAGIC_LEN as int));
    Ok(out)
}

/// The magics of distinct formats differ.
pub proof fn lemma_magics_distinct(f: SnapshotFormat, g: SnapshotFormat)
    ensures
        f != g ==> magic_of(f) != magic_of(g),
{
    if f != g {
        assert(magic_of(f)[7] != magic_of(g)[7]);
    }
}

/// Reading back a framed snapshot recovers exactly the framed payload, and
/// its magic names the format it was framed as.
pub proof fn lemma_frame_round_trip(f: SnapshotFormat, payload: Seq<u8>)
    ensures
        has_magic(magic_of(f) + payload, f),
        (magic_of(f) + payload).skip(MAGIC_LEN as int) == payload,
        format_of(magic_of(f) + payload) == Some(f),
{
    let bytes = magic_of(f) + payload;
    assert(bytes.take(MAGIC_LEN as int) =~= magic_of(f));
    assert(bytes.skip(MAGIC_LEN as int) =~= payload);
    lemma_magics_distinct(f, SnapshotFormat::V01);
    lemma_magics_distinct(f, SnapshotFormat::V02);
}

/// A snapshot framed as one format is refused as any other.
pub proof fn lemma_frame_refused_as_other(f: SnapshotFormat, g: SnapshotFormat, payload: Seq<u8>)
    requires
        f != g,
    ensures
        !has_magic(magic_of(f) + payload, g),
{
    let bytes = magic_of(f) + payload;
    assert(bytes.take(MAGIC_LEN as int) =~= magic_of(f));
    lemma_magics_distinct(f, g);
}

} // verus!
