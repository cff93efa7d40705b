use vivere::snapshot::{frame, magic, sniff_format, unframe, SnapshotError, SnapshotFormat};

#[test]
fn snapshot_rejects_garbage() {
    assert!(unframe(SnapshotFormat::Current, b"not a snapshot at all").is_err());
    assert!(unframe(SnapshotFormat::Current, b"").is_err());
    assert_eq!(sniff_format(b"not a snapshot at all"), None);
    assert_eq!(sniff_format(b""), None);
}

#[test]
fn garbage_is_refused() {
    assert_eq!(
        unframe(SnapshotFormat::V01, b"VIVERE02not actually v1"),
        Err(SnapshotError::BadMagic { expected: SnapshotFormat::V01 })
    );
    assert!(unframe(SnapshotFormat::V01, b"").is_err());
}

#[test]
fn magics_spell_the_format() {
    assert_eq!(magic(SnapshotFormat::V01), b"VIVERE01".to_vec());
    assert_eq!(magic(SnapshotFormat::V02), b"VIVERE02".to_vec());
    assert_eq!(magic(SnapshotFormat::Current), b"VIVERE03".to_vec());
}

#[test]
fn framing_round_trips() {
    let payload = vec![1u8, 2, 3, 250, 0];
    for f in [SnapshotFormat::V01, SnapshotFormat::V02, SnapshotFormat::Current] {
        let bytes = frame(f, &payload);
        assert_eq!(bytes.len(), 8 + payload.len());
        assert_eq!(sniff_format(&bytes), Some(f));
        assert_eq!(unframe(f, &bytes), Ok(payload.clone()));
    }
    let bytes = frame(SnapshotFormat::V02, &payload);
    assert!(unframe(SnapshotFormat::Current, &bytes).is_err());
}

#[test]
fn a_bare_magic_holds_an_empty_world() {
    assert_eq!(unframe(SnapshotFormat::Current, b"VIVERE03"), Ok(Vec::new()));
    assert_eq!(sniff_format(b"VIVERE0"), None);
}
