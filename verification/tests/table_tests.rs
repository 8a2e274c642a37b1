use kmp::prepare;

#[test]
fn test_prepare() {
    assert_eq!(prepare(b"AAA"), vec![None, None, Some(1)]);
    assert_eq!(prepare(b"ABC"), vec![None, None, None]);
    assert_eq!(
        prepare(b"ABABABXYZ"),
        vec![None, None, None, Some(1), Some(2), Some(3), Some(4), None, None]
    );
    assert_eq!(
        prepare(b"ABCABABC"),
        vec![None, None, None, None, Some(1), Some(2), Some(1), Some(2)]
    );
}

#[test]
fn prepare_empty_needle() {
    assert_eq!(prepare(b""), Vec::<Option<usize>>::new());
}

#[test]
fn prepare_single_byte_needle() {
    assert_eq!(prepare(b"A"), vec![None]);
}

#[test]
fn prepare_two_byte_needles() {
    assert_eq!(prepare(b"AA"), vec![None, None]);
    assert_eq!(prepare(b"AB"), vec![None, None]);
}

#[test]
fn prepare_periodic_needle() {
    assert_eq!(
        prepare(b"ABABAB"),
        vec![None, None, None, Some(1), Some(2), Some(3)]
    );
}

#[test]
fn prepare_is_deterministic() {
    let needle = b"ABCABABC";
    assert_eq!(prepare(needle), prepare(needle));
}

#[test]
fn prepare_entries_are_proper_borders() {
    let needles: [&[u8]; 6] = [b"", b"A", b"AAAA", b"ABABABXYZ", b"ABCABABC", b"AABAABAAAX"];
    for needle in needles {
        let table = prepare(needle);
        assert_eq!(table.len(), needle.len());
        if !table.is_empty() {
            assert_eq!(table[0], None);
        }
        for i in 0..table.len() {
            if let Some(len) = table[i] {
                assert!(0 < len && len < i);
                assert_eq!(needle[..len], needle[i - len..i]);
            }
        }
    }
}
