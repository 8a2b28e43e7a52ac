use macho_link::export_trie::write_byte;
use macho_link::export_trie::ExportTrie;
use macho_link::export_trie::ExportTrieError;
use macho_link::uleb128::uleb128_len;

/// Walks an encoded trie the way dyld does, so that what comes back is what a loader would see
/// rather than what the builder believed it wrote.
fn lookup(encoded: &[u8], name: &[u8]) -> Option<u64> {
    let mut offset = 0usize;
    let mut rest = name;

    loop {
        let (terminal_size, mut cursor) = read_uleb128(encoded, offset)?;

        if rest.is_empty() {
            if terminal_size == 0 {
                return None;
            }
            let (_flags, next) = read_uleb128(encoded, cursor)?;
            let (address, _) = read_uleb128(encoded, next)?;
            return Some(address);
        }

        cursor += terminal_size as usize;
        let count = *encoded.get(cursor)?;
        cursor += 1;

        let mut found = None;
        for _ in 0..count {
            let start = cursor;
            while *encoded.get(cursor)? != 0 {
                cursor += 1;
            }
            let label = &encoded[start..cursor];
            cursor += 1;
            let (child, next) = read_uleb128(encoded, cursor)?;
            cursor = next;

            if rest.starts_with(label) {
                found = Some((label.len(), child as usize));
            }
        }

        let (consumed, child) = found?;
        rest = &rest[consumed..];
        offset = child;
    }
}

fn read_uleb128(data: &[u8], mut offset: usize) -> Option<(u64, usize)> {
    let mut value = 0u64;
    let mut shift = 0;
    loop {
        let byte = *data.get(offset)?;
        offset += 1;
        value |= u64::from(byte & 0x7f) << shift;
        if byte & 0x80 == 0 {
            return Some((value, offset));
        }
        shift += 7;
    }
}

fn round_trip(names: &[(&[u8], u64)]) {
    let trie = ExportTrie::build(names);
    let mut encoded = vec![0u8; trie.len()];
    trie.write(&mut encoded).unwrap();

    for (name, address) in names {
        assert_eq!(
            lookup(&encoded, name),
            Some(*address),
            "looking up {:?}",
            String::from_utf8_lossy(name)
        );
    }

    // A name that isn't there must not resolve, including prefixes of ones that are.
    assert_eq!(lookup(&encoded, b"_definitely_absent"), None);
}

#[test]
fn single_export() {
    round_trip(&[(b"_main", 0x1000)]);
}

#[test]
fn shared_prefixes() {
    round_trip(&[
        (b"_foo", 0x1000),
        (b"_foobar", 0x2000),
        (b"_foobaz", 0x3000),
        (b"_frob", 0x4000),
    ]);
}

#[test]
fn a_name_that_is_a_prefix_of_another() {
    // The shorter name ends at an interior node, which has to carry a payload as well as edges.
    round_trip(&[(b"_a", 1), (b"_ab", 2), (b"_abc", 3)]);
}

#[test]
fn addresses_wide_enough_to_grow_the_offsets() {
    // Large addresses take more ULEB128 bytes, which pushes later nodes further out and can
    // grow the offsets referring to them - the case `assign_offsets` iterates for.
    let names: Vec<(&[u8], u64)> = vec![
        (b"_aaaaaaaaaaaaaaaaaaaaaaaaaaaaaa", 0xffff_ffff),
        (b"_aaaaaaaaaaaaaaaaaaaaaaaaaaaaab", 0xffff_fffe),
        (b"_bbbbbbbbbbbbbbbbbbbbbbbbbbbbbb", 0x7fff_ffff_ffff),
    ];
    round_trip(&names);
}

#[test]
fn many_exports_force_multi_byte_offsets() {
    let names: Vec<Vec<u8>> = (0..400)
        .map(|i| format!("_symbol_number_{i:04}").into_bytes())
        .collect();
    let mut sorted: Vec<(&[u8], u64)> = names
        .iter()
        .enumerate()
        .map(|(i, n)| (n.as_slice(), 0x1000 + i as u64 * 0x40))
        .collect();
    sorted.sort_by_key(|(n, _)| *n);
    round_trip(&sorted);
}

#[test]
fn one_name_is_encoded_exactly() {
    let trie = ExportTrie::build(&[(b"_a".as_slice(), 0x80)]);
    let mut encoded = vec![0xffu8; trie.len()];
    assert_eq!(trie.write(&mut encoded), Ok(()));
    // The root: no payload, one child, its label, and where it is. The child: three bytes of
    // payload (no flags, then the address in two bytes), and no children.
    assert_eq!(encoded, vec![0, 1, b'_', b'a', 0, 6, 3, 0, 0x80, 0x01, 0]);
}

#[test]
fn an_empty_trie_has_only_a_root() {
    let trie = ExportTrie::build(&[]);
    let mut encoded = vec![0xffu8; trie.len()];
    assert_eq!(trie.write(&mut encoded), Ok(()));
    assert_eq!(encoded, vec![0, 0]);
}

#[test]
fn a_short_buffer_is_refused() {
    let trie = ExportTrie::build(&[(b"_main".as_slice(), 0x1000)]);
    let mut encoded = vec![0u8; trie.len() - 1];
    assert_eq!(
        trie.write(&mut encoded),
        Err(ExportTrieError::InsufficientAllocation)
    );
}

#[test]
fn too_many_edges_are_refused() {
    // One node can't have more than 255 edges, and a name may start with any byte but the
    // terminator, so a byte that stands for it makes the 256th.
    let names: Vec<Vec<u8>> = (0..=255u8).map(|first| vec![first]).collect();
    let exports: Vec<(&[u8], u64)> = names.iter().map(|n| (n.as_slice(), 1)).collect();
    let trie = ExportTrie::build(&exports);
    let mut encoded = vec![0u8; trie.len()];
    assert_eq!(
        trie.write(&mut encoded),
        Err(ExportTrieError::TooManyChildren)
    );
}

#[test]
fn inserting_a_name_again_replaces_its_address() {
    let trie = ExportTrie::build(&[(b"_x".as_slice(), 1), (b"_x".as_slice(), 2)]);
    let mut encoded = vec![0u8; trie.len()];
    trie.write(&mut encoded).unwrap();
    assert_eq!(lookup(&encoded, b"_x"), Some(2));
    assert_eq!(lookup(&encoded, b"_"), None);
}

#[test]
fn bytes_are_written_while_there_is_room() {
    let mut out = [0u8; 1];
    let mut cursor = 0;
    assert_eq!(write_byte(&mut out, &mut cursor, 7), Ok(()));
    assert_eq!(out, [7]);
    assert_eq!(cursor, 1);
    assert_eq!(
        write_byte(&mut out, &mut cursor, 8),
        Err(ExportTrieError::InsufficientAllocation)
    );
    assert_eq!(out, [7]);
}

#[test]
fn lengths_of_variable_length_numbers() {
    assert_eq!(uleb128_len(0), 1);
    assert_eq!(uleb128_len(0x7f), 1);
    assert_eq!(uleb128_len(0x80), 2);
    assert_eq!(uleb128_len(0x3fff), 2);
    assert_eq!(uleb128_len(0x4000), 3);
    assert_eq!(uleb128_len(u64::MAX), 10);
}

#[test]
fn room_for_the_widest_addresses_is_enough() {
    let widest: Vec<(&[u8], u64)> = vec![
        (b"_alpha".as_slice(), u64::MAX),
        (b"_alphabet".as_slice(), u64::MAX),
        (b"_beta".as_slice(), u64::MAX),
    ];
    let exports: Vec<(&[u8], u64)> = vec![
        (b"_alpha".as_slice(), 0x1000),
        (b"_alphabet".as_slice(), 0x2000),
        (b"_beta".as_slice(), 0x7f),
    ];
    let measured = ExportTrie::build(&widest).len();
    let written = ExportTrie::build(&exports);
    assert!(written.len() <= measured);
    let mut encoded = vec![0u8; measured];
    assert_eq!(written.write(&mut encoded), Ok(()));
    assert_eq!(lookup(&encoded, b"_alphabet"), Some(0x2000));
}

#[test]
fn placing_again_changes_nothing() {
    let names: Vec<Vec<u8>> = (0..40).map(|i| format!("_name_{i}").into_bytes()).collect();
    let exports: Vec<(&[u8], u64)> = names.iter().map(|n| (n.as_slice(), 0x4000)).collect();
    let mut trie = ExportTrie::build(&exports);
    let mut first = vec![0u8; trie.len()];
    trie.write(&mut first).unwrap();
    trie.assign_offsets();
    let mut second = vec![0u8; trie.len()];
    trie.write(&mut second).unwrap();
    assert_eq!(first, second);
}

#[test]
fn nodes_are_placed_wherever_they_start() {
    let names: Vec<Vec<u8>> = (0..40).map(|i| format!("_name_{i}").into_bytes()).collect();
    let exports: Vec<(&[u8], u64)> = names.iter().map(|n| (n.as_slice(), 0x4000)).collect();
    let settled = ExportTrie::build(&exports);
    for start in [0, 1, 127, 128, 0x4000, u32::MAX] {
        let mut trie = ExportTrie::build(&exports);
        for node in &mut trie.nodes {
            node.offset = start;
        }
        trie.assign_offsets();
        for (node, expected) in trie.nodes.iter().zip(&settled.nodes) {
            assert_eq!(node.offset, expected.offset);
        }
        assert_eq!(trie.nodes[0].offset, 0);
        for i in 1..trie.nodes.len() {
            let before = trie.nodes[i - 1].offset as usize + trie.encoded_len(i - 1);
            assert_eq!(trie.nodes[i].offset as usize, before);
        }
    }
}

#[test]
fn a_zero_in_a_name_is_written_as_it_is() {
    let trie = ExportTrie::build(&[(b"a\0b".as_slice(), 1)]);
    let mut encoded = vec![0xffu8; trie.len()];
    assert_eq!(trie.write(&mut encoded), Ok(()));
    assert_eq!(encoded, vec![0, 1, b'a', 0, b'b', 0, 7, 2, 0, 1, 0]);
    // The label seems to end early, so the name is not found.
    assert_eq!(lookup(&encoded, b"a\0b"), None);
}
