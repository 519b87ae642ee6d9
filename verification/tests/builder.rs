use arx::creator::Creator;
use arx::entry::{Attrs, Compression, ConcatMode, EntryDesc, EntryKind, EntryPayload};
use arx::error::ArxError;
use arx::layout::OutputRole;
use arx::plan::{ArchivePlan, IndexName};
use arx::tree::{ChildRef, ChildSlot};

fn attrs(owner: u64, group: u64, rights: u64, mtime: u64) -> Attrs {
    Attrs { owner, group, rights, mtime }
}

fn desc(path: &[&[u8]], a: Attrs, kind: EntryKind) -> EntryDesc {
    EntryDesc { path: path.iter().map(|c| c.to_vec()).collect(), attrs: a, kind }
}

fn sample_creator() -> Creator {
    let mut c = Creator::new(ConcatMode::OneFile, Compression::Zstd);
    let a = attrs(7, 8, 0o644, 99);
    c.add_entry(&desc(&[b"b"], a, EntryKind::Dir)).unwrap();
    c.add_entry(&desc(&[b"b", b"z.txt"], a, EntryKind::File { size: 3, entropy_millibits: 8000 }))
        .unwrap();
    c.add_entry(&desc(&[b"b", b"a.txt"], a, EntryKind::File { size: 5, entropy_millibits: 1000 }))
        .unwrap();
    c.add_entry(&desc(&[b"a"], a, EntryKind::Dir)).unwrap();
    c.add_entry(&desc(&[b"a", b"l"], a, EntryKind::Link { target: b"b/z.txt".to_vec() }))
        .unwrap();
    c.add_entry(&desc(&[b"top"], a, EntryKind::File { size: 1, entropy_millibits: 0 })).unwrap();
    c
}

#[test]
fn sorted_store_layout() {
    let c = sample_creator();
    let plan = c.finalize(&b"test.arx".to_vec()).unwrap();
    let names: Vec<&[u8]> = plan.entries.iter().map(|e| e.name.as_slice()).collect();
    assert_eq!(names, vec![
        b"a".as_slice(),
        b"b".as_slice(),
        b"top".as_slice(),
        b"l".as_slice(),
        b"a.txt".as_slice(),
        b"z.txt".as_slice(),
    ]);
    let parents: Vec<u64> = plan.entries.iter().map(|e| e.parent).collect();
    assert_eq!(parents, vec![0, 0, 0, 1, 2, 2]);
}

#[test]
fn directory_child_ranges() {
    let c = sample_creator();
    let plan = c.finalize(&b"test.arx".to_vec()).unwrap();
    match plan.entries[0].payload {
        EntryPayload::Dir { first_child, child_count } => {
            assert_eq!(first_child, 3);
            assert_eq!(child_count, 1);
        },
        _ => panic!("entry 0 should be the directory `a`"),
    }
    match plan.entries[1].payload {
        EntryPayload::Dir { first_child, child_count } => {
            assert_eq!(first_child, 4);
            assert_eq!(child_count, 2);
        },
        _ => panic!("entry 1 should be the directory `b`"),
    }
}

#[test]
fn content_addresses_and_sizes() {
    let c = sample_creator();
    let plan = c.finalize(&b"test.arx".to_vec()).unwrap();
    match plan.entries[5].payload {
        EntryPayload::File { content, size } => {
            assert_eq!(content.pack_id, 1);
            assert_eq!(content.content_id, 0);
            assert_eq!(size, 3);
        },
        _ => panic!("z.txt should be a file"),
    }
    match plan.entries[4].payload {
        EntryPayload::File { content, size } => {
            assert_eq!(content.content_id, 1);
            assert_eq!(size, 5);
        },
        _ => panic!("a.txt should be a file"),
    }
    match &plan.entries[3].payload {
        EntryPayload::Link { target } => assert_eq!(target.as_slice(), b"b/z.txt"),
        _ => panic!("l should be a link"),
    }
}

#[test]
fn entropy_guided_compression() {
    let c = sample_creator();
    let plan = c.finalize(&b"test.arx".to_vec()).unwrap();
    assert_eq!(plan.clusters.len(), 3);
    assert_eq!(plan.clusters[0].size, 3);
    assert!(!plan.clusters[0].compressed, "high-entropy payload stays raw");
    assert!(plan.clusters[1].compressed, "low-entropy payload is compressed");
    assert!(plan.clusters[2].compressed);
}

#[test]
fn no_compression_when_off() {
    let mut c = Creator::new(ConcatMode::OneFile, Compression::Off);
    let a = attrs(1, 1, 0o644, 0);
    c.add_entry(&desc(&[b"f1"], a, EntryKind::File { size: 9, entropy_millibits: 0 })).unwrap();
    c.add_entry(&desc(&[b"f2"], a, EntryKind::File { size: 9, entropy_millibits: 7499 }))
        .unwrap();
    let plan = c.finalize(&b"x.arx".to_vec()).unwrap();
    assert!(plan.clusters.iter().all(|cl| !cl.compressed));
}

#[test]
fn index_registration() {
    let c = sample_creator();
    let plan = c.finalize(&b"test.arx".to_vec()).unwrap();
    assert_eq!(plan.indexes.len(), 2);
    assert_eq!(plan.indexes[0].name, IndexName::Entries);
    assert_eq!(plan.indexes[0].entry_count, 6);
    assert_eq!(plan.indexes[0].first_entry, 0);
    assert_eq!(plan.indexes[1].name, IndexName::Root);
    assert_eq!(plan.indexes[1].entry_count, 3);
    assert_eq!(plan.indexes[1].first_entry, 0);
}

#[test]
fn concat_mode_inventories() {
    for (mode, want) in [
        (ConcatMode::OneFile, vec![(b"test.arx".to_vec(), OutputRole::Manifest)]),
        (ConcatMode::TwoFiles, vec![
            (b"test.arx".to_vec(), OutputRole::Manifest),
            (b"test.arx.jbkc".to_vec(), OutputRole::ContentPack),
        ]),
        (ConcatMode::NoConcat, vec![
            (b"test.arx".to_vec(), OutputRole::Manifest),
            (b"test.arx.jbkc".to_vec(), OutputRole::ContentPack),
            (b"test.arx.jbkd".to_vec(), OutputRole::DirectoryPack),
        ]),
    ] {
        let c = Creator::new(mode, Compression::Zstd);
        let plan = c.finalize(&b"test.arx".to_vec()).unwrap();
        let got: Vec<(Vec<u8>, OutputRole)> =
            plan.outputs.iter().map(|o| (o.name.clone(), o.role)).collect();
        assert_eq!(got, want);
    }
}

#[test]
fn directory_readd_is_noop() {
    let build = |twice: bool| -> ArchivePlan {
        let mut c = Creator::new(ConcatMode::OneFile, Compression::Zstd);
        let a = attrs(7, 8, 0o755, 99);
        c.add_entry(&desc(&[b"d"], a, EntryKind::Dir)).unwrap();
        if twice {
            // the second addition carries other attributes: the first wins
            let b = attrs(0, 0, 0, 0);
            c.add_entry(&desc(&[b"d"], b, EntryKind::Dir)).unwrap();
        }
        c.add_entry(
            &desc(&[b"d", b"f"], a, EntryKind::File { size: 2, entropy_millibits: 9000 }),
        )
        .unwrap();
        c.finalize(&b"t.arx".to_vec()).unwrap()
    };
    let once = build(false);
    let twice = build(true);
    assert_eq!(once.entries, twice.entries);
    assert_eq!(once.order, twice.order);
    assert_eq!(once.indexes, twice.indexes);
    assert_eq!(once.clusters, twice.clusters);
}

#[test]
fn duplicate_non_directory_is_refused() {
    let mut c = Creator::new(ConcatMode::OneFile, Compression::Zstd);
    let a = attrs(1, 1, 0o644, 0);
    c.add_entry(&desc(&[b"f"], a, EntryKind::File { size: 1, entropy_millibits: 0 })).unwrap();
    let again = c.add_entry(&desc(&[b"f"], a, EntryKind::File { size: 1, entropy_millibits: 0 }));
    assert_eq!(again, Err(ArxError::DuplicateName { name: b"f".to_vec() }));
    // a directory cannot take a file's name either
    let dir = c.add_entry(&desc(&[b"f"], a, EntryKind::Dir));
    assert_eq!(dir, Err(ArxError::DuplicateName { name: b"f".to_vec() }));
    // and a file cannot take a directory's name
    c.add_entry(&desc(&[b"d"], a, EntryKind::Dir)).unwrap();
    let file_over_dir =
        c.add_entry(&desc(&[b"d"], a, EntryKind::File { size: 1, entropy_millibits: 0 }));
    assert_eq!(file_over_dir, Err(ArxError::DuplicateName { name: b"d".to_vec() }));
    // a path component blocked by a file refuses deeper entries
    let below_file =
        c.add_entry(&desc(&[b"f", b"x"], a, EntryKind::File { size: 1, entropy_millibits: 0 }));
    assert_eq!(below_file, Err(ArxError::DuplicateName { name: b"f".to_vec() }));
}

#[test]
fn ancestors_are_synthesized_with_defaults() {
    let mut c = Creator::new(ConcatMode::OneFile, Compression::Zstd);
    let a = attrs(42, 43, 0o600, 7);
    c.add_entry(&desc(&[b"x", b"y", b"f.txt"], a, EntryKind::File {
        size: 4,
        entropy_millibits: 9000,
    }))
    .unwrap();
    let plan = c.finalize(&b"t.arx".to_vec()).unwrap();
    assert_eq!(plan.entries.len(), 3);
    let x = &plan.entries[0];
    assert_eq!(x.name, b"x".to_vec());
    assert_eq!(x.attrs, Attrs { owner: 1000, group: 1000, rights: 0o755, mtime: 0 });
    let y = &plan.entries[1];
    assert_eq!(y.name, b"y".to_vec());
    assert_eq!(y.attrs, Attrs { owner: 1000, group: 1000, rights: 0o755, mtime: 0 });
    let f = &plan.entries[2];
    assert_eq!(f.name, b"f.txt".to_vec());
    assert_eq!(f.attrs, a);
}

#[test]
fn empty_archive_finalizes() {
    let c = Creator::new(ConcatMode::NoConcat, Compression::Off);
    let plan = c.finalize(&b"empty.arx".to_vec()).unwrap();
    assert_eq!(plan.entries.len(), 0);
    assert_eq!(plan.indexes[0].entry_count, 0);
    assert_eq!(plan.indexes[1].entry_count, 0);
    assert_eq!(plan.outputs.len(), 3);
    assert_eq!(plan.clusters.len(), 0);
}

#[test]
fn broken_tree_is_refused() {
    let mut c = Creator::new(ConcatMode::OneFile, Compression::Zstd);
    // a child slot pointing at a record that does not exist
    c.tree.nodes[0].children.push(ChildSlot {
        name: b"ghost".to_vec(),
        child: ChildRef::Leaf { record: 0 },
    });
    let r = c.finalize(&b"t.arx".to_vec());
    assert_eq!(r.err(), Some(ArxError::BrokenLayout));
}

// Walks a finalized plan the way a reader would: starting from the root
// index, following each directory's child range, rebuilding full paths.
fn reconstruct(plan: &ArchivePlan) -> Vec<(Vec<Vec<u8>>, u64, u64, u64, u64)> {
    let mut got = Vec::new();
    let root = plan.indexes[1].entry_count as usize;
    let mut stack: Vec<(usize, usize, Vec<Vec<u8>>)> = vec![(0, root, Vec::new())];
    while let Some((lo, hi, prefix)) = stack.pop() {
        for i in lo..hi {
            let e = &plan.entries[i];
            let mut path = prefix.clone();
            path.push(e.name.clone());
            got.push((path.clone(), e.attrs.owner, e.attrs.group, e.attrs.rights, e.attrs.mtime));
            if let EntryPayload::Dir { first_child, child_count } = e.payload {
                stack.push((first_child as usize, (first_child + child_count) as usize, path));
            }
        }
    }
    got.sort();
    got
}

#[test]
fn round_trip_of_names_structure_and_attrs() {
    let c = sample_creator();
    let plan = c.finalize(&b"test.arx".to_vec()).unwrap();
    let got = reconstruct(&plan);
    let mut want: Vec<(Vec<Vec<u8>>, u64, u64, u64, u64)> = vec![
        (vec![b"b".to_vec()], 7, 8, 0o644, 99),
        (vec![b"b".to_vec(), b"z.txt".to_vec()], 7, 8, 0o644, 99),
        (vec![b"b".to_vec(), b"a.txt".to_vec()], 7, 8, 0o644, 99),
        (vec![b"a".to_vec()], 7, 8, 0o644, 99),
        (vec![b"a".to_vec(), b"l".to_vec()], 7, 8, 0o644, 99),
        (vec![b"top".to_vec()], 7, 8, 0o644, 99),
    ];
    want.sort();
    assert_eq!(got, want);
}

#[test]
fn unordered_adds_keep_invariants() {
    let mut c = Creator::new(ConcatMode::TwoFiles, Compression::Lz4);
    let a = attrs(1, 2, 0o700, 5);
    // leaves first: every ancestor is synthesized, then some dirs re-added
    c.add_entry(&desc(&[b"d2", b"s1", b"f1"], a, EntryKind::File { size: 1, entropy_millibits: 100 }))
        .unwrap();
    c.add_entry(&desc(&[b"d1", b"s2", b"f2"], a, EntryKind::File { size: 2, entropy_millibits: 8000 }))
        .unwrap();
    c.add_entry(&desc(&[b"d1"], a, EntryKind::Dir)).unwrap();
    c.add_entry(&desc(&[b"d1", b"s1"], a, EntryKind::Dir)).unwrap();
    c.add_entry(&desc(&[b"d1", b"s1", b"l1"], a, EntryKind::Link { target: b"../s2/f2".to_vec() }))
        .unwrap();
    c.add_entry(&desc(&[b"d0"], a, EntryKind::Dir)).unwrap();
    c.add_entry(&desc(&[b"d2", b"s1", b"f0"], a, EntryKind::File { size: 3, entropy_millibits: 200 }))
        .unwrap();
    let plan = c.finalize(&b"t.arx".to_vec()).unwrap();
    assert_eq!(plan.entries.len(), 10);
    // the verified layout checkers agree with what finalize guaranteed
    assert!(arx::plan::check_sorted(&plan.entries));
    assert!(arx::plan::check_parents(&plan.entries));
    assert!(arx::plan::check_ranges(&plan.entries));
    // the layout order is a permutation of the ten records
    let mut seen = vec![false; plan.order.len()];
    for r in &plan.order {
        assert!(!seen[*r]);
        seen[*r] = true;
    }
    assert!(seen.iter().all(|s| *s));
    // root block: d0, d1, d2
    let roots: Vec<&[u8]> = plan.entries[..3].iter().map(|e| e.name.as_slice()).collect();
    assert_eq!(roots, vec![b"d0".as_slice(), b"d1".as_slice(), b"d2".as_slice()]);
}

#[test]
fn failed_add_leaves_builder_untouched() {
    let mut c = Creator::new(ConcatMode::OneFile, Compression::Zstd);
    let a = attrs(1, 1, 0o644, 0);
    c.add_entry(&desc(&[b"f"], a, EntryKind::File { size: 1, entropy_millibits: 0 })).unwrap();
    let before = c.finalize(&b"t.arx".to_vec()).unwrap();
    let mut c2 = Creator::new(ConcatMode::OneFile, Compression::Zstd);
    c2.add_entry(&desc(&[b"f"], a, EntryKind::File { size: 1, entropy_millibits: 0 })).unwrap();
    // refused adds change nothing
    c2.add_entry(&desc(&[b"f", b"deep", b"x"], a, EntryKind::Dir)).unwrap_err();
    c2.add_entry(&desc(&[b"f"], a, EntryKind::Link { target: b"t".to_vec() })).unwrap_err();
    let after = c2.finalize(&b"t.arx".to_vec()).unwrap();
    assert_eq!(before.entries, after.entries);
    assert_eq!(before.clusters, after.clusters);
}
