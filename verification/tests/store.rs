use opensqlany::{
    accept_snapshot, plan_snapshot, validate_store_size, Error, PageStore, SnapshotRefusal,
    Superblock, SuperblockFormat, PAGE_SIZE,
};

fn store(pages: usize) -> PageStore {
    let bytes = (0..pages * PAGE_SIZE).map(|i| (i / PAGE_SIZE * 16 + i % 7) as u8).collect();
    PageStore::from_bytes(bytes).unwrap()
}

#[test]
fn stores_consist_of_whole_pages() {
    let too_small = PageStore::from_bytes(vec![0; PAGE_SIZE - 1]);
    assert!(matches!(too_small, Err(Error::TooSmall { size: 4095 })));
    let unaligned = PageStore::from_bytes(vec![0; PAGE_SIZE + 1]);
    assert!(matches!(unaligned, Err(Error::NotPageAligned { size: 4097, page_size: 4096 })));
    assert_eq!(validate_store_size(0), Err(Error::TooSmall { size: 0 }));
    assert_eq!(
        validate_store_size(u64::MAX),
        Err(Error::NotPageAligned { size: u64::MAX, page_size: PAGE_SIZE })
    );
    assert_eq!(validate_store_size(8192), Ok(()));
}

#[test]
fn pages_are_consecutive() {
    let store = store(3);
    assert_eq!(store.page_count(), 3);
    assert_eq!(store.size_bytes(), 3 * 4096);
    for index in 0..3 {
        let page = store.page(index).unwrap();
        assert_eq!(page.index(), index);
        assert_eq!(page.bytes().len(), PAGE_SIZE);
        for at in [0, 1, 4095] {
            let offset = index as usize * PAGE_SIZE + at;
            assert_eq!(page.bytes()[at], (index as usize * 16 + offset % 7) as u8);
        }
    }
    for index in [3, u64::MAX] {
        assert!(matches!(
            store.page(index),
            Err(Error::PageOutOfRange { page, total: 3 }) if page == index
        ));
    }
}

#[test]
fn iteration_hands_out_every_page_once() {
    let store = store(3);
    let mut pages = store.pages();
    for index in 0..3 {
        let left = 3 - index as usize;
        assert_eq!(pages.size_hint(), (left, Some(left)));
        let page = pages.next().unwrap();
        assert_eq!(page.index(), index);
        assert_eq!(page.bytes(), store.page(index).unwrap().bytes());
    }
    assert_eq!(pages.size_hint(), (0, Some(0)));
    assert!(pages.next().is_none());
    assert!(pages.next().is_none());
}

#[test]
fn superblocks_carry_the_magic_of_their_dialect() {
    let mut bytes = vec![0_u8; PAGE_SIZE];
    bytes[5..8].copy_from_slice(b"abc");
    let store = PageStore::from_bytes(bytes).unwrap();
    let format = SuperblockFormat { magic_offset: 5, magic: b"abc".to_vec() };
    let superblock = store.superblock(&format).unwrap();
    assert_eq!(superblock, Superblock { magic: b"abc".to_vec() });
    assert!(superblock.magic_ok(&format));

    let other = SuperblockFormat { magic_offset: 5, magic: b"abd".to_vec() };
    assert_eq!(
        store.superblock(&other),
        Err(Error::BadMagic { got: b"abc".to_vec(), want: b"abd".to_vec() })
    );
    let found = store.try_superblock(&other).unwrap();
    assert_eq!(found.magic, b"abc");
    assert!(!found.magic_ok(&other));
}

#[test]
fn snapshots_are_planned_from_the_initial_size() {
    assert_eq!(plan_snapshot(8192), Ok(8192));
    assert_eq!(
        plan_snapshot(100),
        Err(SnapshotRefusal::Store(Error::TooSmall { size: 100 }))
    );
    assert_eq!(
        plan_snapshot(5000),
        Err(SnapshotRefusal::Store(Error::NotPageAligned { size: 5000, page_size: 4096 }))
    );
}

#[test]
fn snapshots_of_changing_files_are_refused() {
    assert_eq!(accept_snapshot(8192, 8192), Ok(()));
    assert_eq!(accept_snapshot(8192, 4096), Err(SnapshotRefusal::Changed));
    assert_eq!(accept_snapshot(4096, 8192), Err(SnapshotRefusal::Changed));
    assert_eq!(
        accept_snapshot(5000, 5000),
        Err(SnapshotRefusal::Store(Error::NotPageAligned { size: 5000, page_size: 4096 }))
    );
}
