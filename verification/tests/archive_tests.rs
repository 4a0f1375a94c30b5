use pk2::archive::Pk2;
use pk2::entry::PackEntry;
use pk2::Error;

use blowfish::cipher::{BlockCipherEncrypt, KeyInit};

fn names_of(pk2: &Pk2, dir: &str) -> Vec<String> {
    let d = pk2.open_directory(dir).unwrap();
    d.entries(pk2)
        .unwrap()
        .iter()
        .map(|e| e.name().unwrap())
        .collect()
}

#[test]
fn create_plain_header_bytes() {
    let pk2 = Pk2::create_new_in(b"").unwrap();
    assert_eq!(pk2.data.len(), 256 + 2560);
    let sig: &[u8] = b"JoyMax File Manager!\n\0\0\0\0\0\0\0\0\0";
    assert_eq!(&pk2.data[0..30], sig);
    assert_eq!(pk2.data[37], 0);
    // version constant, little-endian
    assert_eq!(&pk2.data[30..34], &[0x02, 0x00, 0x00, 0x01]);
}

#[test]
fn create_encrypted_key_check_bytes() {
    let pk2 = Pk2::create_new_in(b"169841").unwrap();
    assert_eq!(pk2.data[37], 1);
    let salt = [
        0x03u8, 0xF8, 0xE4, 0x44, 0x88, 0x99, 0x3F, 0x64, 0xFE, 0x35,
    ];
    let mut key: Vec<u8> = b"169841".to_vec();
    for i in 0..key.len() {
        key[i] ^= salt[i];
    }
    let bf = blowfish::BlowfishLE::new_from_slice(&key).unwrap();
    let mut block = blowfish::cipher::Block::<blowfish::BlowfishLE>::from([0xB7u8; 8]);
    bf.encrypt_block(&mut block);
    assert_eq!(&pk2.data[40..43], &block[..3]);
}

#[test]
fn open_after_create_succeeds() {
    let pk2 = Pk2::create_new_in(b"169841").unwrap();
    let reopened = Pk2::open_in(pk2.data, b"169841");
    assert!(reopened.is_ok());
}

#[test]
fn open_with_wrong_key_fails() {
    let pk2 = Pk2::create_new_in(b"169841").unwrap();
    let reopened = Pk2::open_in(pk2.data, b"wrong key");
    assert_eq!(reopened.err().unwrap(), Error::InvalidKey);
}

#[test]
fn open_encrypted_with_empty_key_fails() {
    let pk2 = Pk2::create_new_in(b"169841").unwrap();
    let reopened = Pk2::open_in(pk2.data, b"");
    assert_eq!(reopened.err().unwrap(), Error::InvalidKey);
}

#[test]
fn open_plain_with_any_key_succeeds() {
    let pk2 = Pk2::create_new_in(b"").unwrap();
    assert!(Pk2::open_in(pk2.data, b"whatever").is_ok());
}

#[test]
fn open_with_bad_signature_fails() {
    let pk2 = Pk2::create_new_in(b"").unwrap();
    let mut data = pk2.data;
    data[0] = b'X';
    assert_eq!(Pk2::open_in(data, b"").err().unwrap(), Error::CorruptedFile);
}

#[test]
fn open_with_bad_version_fails() {
    let pk2 = Pk2::create_new_in(b"").unwrap();
    let mut data = pk2.data;
    data[30] = 0x03;
    assert_eq!(
        Pk2::open_in(data, b"").err().unwrap(),
        Error::UnsupportedVersion
    );
}

#[test]
fn open_truncated_image_fails() {
    assert_eq!(
        Pk2::open_in(vec![0u8; 100], b"").err().unwrap(),
        Error::CorruptedFile
    );
}

#[test]
fn nested_create_and_enumerate() {
    let mut pk2 = Pk2::create_new_in(b"").unwrap();
    pk2.create_file("/dir/sub/file.bin").unwrap();
    assert_eq!(names_of(&pk2, "/"), vec!["dir".to_string()]);
    assert_eq!(names_of(&pk2, "/dir"), vec!["sub".to_string()]);
    assert_eq!(names_of(&pk2, "/dir/sub"), vec!["file.bin".to_string()]);
    let f = pk2.open_file("/dir/sub/file.bin").unwrap();
    let bytes = f.read_to_end(&pk2).unwrap();
    assert_eq!(bytes.len(), 0);
}

#[test]
fn twentyfirst_entry_appends_block() {
    let mut pk2 = Pk2::create_new_in(b"").unwrap();
    // the root block holds `.` and nineteen free slots
    let mut eof_before_20th = 0;
    for i in 0..21 {
        let name = format!("/f{:02}", i);
        if i == 19 {
            eof_before_20th = pk2.data.len();
        }
        pk2.create_file(&name).unwrap();
        // persist the entry so reads find a consistent image
        let h = pk2.open_file_mut(&name).unwrap();
        h.write_all(&mut pk2, &Vec::new()).unwrap();
        h.flush(&pk2).unwrap();
    }
    let root = pk2
        .block_manager
        .get(pk2::ChainIndex(pk2::PK2_ROOT_BLOCK))
        .unwrap();
    assert_eq!(root.num_blocks(), 2);
    // the second block was appended at what was then the end of the image
    assert_eq!(root.blocks[1].offset, eof_before_20th as u64);
    // and the twentieth file landed at flattened index 20
    let h = pk2.open_file("/f19").unwrap();
    assert_eq!(h.entry, 20);
}

#[test]
fn delete_keeps_neighbours_and_size() {
    let mut pk2 = Pk2::create_new_in(b"").unwrap();
    for i in 0..12 {
        let name = format!("/f{:02}", i);
        pk2.create_file(&name).unwrap();
        let h = pk2.open_file_mut(&name).unwrap();
        let payload = vec![i as u8; 4];
        h.write_all(&mut pk2, &payload).unwrap();
    }
    let len_before = pk2.data.len();
    let blocks_before = {
        let root = pk2
            .block_manager
            .get(pk2::ChainIndex(pk2::PK2_ROOT_BLOCK))
            .unwrap();
        root.num_blocks()
    };
    pk2.delete_file("/f10").unwrap();
    assert_eq!(pk2.open_file("/f10").err().unwrap(), Error::NotFound);
    let h = pk2.open_file("/f09").unwrap();
    assert_eq!(h.read_to_end(&pk2).unwrap(), vec![9u8; 4]);
    assert_eq!(pk2.data.len(), len_before);
    let root = pk2
        .block_manager
        .get(pk2::ChainIndex(pk2::PK2_ROOT_BLOCK))
        .unwrap();
    assert_eq!(root.num_blocks(), blocks_before);
}

#[test]
fn write_flush_reopen_read() {
    let mut pk2 = Pk2::create_new_in(b"169841").unwrap();
    pk2.create_file("/greeting").unwrap();
    let h = pk2.open_file_mut("/greeting").unwrap();
    h.write_all(&mut pk2, &b"hello".to_vec()).unwrap();
    h.flush(&pk2).unwrap();
    let reopened = Pk2::open_in(pk2.data, b"169841").unwrap();
    let f = reopened.open_file("/greeting").unwrap();
    assert_eq!(f.read_to_end(&reopened).unwrap(), vec![0x68, 0x65, 0x6c, 0x6c, 0x6f]);
    assert_eq!(f.size(&reopened).unwrap(), 5);
}

#[test]
fn overwrite_relocates_payload() {
    let mut pk2 = Pk2::create_new_in(b"").unwrap();
    pk2.create_file("/a").unwrap();
    let h = pk2.open_file_mut("/a").unwrap();
    h.write_all(&mut pk2, &b"first".to_vec()).unwrap();
    h.write_all(&mut pk2, &b"the second payload".to_vec()).unwrap();
    let f = pk2.open_file("/a").unwrap();
    assert_eq!(f.read_to_end(&pk2).unwrap(), b"the second payload".to_vec());
}

#[test]
fn deep_paths_step_by_step() {
    let mut pk2 = Pk2::create_new_in(b"").unwrap();
    pk2.create_file("/a/b/c/d/file").unwrap();
    pk2.create_file("/a/b/other").unwrap();
    pk2.create_file("/a/second").unwrap();
    assert_eq!(names_of(&pk2, "/a/b/c/d"), vec!["file".to_string()]);
    let mut b_names = names_of(&pk2, "/a/b");
    b_names.sort();
    assert_eq!(b_names, vec!["c".to_string(), "other".to_string()]);
    let mut a_names = names_of(&pk2, "/a");
    a_names.sort();
    assert_eq!(a_names, vec!["b".to_string(), "second".to_string()]);
}

#[test]
fn dot_components_resolve() {
    let mut pk2 = Pk2::create_new_in(b"").unwrap();
    pk2.create_file("/a/file").unwrap();
    assert!(pk2.open_file("/a/./file").is_ok());
    assert!(pk2.open_file("/a/../a/file").is_ok());
    assert_eq!(
        pk2.open_file("/../x").err().unwrap(),
        Error::NotFound
    );
}

#[test]
fn error_variants_surface() {
    let mut pk2 = Pk2::create_new_in(b"").unwrap();
    pk2.create_file("/dir/file").unwrap();
    assert_eq!(pk2.open_file("relative").err().unwrap(), Error::InvalidPath);
    assert_eq!(pk2.open_file("/missing").err().unwrap(), Error::NotFound);
    assert_eq!(pk2.open_file("/dir").err().unwrap(), Error::ExpectedFile);
    assert_eq!(
        pk2.open_directory("/dir/file").err().unwrap(),
        Error::ExpectedDirectory
    );
    assert_eq!(pk2.delete_file("/dir").err().unwrap(), Error::ExpectedFile);
    // a terminal name that is already present is rejected, file or directory
    assert_eq!(
        pk2.create_file("/dir/file").err().unwrap(),
        Error::AlreadyExists
    );
    assert_eq!(pk2.create_file("/dir").err().unwrap(), Error::AlreadyExists);
    // a file in the middle of a path cannot be walked through
    assert_eq!(
        pk2.create_file("/dir/file/deeper").err().unwrap(),
        Error::ExpectedDirectory
    );
    let long = format!("/{}", "x".repeat(82));
    assert_eq!(pk2.create_file(&long).err().unwrap(), Error::NonUnicodePath);
}

#[test]
fn enumeration_is_stable() {
    let mut pk2 = Pk2::create_new_in(b"").unwrap();
    pk2.create_file("/b").unwrap();
    pk2.create_file("/a").unwrap();
    pk2.create_file("/c").unwrap();
    let first = names_of(&pk2, "/");
    let second = names_of(&pk2, "/");
    assert_eq!(first, second);
    assert_eq!(first, vec!["b".to_string(), "a".to_string(), "c".to_string()]);
}

#[test]
fn korean_names_round_trip() {
    let mut pk2 = Pk2::create_new_in(b"").unwrap();
    pk2.create_file("/\u{d55c}\u{ae00}.txt").unwrap();
    let names = names_of(&pk2, "/");
    assert_eq!(names, vec!["\u{d55c}\u{ae00}.txt".to_string()]);
    assert!(pk2.open_file("/\u{d55c}\u{ae00}.txt").is_ok());
    // the stored name is EUC-KR, not the UTF-8 bytes of the path
    let e = pk2.open_file("/\u{d55c}\u{ae00}.txt").unwrap();
    let root = pk2
        .block_manager
        .get(pk2::ChainIndex(pk2::PK2_ROOT_BLOCK))
        .unwrap();
    match root.get(e.entry).unwrap() {
        PackEntry::File { name, .. } => {
            assert_eq!(name, vec![0xC7u8, 0xD1, 0xB1, 0xDB, 0x2E, 0x74, 0x78, 0x74]);
        }
        _ => panic!("expected a file entry"),
    }
}

#[test]
fn empty_type_byte_is_empty_entry() {
    let mut bytes = vec![0u8; 128];
    for i in 1..128 {
        bytes[i] = 0xAB;
    }
    let e = PackEntry::from_reader(&bytes, 0).unwrap();
    assert!(e.is_empty());
    assert_eq!(e.next_block(), 0);
}

#[test]
fn unknown_type_byte_is_corrupted() {
    let bytes = vec![7u8; 128];
    assert_eq!(
        PackEntry::from_reader(&bytes, 0).err().unwrap(),
        Error::CorruptedFile
    );
}

#[test]
fn entry_codec_round_trip() {
    let e = PackEntry::new_file("payload.dat", 4096, 77, 0).unwrap();
    let mut out = Vec::new();
    e.to_writer(&mut out);
    assert_eq!(out.len(), 128);
    let back = PackEntry::from_reader(&out, 0).unwrap();
    assert!(back.is_file());
    assert_eq!(back.name().unwrap(), "payload.dat".to_string());
    match back {
        PackEntry::File { pos_data, size, .. } => {
            assert_eq!(pos_data, 4096);
            assert_eq!(size, 77);
        }
        _ => panic!("expected a file entry"),
    }
}

#[test]
fn directory_dot_entries_point_home() {
    let mut pk2 = Pk2::create_new_in(b"").unwrap();
    pk2.create_file("/d/f").unwrap();
    let d = pk2.open_directory("/d").unwrap();
    let child = {
        let root = pk2.block_manager.get(d.chain).unwrap();
        match root.get(d.entry).unwrap() {
            PackEntry::Directory { pos_children, .. } => pos_children,
            _ => panic!("expected a directory entry"),
        }
    };
    let chain = pk2.block_manager.get(child).unwrap();
    match chain.get(0).unwrap() {
        PackEntry::Directory { name, pos_children, .. } => {
            assert_eq!(name, vec![b'.']);
            assert_eq!(pos_children, child);
        }
        _ => panic!("expected the dot entry"),
    }
    match chain.get(1).unwrap() {
        PackEntry::Directory { name, pos_children, .. } => {
            assert_eq!(name, vec![b'.', b'.']);
            assert_eq!(pos_children.0, pk2::PK2_ROOT_BLOCK);
        }
        _ => panic!("expected the parent entry"),
    }
}

#[test]
fn reopen_multiblock_archive() {
    let mut pk2 = Pk2::create_new_in(b"169841").unwrap();
    for i in 0..21 {
        let name = format!("/f{:02}", i);
        pk2.create_file(&name).unwrap();
        let h = pk2.open_file_mut(&name).unwrap();
        h.write_all(&mut pk2, &vec![i as u8; 3]).unwrap();
    }
    let reopened = Pk2::open_in(pk2.data, b"169841").unwrap();
    for i in 0..21 {
        let name = format!("/f{:02}", i);
        let f = reopened.open_file(&name).unwrap();
        assert_eq!(f.read_to_end(&reopened).unwrap(), vec![i as u8; 3]);
    }
}

#[test]
fn parent_links_are_unique() {
    let mut pk2 = Pk2::create_new_in(b"").unwrap();
    pk2.create_file("/a/b/c/file").unwrap();
    pk2.create_file("/a/d/file").unwrap();
    pk2.create_file("/e/file").unwrap();
    let mut children: Vec<u64> = Vec::new();
    for chain in &pk2.block_manager.chains {
        for block in &chain.blocks {
            for entry in &block.entries {
                if let PackEntry::Directory { name, pos_children, .. } = entry {
                    if name != &vec![b'.'] && name != &vec![b'.', b'.'] {
                        children.push(pos_children.0);
                    }
                }
            }
        }
    }
    // directories: a, b, c, d, e
    assert_eq!(children.len(), 5);
    let mut sorted = children.clone();
    sorted.sort();
    sorted.dedup();
    assert_eq!(sorted.len(), children.len());
    // and every child chain's parent entry points back through `..`
    for chain in &pk2.block_manager.chains {
        let idx = chain.blocks[0].offset;
        if idx != pk2::PK2_ROOT_BLOCK {
            assert!(children.contains(&idx));
        }
    }
}

#[test]
fn cursor_reads_and_seeking() {
    let mut pk2 = Pk2::create_new_in(b"").unwrap();
    pk2.create_file("/greeting").unwrap();
    let h = pk2.open_file_mut("/greeting").unwrap();
    h.write_all(&mut pk2, &b"hello".to_vec()).unwrap();
    let mut f = pk2.open_file("/greeting").unwrap();
    assert_eq!(f.read(&pk2, 2).unwrap(), b"he".to_vec());
    assert_eq!(f.read(&pk2, 10).unwrap(), b"llo".to_vec());
    // the cursor sits at the end: further reads yield no bytes
    assert_eq!(f.read(&pk2, 4).unwrap(), Vec::<u8>::new());
    f.seek(1);
    assert_eq!(f.read(&pk2, 3).unwrap(), b"ell".to_vec());
    // seeking past the end is allowed and reads nothing
    f.seek(99);
    assert_eq!(f.read(&pk2, 4).unwrap(), Vec::<u8>::new());
}
