use droplet::backend::{
    backend_kind_for_path, has_backend_for_path, BackendKind, DropletHandler, PathVersionBackend,
    VersionBackend,
};
use droplet::types::{DropletError, VersionFile};

fn file(name: &str, size: u64) -> VersionFile {
    VersionFile {
        relative_filename: name.to_string(),
        permission: 0o755,
        size,
    }
}

#[test]
fn existing_directory_has_a_backend() {
    assert!(has_backend_for_path(true, true, "/games/release"));
}

#[test]
fn existing_zip_file_has_a_backend() {
    assert!(has_backend_for_path(true, false, "bundle.zip"));
}

#[test]
fn nonexistent_path_has_no_backend() {
    assert!(!has_backend_for_path(false, false, "missing.zip"));
    assert!(!has_backend_for_path(false, true, "/gone"));
}

#[test]
fn unrecognized_extension_has_no_backend() {
    assert!(!has_backend_for_path(true, false, "bundle.tar"));
    assert!(!has_backend_for_path(true, false, "zip"));
}

#[test]
fn backend_kind_follows_path_shape() {
    assert_eq!(
        backend_kind_for_path(true, true, "/release"),
        Some(BackendKind::Path)
    );
    assert_eq!(
        backend_kind_for_path(true, false, "v1.zip"),
        Some(BackendKind::Zip)
    );
    assert_eq!(backend_kind_for_path(true, false, "v1.rar"), None);
    assert_eq!(backend_kind_for_path(false, false, "v1.zip"), None);
}

#[test]
fn path_backend_lists_what_it_was_given() {
    let b = PathVersionBackend::new(
        String::from("/base"),
        vec![file("a.txt", 3), file("sub/b.txt", 7)],
    );
    assert!(!b.require_whole_files());
    let listed = b.list_files();
    assert_eq!(listed.len(), 2);
    assert_eq!(listed[0].relative_filename, "a.txt");
    assert_eq!(listed[1].relative_filename, "sub/b.txt");
    assert_eq!(listed[1].permission, 0o755);
    assert_eq!(listed[1].size, 7);
}

#[test]
fn path_backend_peeks_by_exact_name() {
    let b = PathVersionBackend::new(String::from("/base"), vec![file("a.txt", 3)]);
    let f = b.peek_file(&String::from("a.txt")).unwrap();
    assert_eq!(f.size, 3);
    let missing = b.peek_file(&String::from("b.txt"));
    assert_eq!(missing.unwrap_err(), DropletError::NotFound);
}

#[test]
fn handler_caches_and_serves_backends_by_path() {
    let mut h = DropletHandler::new();
    assert!(!h.has_cached(&String::from("/base")));
    let b = VersionBackend::Path(PathVersionBackend::new(
        String::from("/base"),
        vec![file("a.txt", 3), file("b.txt", 9)],
    ));
    h.insert_backend(String::from("/base"), b);
    assert!(h.has_cached(&String::from("/base")));
    let names = h.list_files(&String::from("/base")).unwrap();
    assert_eq!(names, vec![String::from("a.txt"), String::from("b.txt")]);
    let size = h.peek_file(&String::from("/base"), &String::from("b.txt")).unwrap();
    assert_eq!(size, 9);
}

#[test]
fn handler_reports_unavailable_backends() {
    let h = DropletHandler::new();
    let r = h.list_files(&String::from("/nowhere"));
    assert_eq!(r.unwrap_err(), DropletError::BackendUnavailable);
    let p = h.peek_file(&String::from("/nowhere"), &String::from("x"));
    assert_eq!(p.unwrap_err(), DropletError::BackendUnavailable);
}

#[test]
fn handler_reports_missing_files_in_cached_backends() {
    let mut h = DropletHandler::new();
    h.insert_backend(
        String::from("/base"),
        VersionBackend::Path(PathVersionBackend::new(String::from("/base"), vec![])),
    );
    let p = h.peek_file(&String::from("/base"), &String::from("x"));
    assert_eq!(p.unwrap_err(), DropletError::NotFound);
}

#[test]
fn handler_serves_zip_backends_too() {
    // a one-entry archive, stored without compression
    let name = b"a.txt";
    let content = b"hello";
    let crc = crc32fast::hash(content);
    let mut archive: Vec<u8> = Vec::new();
    for (sig, made_by) in [(0x04034b50u32, false), (0x02014b50u32, true)] {
        let header_start = archive.len();
        archive.extend_from_slice(&sig.to_le_bytes());
        if made_by {
            archive.extend_from_slice(&20u16.to_le_bytes());
        }
        archive.extend_from_slice(&20u16.to_le_bytes()); // version needed
        archive.extend_from_slice(&0u16.to_le_bytes()); // flags
        archive.extend_from_slice(&0u16.to_le_bytes()); // method: stored
        archive.extend_from_slice(&0u16.to_le_bytes()); // mod time
        archive.extend_from_slice(&0u16.to_le_bytes()); // mod date
        archive.extend_from_slice(&crc.to_le_bytes());
        archive.extend_from_slice(&(content.len() as u32).to_le_bytes());
        archive.extend_from_slice(&(content.len() as u32).to_le_bytes());
        archive.extend_from_slice(&(name.len() as u16).to_le_bytes());
        archive.extend_from_slice(&0u16.to_le_bytes()); // extra len
        if made_by {
            archive.extend_from_slice(&0u16.to_le_bytes()); // comment len
            archive.extend_from_slice(&0u16.to_le_bytes()); // disk number
            archive.extend_from_slice(&0u16.to_le_bytes()); // internal attrs
            archive.extend_from_slice(&0u32.to_le_bytes()); // external attrs
            archive.extend_from_slice(&0u32.to_le_bytes()); // local offset
        }
        archive.extend_from_slice(name);
        if !made_by {
            archive.extend_from_slice(content);
        }
        if made_by {
            let cd_size = (archive.len() - header_start) as u32;
            archive.extend_from_slice(&0x06054b50u32.to_le_bytes());
            archive.extend_from_slice(&0u16.to_le_bytes());
            archive.extend_from_slice(&0u16.to_le_bytes());
            archive.extend_from_slice(&1u16.to_le_bytes());
            archive.extend_from_slice(&1u16.to_le_bytes());
            archive.extend_from_slice(&cd_size.to_le_bytes());
            archive.extend_from_slice(&(header_start as u32).to_le_bytes());
            archive.extend_from_slice(&0u16.to_le_bytes());
        }
    }
    let zip = droplet::zip::ZipVersionBackend::new(archive).unwrap();
    let mut h = DropletHandler::new();
    h.insert_backend(String::from("v1.zip"), VersionBackend::Zip(zip));
    let names = h.list_files(&String::from("v1.zip")).unwrap();
    assert_eq!(names, vec![String::from("a.txt")]);
    assert_eq!(
        h.peek_file(&String::from("v1.zip"), &String::from("a.txt")).unwrap(),
        5
    );
    let b = h.find_backend(&String::from("v1.zip")).unwrap();
    assert!(b.require_whole_files());
}

#[test]
fn enum_backend_shares_the_capability_surface() {
    let b = VersionBackend::Path(PathVersionBackend::new(
        String::from("/base"),
        vec![file("a.txt", 3)],
    ));
    assert!(!b.require_whole_files());
    assert_eq!(b.list_files().len(), 1);
    assert_eq!(b.peek_file(&String::from("a.txt")).unwrap().size, 3);
}
