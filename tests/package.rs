use media::container::{find_blob, read_container, Container};
use media::digest::Digest;
use media::error::Error;
use media::manifest::{lookup_path, Manifest, Target};
use media::package::Package;
use media::page::parse_page;

fn digest(n: u8) -> Digest {
    Digest([n; 32])
}

fn container_bytes(manifest_index: u64, entries: &[(Digest, Vec<u8>)]) -> Vec<u8> {
    let mut out = Vec::new();
    out.extend_from_slice(&manifest_index.to_le_bytes());
    out.extend_from_slice(&(entries.len() as u64).to_le_bytes());
    for (d, blob) in entries {
        out.extend_from_slice(&d.0);
        out.extend_from_slice(&(blob.len() as u64).to_le_bytes());
    }
    for (_, blob) in entries {
        out.extend_from_slice(blob);
    }
    out
}

fn app_package() -> Package {
    Package {
        hash: digest(9),
        manifest: Manifest::App {
            target: Target::Comic,
            paths: vec![
                ("index.html".to_string(), digest(1)),
                ("app.js".to_string(), digest(2)),
            ],
        },
        files: vec![
            (digest(1), b"<html>...".to_vec()),
            (digest(2), b"console.log(1)".to_vec()),
        ],
    }
}

fn comic_package() -> Package {
    Package {
        hash: digest(9),
        manifest: Manifest::Comic { pages: vec![digest(10), digest(11), digest(12)] },
        files: vec![
            (digest(10), b"page a".to_vec()),
            (digest(11), b"page b".to_vec()),
            (digest(12), b"page c".to_vec()),
        ],
    }
}

#[test]
fn app_path_resolution() {
    let package = app_package();
    assert_eq!(
        package.get("index.html"),
        Some(("text/html".to_string(), b"<html>...".to_vec()))
    );
    assert_eq!(
        package.get("app.js"),
        Some(("text/javascript".to_string(), b"console.log(1)".to_vec()))
    );
    assert_eq!(package.get("missing.css"), None);
}

#[test]
fn unknown_extension_is_octet_stream() {
    let package = Package {
        hash: digest(9),
        manifest: Manifest::App {
            target: Target::Comic,
            paths: vec![("data.zzzq".to_string(), digest(1)), ("README".to_string(), digest(1))],
        },
        files: vec![(digest(1), vec![0, 1])],
    };
    let octet = "application/octet-stream".to_string();
    assert_eq!(package.get("data.zzzq"), Some((octet.clone(), vec![0, 1])));
    assert_eq!(package.get("README"), Some((octet, vec![0, 1])));
}

#[test]
fn comic_page_resolution() {
    let package = comic_package();
    assert_eq!(package.get("1"), Some(("image/jpeg".to_string(), b"page b".to_vec())));
    assert_eq!(package.get("0"), Some(("image/jpeg".to_string(), b"page a".to_vec())));
    assert_eq!(package.get("+2"), Some(("image/jpeg".to_string(), b"page c".to_vec())));
    assert_eq!(package.get("9"), None);
    assert_eq!(package.get("3"), None);
    assert_eq!(package.get("not-a-number"), None);
    assert_eq!(package.get(""), None);
    assert_eq!(package.get("-1"), None);
}

#[test]
fn page_numbers() {
    assert_eq!(parse_page("007", 10), Some(7));
    assert_eq!(parse_page("+", 10), None);
    assert_eq!(parse_page("1a", 10), None);
    assert_eq!(parse_page(" 1", 10), None);
    assert_eq!(parse_page("10", 10), None);
    assert_eq!(parse_page("0", 0), None);
    assert_eq!(parse_page("99999999999999999999999999", usize::MAX), None);
    assert_eq!(parse_page("123", usize::MAX), Some(123));
}

#[test]
fn later_path_pair_wins() {
    let paths = vec![("a".to_string(), digest(1)), ("a".to_string(), digest(2))];
    assert_eq!(lookup_path(&paths, "a"), Some(digest(2)));
    assert_eq!(lookup_path(&paths, "b"), None);
}

#[test]
fn round_trip() {
    let entries = vec![
        (digest(1), b"manifest".to_vec()),
        (digest(2), b"".to_vec()),
        (digest(3), b"third blob".to_vec()),
    ];
    let bytes = container_bytes(0, &entries);
    let container = read_container(&bytes).unwrap();
    assert_eq!(container, Container { manifest: digest(1), files: entries.clone() });
    assert_eq!(find_blob(&container.files, &digest(3)), Some(&b"third blob".to_vec()));

    let bytes = container_bytes(2, &entries);
    assert_eq!(read_container(&bytes).unwrap().manifest, digest(3));
}

#[test]
fn duplicate_digest_last_write_wins() {
    let entries = vec![(digest(1), b"one".to_vec()), (digest(1), b"two".to_vec())];
    let container = read_container(&container_bytes(1, &entries)).unwrap();
    assert_eq!(find_blob(&container.files, &digest(1)), Some(&b"two".to_vec()));
}

#[test]
fn trailing_bytes_are_ignored() {
    let entries = vec![(digest(1), b"m".to_vec())];
    let mut bytes = container_bytes(0, &entries);
    bytes.extend_from_slice(b"extra");
    assert_eq!(read_container(&bytes).unwrap().files, entries);
}

#[test]
fn truncated_containers() {
    let entries = vec![(digest(1), b"manifest".to_vec()), (digest(2), b"blob".to_vec())];
    let bytes = container_bytes(0, &entries);
    assert_eq!(read_container(&[]), Err(Error::Truncated));
    assert_eq!(read_container(&bytes[..15]), Err(Error::Truncated));
    assert_eq!(read_container(&bytes[..16 + 40]), Err(Error::Truncated));
    assert_eq!(read_container(&bytes[..bytes.len() - 1]), Err(Error::Truncated));
    let mut huge = 1u64.to_le_bytes().to_vec();
    huge.extend_from_slice(&u64::MAX.to_le_bytes());
    assert_eq!(read_container(&huge), Err(Error::Truncated));
}

#[test]
fn manifest_index_out_of_range() {
    let entries = vec![(digest(1), b"manifest".to_vec())];
    assert_eq!(read_container(&container_bytes(1, &entries)), Err(Error::ManifestIndex));
    assert_eq!(read_container(&container_bytes(0, &[])), Err(Error::ManifestIndex));
}

#[test]
fn load_keeps_container_and_manifest() {
    let container = Container {
        manifest: digest(9),
        files: vec![(digest(9), vec![]), (digest(10), b"a".to_vec())],
    };
    let comic = Manifest::Comic { pages: vec![digest(10)] };
    let package = Package::load(container.clone(), comic.clone());
    assert_eq!(package.hash, digest(9));
    assert_eq!(package.manifest, comic);
    assert_eq!(package.files, container.files);
    assert!(package.is_complete());
}

#[test]
fn load_accepts_a_broken_reference() {
    let container = Container {
        manifest: digest(9),
        files: vec![(digest(9), vec![]), (digest(10), b"a".to_vec())],
    };
    let comic = Manifest::Comic { pages: vec![digest(10), digest(11)] };
    let package = Package::load(container.clone(), comic.clone());
    assert_eq!(package.manifest, comic);
    assert!(!package.is_complete());
    let app = Manifest::App {
        target: Target::Comic,
        paths: vec![("ok.txt".to_string(), digest(10)), ("x".to_string(), digest(3))],
    };
    let package = Package::load(container, app);
    assert!(!package.is_complete());
}

#[test]
fn complete_packages() {
    assert!(app_package().is_complete());
    assert!(comic_package().is_complete());
}

#[test]
fn served_bytes_match_their_digest() {
    // Digest of a blob here: its first byte repeated.
    let blob_a = vec![21u8, 0, 0];
    let blob_b = vec![22u8, 5];
    let package = Package {
        hash: digest(9),
        manifest: Manifest::App {
            target: Target::Comic,
            paths: vec![("a.txt".to_string(), digest(21)), ("b.txt".to_string(), digest(22))],
        },
        files: vec![(digest(21), blob_a.clone()), (digest(22), blob_b.clone())],
    };
    for path in ["a.txt", "b.txt"] {
        let (_, bytes) = package.get(path).unwrap();
        let expected = match &package.manifest {
            Manifest::App { paths, .. } => lookup_path(paths, path).unwrap(),
            Manifest::Comic { .. } => unreachable!(),
        };
        assert_eq!(digest(bytes[0]), expected);
    }
}
