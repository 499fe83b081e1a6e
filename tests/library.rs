use media::digest::Digest;
use media::library::Library;
use media::manifest::{Manifest, Target};
use media::package::Package;

fn digest(n: u8) -> Digest {
    Digest([n; 32])
}

fn app(hash: u8, body: &[u8]) -> Package {
    Package {
        hash: digest(hash),
        manifest: Manifest::App {
            target: Target::Comic,
            paths: vec![("index.html".to_string(), digest(hash + 100))],
        },
        files: vec![(digest(hash + 100), body.to_vec())],
    }
}

#[test]
fn add() {
    let mut library = Library::default();

    let package = app(1, b"<html></html>");

    library.add(package.clone());

    assert_eq!(library.package(package.hash), Some(&package));
    assert_eq!(library.handler(Target::Comic), Some(&package));
}

#[test]
fn empty_library_finds_nothing() {
    let library = Library::new();
    assert_eq!(library.package(digest(1)), None);
    assert_eq!(library.handler(Target::Comic), None);
}

#[test]
fn handler_overwrite() {
    let mut library = Library::default();
    let first = app(1, b"first");
    let second = app(2, b"second");
    library.add(first.clone());
    library.add(second.clone());
    assert_eq!(library.handler(Target::Comic), Some(&second));
    assert_ne!(library.handler(Target::Comic), Some(&first));
    assert_eq!(library.package(first.hash), Some(&first));
    assert_eq!(library.package(second.hash), Some(&second));
}

#[test]
fn comic_is_stored_but_handles_nothing() {
    let mut library = Library::default();
    let comic = Package {
        hash: digest(7),
        manifest: Manifest::Comic { pages: vec![digest(8)] },
        files: vec![(digest(8), vec![1, 2, 3])],
    };
    library.add(comic.clone());
    assert_eq!(library.package(digest(7)), Some(&comic));
    assert_eq!(library.handler(Target::Comic), None);
}

#[test]
fn re_adding_a_digest_replaces_the_package() {
    let mut library = Library::default();
    let old = app(3, b"old");
    let mut new = app(3, b"new");
    new.files[0].1 = b"new".to_vec();
    library.add(old);
    library.add(new.clone());
    assert_eq!(library.package(digest(3)), Some(&new));
    assert_eq!(library.handler(Target::Comic), Some(&new));
}

#[test]
fn repeated_reads_agree() {
    let mut library = Library::default();
    let package = app(4, b"body");
    library.add(package.clone());
    let shared = &library;
    let first = (shared.package(package.hash), shared.handler(Target::Comic));
    for _ in 0..10 {
        assert_eq!(shared.package(package.hash), first.0);
        assert_eq!(shared.handler(Target::Comic), first.1);
    }
    let handler = shared.handler(Target::Comic).unwrap();
    assert_eq!(shared.package(handler.hash), Some(handler));
}
