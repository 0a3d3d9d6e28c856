//! Tests for the container: construction, rendering, mutation at both
//! ends, comparison semantics, and normalization.

use std::cmp::Ordering;

use path_env::sys::byte_repr::{ByteBufRepr, ByteRepr, NativeString};
use path_env::{normalize, PathEnv};

/// The rendered text of a container, as plain bytes.
fn rendered(env: &PathEnv) -> Vec<u8> {
    ByteRepr::as_bytes(env.as_os_str()).to_vec()
}

#[test]
fn append_two_entries() {
    let mut path = PathEnv::empty();
    path.push_back(b"/a");
    path.push_back(b"/b");
    assert_eq!(rendered(&path), b"/a:/b".to_vec());
    assert_eq!(path.len(), 2);
    assert!(!path.is_empty());
    assert_eq!(path.front(), Some(&b"/a"[..]));
    assert_eq!(path.back(), Some(&b"/b"[..]));
}

#[test]
fn remove_last_two_entries() {
    let mut path = PathEnv::empty();
    path.push_back(b"/a");
    path.push_back(b"/b");
    path.pop_back_n(2);
    assert_eq!(rendered(&path), b"".to_vec());
    assert_eq!(path.len(), 0);
    assert!(path.is_empty());
    assert_eq!(path.front(), None);
    assert_eq!(path.back(), None);
}

#[test]
fn equal_to_raw_text_with_trailing_separator() {
    let path = PathEnv::from_bytes(b"/a:/b");
    assert!(path.equals_text(b"/a:/b:"));
    assert!(path.equals_text(b":/a::/b"));
    assert!(!path.equals_text(b"/a:/c"));
}

#[test]
fn construction_canonicalizes_rendering() {
    let path = PathEnv::from_bytes(b":/a::/b:");
    assert_eq!(rendered(&path), b"/a:/b".to_vec());
    assert_eq!(path.len(), 2);
}

#[test]
fn construct_render_round_trip() {
    for s in &[&b""[..], b"/a", b":/a::/b:", b"x:y:z", b"\xff\xfe:\x01"] {
        let path = PathEnv::from_bytes(s);
        let text = rendered(&path);
        let again = PathEnv::from_bytes(&text);
        assert!(path.equals(&again), "round trip failed for {:?}", s);
        assert_eq!(rendered(&again), text);
    }
}

#[test]
fn opaque_bytes_round_trip_unchanged() {
    // Content that is not valid text in any encoding still round-trips.
    let raw: &[u8] = b"\xff\xfe\x80";
    let path = PathEnv::from_bytes(raw);
    assert_eq!(rendered(&path), raw.to_vec());
}

#[test]
fn normalize_removes_redundant_separators() {
    let norm = normalize(b":/a::/b:");
    assert_eq!(ByteRepr::as_bytes(&norm), b"/a:/b");
    let empty = normalize(b"::::");
    assert_eq!(ByteRepr::as_bytes(&empty), b"");
}

#[test]
fn normalize_is_idempotent() {
    for s in &[&b""[..], b"::::", b":/a::/b:", b"/a:/b", b"\xff::\xfe"] {
        let once = normalize(s);
        let twice = normalize(ByteRepr::as_bytes(&once));
        assert_eq!(
            ByteRepr::as_bytes(&once),
            ByteRepr::as_bytes(&twice),
            "not idempotent for {:?}",
            s
        );
    }
}

#[test]
fn push_then_pop_restores() {
    let original = PathEnv::from_bytes(b"/a:/b");
    let mut path = original.clone();
    path.push_back(b"/c");
    assert_eq!(path.len(), 3);
    path.pop_back_n(1);
    assert!(path.equals(&original));
    assert_eq!(rendered(&path), rendered(&original));
}

#[test]
fn pop_beyond_length_empties() {
    let mut path = PathEnv::from_bytes(b"/a:/b");
    path.pop_back_n(10);
    assert!(path.is_empty());
    assert_eq!(rendered(&path), b"".to_vec());
}

#[test]
fn pop_back_one_at_a_time() {
    let mut path = PathEnv::from_bytes(b"/a:/b:/c");
    path.pop_back();
    assert_eq!(rendered(&path), b"/a:/b".to_vec());
    path.pop_back();
    assert_eq!(rendered(&path), b"/a".to_vec());
    path.pop_back();
    assert_eq!(rendered(&path), b"".to_vec());
    path.pop_back();
    assert_eq!(rendered(&path), b"".to_vec());
}

#[test]
fn push_front_prepends() {
    let mut path = PathEnv::from_bytes(b"/b");
    path.push_front(b"/a");
    assert_eq!(rendered(&path), b"/a:/b".to_vec());
    assert_eq!(path.front(), Some(&b"/a"[..]));
    path.push_front(b":/x::/y:");
    assert_eq!(rendered(&path), b"/x:/y:/a:/b".to_vec());
}

#[test]
fn pop_front_removes_from_the_front() {
    let mut path = PathEnv::from_bytes(b"/a:/b:/c");
    path.pop_front();
    assert_eq!(rendered(&path), b"/b:/c".to_vec());
    path.pop_front_n(5);
    assert!(path.is_empty());
    let mut empty = PathEnv::empty();
    empty.pop_front();
    assert!(empty.is_empty());
}

#[test]
fn get_is_positional() {
    let path = PathEnv::from_bytes(b"/a::/b:/c");
    assert_eq!(path.get(0), Some(&b"/a"[..]));
    assert_eq!(path.get(1), Some(&b"/b"[..]));
    assert_eq!(path.get(2), Some(&b"/c"[..]));
    assert_eq!(path.get(3), None);
}

#[test]
fn contains_compares_decoded_entries() {
    let mut path = PathEnv::empty();
    path.push_back(b"/path/to/my/bin");
    assert!(path.contains(b"/path/to/my/bin"));
    assert!(!path.contains(b"/path/to/other"));
    assert!(!path.contains(b""));
}

#[test]
fn iter_walks_the_cache() {
    let path = PathEnv::from_bytes(b"/a:/b:/c");
    let mut it = path.iter();
    assert_eq!(it.next(), Some(&b"/a"[..]));
    assert_eq!(it.next_back(), Some(&b"/c"[..]));
    assert_eq!(it.next(), Some(&b"/b"[..]));
    assert_eq!(it.next(), None);
}

#[test]
fn extend_appends_each_entry() {
    let mut path = PathEnv::empty();
    path.extend(&vec![b"/a".to_vec(), b"".to_vec(), b"/b:/c".to_vec()]);
    assert_eq!(rendered(&path), b"/a:/b:/c".to_vec());
    assert_eq!(path.len(), 3);
}

#[test]
fn clear_empties_everything() {
    let mut path = PathEnv::from_bytes(b"/a:/b");
    path.clear();
    assert!(path.is_empty());
    assert_eq!(rendered(&path), b"".to_vec());
}

#[test]
fn clone_is_independent() {
    let mut path = PathEnv::from_bytes(b"/a:/b");
    let copy = path.clone();
    path.push_back(b"/c");
    assert_eq!(copy.len(), 2);
    assert_eq!(rendered(&copy), b"/a:/b".to_vec());
    assert_eq!(path.len(), 3);
}

#[test]
fn comparison_is_over_decoded_sequences() {
    let a = PathEnv::from_bytes(b"/a:/b");
    let b = PathEnv::from_bytes(b":/a::/b:");
    let c = PathEnv::from_bytes(b"/a:/c");
    let shorter = PathEnv::from_bytes(b"/a");
    assert_eq!(a.compare(&b), Ordering::Equal);
    assert!(a.equals(&b));
    assert_eq!(a.compare(&c), Ordering::Less);
    assert_eq!(c.compare(&a), Ordering::Greater);
    assert_eq!(shorter.compare(&a), Ordering::Less);
    assert_eq!(a.compare(&shorter), Ordering::Greater);
}

#[test]
fn comparison_with_raw_text_never_materializes() {
    let a = PathEnv::from_bytes(b"/a:/b");
    assert_eq!(a.compare_text(b"::/a:/b::"), Ordering::Equal);
    assert_eq!(a.compare_text(b"/a:/c"), Ordering::Less);
    assert_eq!(a.compare_text(b"/a"), Ordering::Greater);
    assert_eq!(a.compare_text(b"/a:/b:/c"), Ordering::Less);
}

#[test]
fn native_string_byte_conversions() {
    let ns = <NativeString as ByteBufRepr>::from_bytes(b"/a:/b".to_vec());
    assert!(!<NativeString as ByteBufRepr>::is_empty(&ns));
    assert_eq!(ByteBufRepr::as_bytes(&ns), &b"/a:/b".to_vec());
    assert_eq!(ByteRepr::as_bytes(&ns), b"/a:/b");
    let path = PathEnv::from_os_string(ns);
    assert_eq!(path.len(), 2);
    let back = path.into_os_string();
    assert_eq!(<NativeString as ByteBufRepr>::into_bytes(back), b"/a:/b".to_vec());
}

#[test]
fn reserve_heuristic_keeps_the_text() {
    let mut ns = <NativeString as ByteBufRepr>::from_bytes(b"/a".to_vec());
    path_env::util::reserve_heuristic(&mut ns, 100);
    assert_eq!(ByteRepr::as_bytes(&ns), b"/a");
    path_env::util::reserve_heuristic(&mut ns, 0);
    assert_eq!(ByteRepr::as_bytes(&ns), b"/a");
}

#[test]
fn from_entries_appends_in_order() {
    let path = PathEnv::from_entries(&vec![b"/a".to_vec(), b"/b:/c".to_vec(), b"".to_vec()]);
    assert_eq!(rendered(&path), b"/a:/b:/c".to_vec());
    assert_eq!(path.len(), 3);
}

#[test]
fn separator_native_form() {
    let ns = path_env::separator::os_str();
    assert_eq!(ByteRepr::as_bytes(&ns), &[path_env::separator::U8]);
}
