//! Tests for the split algorithm: platform-standard decomposition,
//! bidirectional iteration, and the size estimate.

use path_env::split::{path_env_outputs, path_env_outputs_rev, split, PathEnvSplit};

const SEP: &str = path_env::separator::STR;

/// The platform-standard decomposition: split on the separator, drop the
/// empty runs.
fn std_outputs(s: &str) -> Vec<Vec<u8>> {
    s.split(path_env::separator::CHAR)
        .filter(|p| !p.is_empty())
        .map(|p| p.as_bytes().to_vec())
        .collect()
}

fn outputs(s: &str) -> Vec<Vec<u8>> {
    path_env_outputs(s.as_bytes())
}

#[test]
fn std_compatible() {
    let a = "/path/to/bin";
    let b = "/\u{007F}\u{0080}\u{07FF}\u{0800}\u{FFFF}\u{10000}\u{10FFFF}/bin";

    let strings: &[&str] = &[
        "",
        a,
        b,
        SEP,
        &format!("{0}{0}", SEP),
        &format!("{0}{0}{1}", SEP, a),
        &format!("{0}{1}{0}", SEP, a),
        &format!("{1}{0}{0}", SEP, a),
        &format!("{1}{0}{2}", SEP, a, b),
        &format!("{0}{1}{0}{2}", SEP, a, b),
        &format!("{1}{0}{2}{0}", SEP, a, b),
        &format!("{0}{1}{0}{2}{0}", SEP, a, b),
        &format!("\"{1}\"{0}{2}", SEP, a, b),
        &format!("{1}{0}\"{2}\"", SEP, a, b),
        &format!("\"{1}{0}{2}\"", SEP, a, b),
        &format!("\"{1}{0}\"{0}{2}", SEP, a, b),
        &format!("{1}{0}\"{0}{2}\"", SEP, a, b),
    ];

    for s in strings {
        assert_eq!(outputs(s), std_outputs(s), "mismatch for {:?}", s);
    }
}

#[test]
fn split_empty_input() {
    let expected: Vec<Vec<u8>> = Vec::new();
    assert_eq!(outputs(""), expected);
}

#[test]
fn split_only_separators() {
    let expected: Vec<Vec<u8>> = Vec::new();
    assert_eq!(outputs(":::"), expected);
}

#[test]
fn split_skips_empty_runs() {
    assert_eq!(
        outputs("/a:/b::/c"),
        vec![b"/a".to_vec(), b"/b".to_vec(), b"/c".to_vec()]
    );
}

#[test]
fn split_boundary_separators() {
    assert_eq!(outputs(":/a:"), vec![b"/a".to_vec()]);
}

#[test]
fn quoted_separator_still_splits() {
    // The documented divergence: a separator inside quotes is not special.
    assert_eq!(outputs("\"/a:/b\""), vec![b"\"/a".to_vec(), b"/b\"".to_vec()]);
}

#[test]
fn forward_iteration_yields_segments() {
    let text = b"one:two:three";
    let mut it = split(text);
    assert_eq!(it.next(), Some(&b"one"[..]));
    assert_eq!(it.next(), Some(&b"two"[..]));
    assert_eq!(it.next(), Some(&b"three"[..]));
    assert_eq!(it.next(), None);
    assert_eq!(it.next(), None);
}

#[test]
fn backward_iteration_is_reverse_of_forward() {
    for s in ["", ":::", "/a:/b::/c", "x", ":a::b:c:", "\"a:b\""] {
        let forward = path_env_outputs(s.as_bytes());
        let backward = path_env_outputs_rev(s.as_bytes());
        let mut reversed = forward.clone();
        reversed.reverse();
        assert_eq!(backward, reversed, "mismatch for {:?}", s);
    }
}

#[test]
fn both_ends_share_the_remaining_text() {
    let text = b"a:b:c";
    let mut it = PathEnvSplit::new(text);
    assert_eq!(it.next(), Some(&b"a"[..]));
    assert_eq!(it.next_back(), Some(&b"c"[..]));
    assert_eq!(it.next(), Some(&b"b"[..]));
    assert_eq!(it.next(), None);
    assert_eq!(it.next_back(), None);
}

#[test]
fn last_is_served_backward() {
    assert_eq!(split(b"a:b:c").last(), Some(&b"c"[..]));
    assert_eq!(split(b"").last(), None);
    assert_eq!(split(b"::").last(), None);
}

#[test]
fn size_hint_counts_separators() {
    // Lower bound zero; upper bound is one more than the separator count,
    // exact when there are no empty runs.
    assert_eq!(split(b"a:b:c").size_hint(), (0, Some(3)));
    assert_eq!(split(b"").size_hint(), (0, Some(1)));
    assert_eq!(split(b":::").size_hint(), (0, Some(4)));
    assert_eq!(split(b"abc").size_hint(), (0, Some(1)));
}

#[test]
fn separator_forms_agree() {
    assert_eq!(path_env::separator::U8, b':');
    assert_eq!(path_env::separator::CHAR, ':');
    assert_eq!(path_env::separator::STR, ":");
}
