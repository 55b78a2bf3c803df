use peer_transfer::order::{comes_no_later, order_paths};

fn texts(parts: &[&str]) -> Vec<String> {
    parts.iter().map(|part| part.to_string()).collect()
}

#[test]
fn earlier_byte_comes_first() {
    assert!(comes_no_later("a", "b"));
    assert!(!comes_no_later("b", "a"));
    assert!(comes_no_later("dir/a", "dir/b"));
    assert!(!comes_no_later("dir/b", "dir/a"));
}

#[test]
fn a_path_comes_no_later_than_itself() {
    assert!(comes_no_later("", ""));
    assert!(comes_no_later("a/b.txt", "a/b.txt"));
}

#[test]
fn a_path_comes_before_what_it_begins() {
    assert!(comes_no_later("", "a"));
    assert!(!comes_no_later("a", ""));
    assert!(comes_no_later("dir", "dir/a"));
    assert!(!comes_no_later("dir/a", "dir"));
}

#[test]
fn dot_comes_before_separator() {
    assert!(comes_no_later("a.txt", "a/b"));
    assert!(!comes_no_later("a/b", "a.txt"));
}

#[test]
fn bytes_decide_not_characters() {
    assert!(comes_no_later("z", "\u{e9}"));
    assert!(comes_no_later("\u{e9}", "\u{65e5}"));
    assert!(!comes_no_later("\u{1f600}", "\u{65e5}"));
}

#[test]
fn order_is_that_of_the_bytes() {
    let samples = ["", "a", "ab", "a/b", "a.txt", "b", "A", "\u{e9}", "a/", "a/b/c", "a0"];
    for one in samples {
        for other in samples {
            assert_eq!(comes_no_later(one, other), one.as_bytes() <= other.as_bytes());
        }
    }
}

#[test]
fn listing_is_put_in_order() {
    let listed = texts(&["dir/sub/c", "b", "dir/b", "a.txt", "dir/a", "a/b"]);
    assert_eq!(
        order_paths(&listed),
        texts(&["a.txt", "a/b", "b", "dir/a", "dir/b", "dir/sub/c"])
    );
}

#[test]
fn order_does_not_depend_on_the_listing() {
    let one = texts(&["c", "a", "b/x", "b", "a/z"]);
    let mut other = one.clone();
    other.reverse();
    let mut third = one.clone();
    third.rotate_left(2);
    assert_eq!(order_paths(&one), order_paths(&other));
    assert_eq!(order_paths(&one), order_paths(&third));
    assert_eq!(order_paths(&order_paths(&one)), order_paths(&one));
}

#[test]
fn nothing_is_lost_and_nothing_added() {
    let listed = texts(&["b", "a", "b", "", "a", "b"]);
    let ordered = order_paths(&listed);
    assert_eq!(ordered, texts(&["", "a", "a", "b", "b", "b"]));
    let mut expected = listed.clone();
    expected.sort();
    assert_eq!(ordered, expected);
}

#[test]
fn short_listings() {
    assert_eq!(order_paths(&Vec::new()), Vec::<String>::new());
    assert_eq!(order_paths(&texts(&["only"])), texts(&["only"]));
    assert_eq!(order_paths(&texts(&["b", "a"])), texts(&["a", "b"]));
}

#[test]
fn longer_listing_agrees_with_sorting_by_bytes() {
    let mut listed: Vec<String> = Vec::new();
    let mut seed: u32 = 12345;
    for _ in 0..200 {
        seed = seed.wrapping_mul(1_103_515_245).wrapping_add(12_345);
        let depth = 1 + (seed >> 16) % 3;
        let mut names: Vec<String> = Vec::new();
        for level in 0..depth {
            seed = seed.wrapping_mul(1_103_515_245).wrapping_add(12_345);
            names.push(format!("n{}{}", (seed >> 16) % 7, level));
        }
        listed.push(names.join("/"));
    }
    let mut expected = listed.clone();
    expected.sort();
    assert_eq!(order_paths(&listed), expected);
}
