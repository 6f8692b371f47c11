use sudachi::dic::lexicon::trie::Trie;

/// Builds a double array from `(key, value)` pairs sorted by key.
fn build_trie(mut keys: Vec<(&str, u32)>) -> Vec<u8> {
    keys.sort_by(|a, b| a.0.cmp(b.0));
    yada::builder::DoubleArrayBuilder::build(&keys).expect("trie build failed")
}

/// Matches of the scalar iterator, one list per start.
fn scalar_reference(trie: &Trie, input: &[u8], starts: &[usize]) -> Vec<Vec<(u32, usize)>> {
    let mut out = Vec::new();
    for &s in starts {
        let mut iter = trie.common_prefix_iterator(input, s);
        let mut found = Vec::new();
        while let Some(e) = iter.next() {
            found.push((e.value, e.end));
        }
        out.push(found);
    }
    out
}

fn batch_grouped(
    trie: &Trie,
    input: &[u8],
    starts: &[usize],
    lanes: usize,
    prefetch: bool,
) -> Vec<Vec<(u32, usize)>> {
    let mut got: Vec<Vec<(u32, usize)>> = vec![Vec::new(); starts.len()];
    for (bucket, value, end) in trie.common_prefix_batch_cfg(input, starts, lanes, prefetch) {
        got[bucket].push((value, end));
    }
    got
}

#[test]
fn batch_matches_scalar_across_lanes_and_prefetch() {
    let bytes = build_trie(vec![
        ("a", 1),
        ("ab", 2),
        ("abc", 3),
        ("abd", 4),
        ("b", 5),
        ("bc", 6),
        ("東", 7),
        ("東京", 8),
        ("東京都", 9),
    ]);
    let trie = Trie::from_bytes(&bytes);

    for text in ["abcabd b 東京都 abZ", "東京", "", "zzz", "ab東京都bca"] {
        let input = text.as_bytes();
        let starts: Vec<usize> = (0..=input.len()).collect();
        let reference = scalar_reference(&trie, input, &starts);
        for &lanes in &[1usize, 2, 3, 8, 16] {
            for &prefetch in &[false, true] {
                let got = batch_grouped(&trie, input, &starts, lanes, prefetch);
                assert_eq!(
                    got, reference,
                    "mismatch for text {text:?} lanes={lanes} prefetch={prefetch}"
                );
            }
        }
    }
}

#[test]
fn batch_handles_sparse_and_unordered_starts() {
    let bytes = build_trie(vec![("ab", 2), ("abc", 3), ("xy", 10)]);
    let trie = Trie::from_bytes(&bytes);
    let input = b"abcxyab";
    let starts = [6usize, 0, 3, 0, 3];
    let reference = scalar_reference(&trie, input, &starts);
    for &lanes in &[1usize, 2, 16] {
        for &prefetch in &[false, true] {
            let got = batch_grouped(&trie, input, &starts, lanes, prefetch);
            assert_eq!(got, reference, "lanes={lanes} prefetch={prefetch}");
        }
    }
}

#[test]
fn common_prefix_search_finds_nested_keys_in_order() {
    let bytes = build_trie(vec![("東", 7), ("東京", 8), ("東京都", 9), ("x", 1)]);
    let trie = Trie::from_bytes(&bytes);
    let input = "東京都庁".as_bytes();
    let found: Vec<(u32, usize)> = trie
        .common_prefix_search(input, 0)
        .iter()
        .map(|e| (e.value, e.end))
        .collect();
    assert_eq!(found, vec![(7, 3), (8, 6), (9, 9)]);
    assert!(trie.common_prefix_search(input, 3).is_empty());
}
