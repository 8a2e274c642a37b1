use kmp::prepare;
use kmp::search;

// Reference answer: first index at which the needle occurs, by the naive
// double loop. An empty needle occurs at index 0 of any haystack.
fn naive_search(needle: &[u8], haystack: &[u8]) -> Option<usize> {
    if needle.len() > haystack.len() {
        return None;
    }
    (0..=haystack.len() - needle.len()).find(|&i| haystack[i..i + needle.len()] == *needle)
}

fn is_border(needle: &[u8], i: usize, b: usize) -> bool {
    b < i && needle[..b] == needle[i - b..i]
}

fn check_pair(needle: &[u8], haystack: &[u8]) {
    let table = prepare(needle);

    // Each entry records exactly the longest border of its prefix: the
    // leading entry is absent, a present entry is a nonzero proper border,
    // and no longer border exists.
    assert_eq!(table.len(), needle.len());
    if !table.is_empty() {
        assert_eq!(table[0], None);
    }
    for i in 0..table.len() {
        let longest = match table[i] {
            Some(len) => {
                assert!(0 < len && len < i);
                assert!(is_border(needle, i, len));
                len
            }
            None => 0,
        };
        for b in longest + 1..i {
            assert!(!is_border(needle, i, b));
        }
    }

    let result = search(needle, &table, haystack);

    // Determinism.
    assert_eq!(result, search(needle, &table, haystack));

    // Any reported offset is a genuine occurrence.
    if let Some(p) = result {
        assert!(p + needle.len() <= haystack.len());
        assert_eq!(haystack[p..p + needle.len()], *needle);
    }

    // The scanner equals the naive search exactly, on every input.
    assert_eq!(result, naive_search(needle, haystack));
}

struct Lcg(u64);

impl Lcg {
    fn next(&mut self) -> u64 {
        self.0 = self
            .0
            .wrapping_mul(6364136223846793005)
            .wrapping_add(1442695040888963407);
        self.0 >> 33
    }

    fn bytes(&mut self, len: usize, alphabet: u64) -> Vec<u8> {
        (0..len).map(|_| b'A' + (self.next() % alphabet) as u8).collect()
    }
}

#[test]
fn search_agrees_with_naive_search_on_random_inputs() {
    let mut rng = Lcg(0x5eed);
    for alphabet in 1..=4u64 {
        for needle_len in 0..=8usize {
            for haystack_len in 0..=20usize {
                for _ in 0..3 {
                    let needle = rng.bytes(needle_len, alphabet);
                    let haystack = rng.bytes(haystack_len, alphabet);
                    check_pair(&needle, &haystack);
                }
            }
        }
    }
}

#[test]
fn search_agrees_with_naive_search_on_fixed_inputs() {
    let cases: [(&[u8], &[u8]); 10] = [
        (b"", b""),
        (b"", b"ABC"),
        (b"A", b"BBBA"),
        (b"AAA", b"AAAAAA"),
        (b"ABAB", b"ABABAB"),
        (b"ABCABABC", b"ABCABCABABC"),
        (b"ABCABABC", b"ABXABCABABC"),
        (b"ABCABABC", b"XABABCABABC"),
        (b"ABABABXYZ", b"ABABABABXYZ"),
        (b"XYZ", b"ABC"),
    ];
    for (needle, haystack) in cases {
        check_pair(needle, haystack);
        assert_eq!(
            search(needle, &prepare(needle), haystack),
            naive_search(needle, haystack)
        );
    }
}

fn two_letter_word(len: usize, bits: u32) -> Vec<u8> {
    (0..len).map(|k| if bits >> k & 1 == 1 { b'B' } else { b'A' }).collect()
}

#[test]
fn exhaustive_two_letter_alphabet() {
    // Every needle over {A, B} up to length 5, against every haystack over
    // {A, B} up to length 7: periodic patterns stress the fallback logic.
    for needle_len in 0..=5usize {
        for needle_bits in 0..1u32 << needle_len {
            let needle = two_letter_word(needle_len, needle_bits);
            for hay_len in 0..=7usize {
                for hay_bits in 0..1u32 << hay_len {
                    let haystack = two_letter_word(hay_len, hay_bits);
                    check_pair(&needle, &haystack);
                }
            }
        }
    }
}
