use extremal::histogram::{CliqueHistogram, HistogramTier};
use extremal::score::score_prefix_bytes;

fn hist(tiers: Vec<(u32, u64, u64)>) -> CliqueHistogram {
    CliqueHistogram {
        tiers: tiers.into_iter().map(|(k, red, blue)| HistogramTier { k, red, blue }).collect(),
        n: 25,
    }
}

fn be(words: &[u64]) -> Vec<u8> {
    words.iter().flat_map(|w| w.to_be_bytes()).collect()
}

#[test]
fn score_prefix_is_big_endian_tiers_then_gap() {
    let h = hist(vec![(3, 10, 12), (5, 1, 0)]);
    let bytes = score_prefix_bytes(&h, 7, 5);
    // k = 5: (1, 0); k = 4: no tier, (0, 0); k = 3: (12, 10); then the gap.
    assert_eq!(bytes, be(&[1, 0, 0, 0, 12, 10, 7]));
    assert_eq!(score_prefix_bytes(&h, 7, 2), be(&[7]), "no tiers below 3");
}

#[test]
fn score_bytes_keep_the_score_order() {
    // Fewer high-k cliques win over fewer triangles.
    let a = score_prefix_bytes(&hist(vec![(3, 10, 10), (5, 1, 0)]), 0, 5);
    let b = score_prefix_bytes(&hist(vec![(3, 100, 100)]), 0, 5);
    assert!(b < a);
    // The Goodman gap breaks a tie.
    let c = score_prefix_bytes(&hist(vec![(3, 10, 10)]), 5, 5);
    let d = score_prefix_bytes(&hist(vec![(3, 10, 10)]), 3, 5);
    assert!(d < c);
    // A large count in a lower byte does not beat a higher byte.
    let e = score_prefix_bytes(&hist(vec![(3, 255, 0)]), 0, 3);
    let f = score_prefix_bytes(&hist(vec![(3, 256, 0)]), 0, 3);
    assert!(e < f);
}
