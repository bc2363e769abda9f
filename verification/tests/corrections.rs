use bus_phantom::correct::correct_barcodes;
use bus_phantom::correct::corrected_for;

/// Two-bit encode a nucleotide string, most significant base first, with
/// A=0, C=1, G=2, T=3.
fn enc(seq: &str) -> u64 {
    seq.chars().fold(0u64, |acc, c| {
        let d = match c {
            'A' => 0,
            'C' => 1,
            'G' => 2,
            'T' => 3,
            _ => panic!("not a nucleotide"),
        };
        acc * 4 + d
    })
}

#[test]
fn direct_whitelist_hit_maps_to_itself() {
    let whitelist = vec![enc("AAAA"), enc("TTTT")];
    let observed = vec![enc("AAAA")];
    let map = correct_barcodes(&observed, &whitelist, 4);
    assert_eq!(corrected_for(&map, enc("AAAA")), Some(enc("AAAA")));
}

#[test]
fn one_base_substitution_is_corrected() {
    let whitelist = vec![enc("AAAA"), enc("TTTT")];
    let observed = vec![enc("AAAT"), enc("GTTT")];
    let map = correct_barcodes(&observed, &whitelist, 4);
    assert_eq!(corrected_for(&map, enc("AAAT")), Some(enc("AAAA")));
    assert_eq!(corrected_for(&map, enc("GTTT")), Some(enc("TTTT")));
}

#[test]
fn distant_barcode_is_left_uncorrected() {
    let whitelist = vec![enc("AAAA"), enc("TTTT")];
    let observed = vec![enc("AATT")];
    let map = correct_barcodes(&observed, &whitelist, 4);
    assert_eq!(corrected_for(&map, enc("AATT")), None);
}

#[test]
fn ambiguous_barcode_is_dropped() {
    // "AAAG" is one substitution from both "AAAA" and "AAAC": dropped, not
    // guessed.
    let whitelist = vec![enc("AAAA"), enc("AAAC")];
    let observed = vec![enc("AAAG"), enc("CAAA")];
    let map = correct_barcodes(&observed, &whitelist, 4);
    assert_eq!(corrected_for(&map, enc("AAAG")), None);
    assert_eq!(corrected_for(&map, enc("CAAA")), Some(enc("AAAA")));
}

#[test]
fn unobserved_barcode_is_absent() {
    let whitelist = vec![enc("AAAA")];
    let observed = vec![enc("AAAA")];
    let map = correct_barcodes(&observed, &whitelist, 4);
    assert_eq!(corrected_for(&map, enc("CCCC")), None);
}
