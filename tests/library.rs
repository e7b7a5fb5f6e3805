use hilbert_forensics::classify::{group_categories, shared_key_count, ClassifyError};
use hilbert_forensics::corpus::Corpus;
use hilbert_forensics::curve::grid_side;
use hilbert_forensics::metadata::MappingMetadata;
use hilbert_forensics::profile::{analyze_bytes, byte_histogram, pair_histogram, top_pairs};
use hilbert_forensics::spatial::{decode, encode, encode_subject, reconstruct, Raster, SpatialError};

fn sample_bytes(len: usize) -> Vec<u8> {
    let mut v = Vec::with_capacity(len);
    let mut x: u32 = 12345;
    for _ in 0..len {
        x = x.wrapping_mul(1103515245).wrapping_add(12345);
        v.push((x >> 16) as u8);
    }
    v
}

#[test]
fn repeated_zero_buffer_profile() {
    let data = vec![0u8; 1000];
    let p = analyze_bytes(&data);
    assert_eq!(p.length, 1000);
    assert_eq!(p.byte_counts[0], 1000);
    assert!(p.byte_counts[1..].iter().all(|&c| c == 0));
    assert_eq!(p.top_transitions.len(), 1);
    assert_eq!(p.top_transitions[0].key, "0000");
    assert_eq!(p.top_transitions[0].count, 999);
    let freq = p.top_transitions[0].count as f64 / p.length as f64;
    assert!((freq - 0.999).abs() < 1e-12);
}

#[test]
fn empty_buffer_profile() {
    let p = analyze_bytes(&Vec::new());
    assert_eq!(p.length, 0);
    assert_eq!(p.byte_counts.len(), 256);
    assert!(p.byte_counts.iter().all(|&c| c == 0));
    assert!(p.top_transitions.is_empty());
}

#[test]
fn histogram_counts_each_value() {
    let h = byte_histogram(&vec![7, 7, 3, 255, 7]);
    assert_eq!(h[7], 3);
    assert_eq!(h[3], 1);
    assert_eq!(h[255], 1);
    assert_eq!(h.iter().sum::<usize>(), 5);
}

#[test]
fn pair_table_counts_adjacent_pairs() {
    let t = pair_histogram(&vec![1, 2, 1, 2]);
    assert_eq!(t[0x0102], 2);
    assert_eq!(t[0x0201], 1);
    assert_eq!(t.iter().sum::<usize>(), 3);
}

#[test]
fn transitions_ranked_with_code_tie_break() {
    let p = analyze_bytes(&vec![1, 2, 1, 2, 3]);
    let keys: Vec<&str> = p.top_transitions.iter().map(|t| t.key.as_str()).collect();
    assert_eq!(keys, vec!["0102", "0201", "0203"]);
    let counts: Vec<usize> = p.top_transitions.iter().map(|t| t.count).collect();
    assert_eq!(counts, vec![2, 1, 1]);
}

#[test]
fn transition_keys_are_lower_case_hex() {
    let p = analyze_bytes(&vec![0xab, 0x0c]);
    assert_eq!(p.top_transitions.len(), 1);
    assert_eq!(p.top_transitions[0].key, "ab0c");
    assert_eq!(p.top_transitions[0].first, 0xab);
    assert_eq!(p.top_transitions[0].second, 0x0c);
}

#[test]
fn transition_table_holds_at_most_twenty() {
    let data = sample_bytes(5000);
    let p = analyze_bytes(&data);
    assert_eq!(p.top_transitions.len(), 20);
    let all: Vec<u8> = (0..=255u8).collect();
    assert!(analyze_bytes(&all).top_transitions.len() <= 20);
    let top = top_pairs(&data);
    for w in top.windows(2) {
        assert!(w[0].1 > w[1].1 || (w[0].1 == w[1].1 && w[0].0 < w[1].0));
    }
}

#[test]
fn grid_side_is_smallest_power_of_two_square() {
    assert_eq!(grid_side(0), 1);
    assert_eq!(grid_side(1), 1);
    assert_eq!(grid_side(2), 2);
    assert_eq!(grid_side(4), 2);
    assert_eq!(grid_side(5), 4);
    assert_eq!(grid_side(16), 4);
    assert_eq!(grid_side(17), 8);
    assert_eq!(grid_side(1000), 32);
}

#[test]
fn four_bytes_fill_a_two_by_two_grid() {
    let r = encode(&vec![0, 1, 2, 3]);
    assert_eq!(r.side, 2);
    assert_eq!(r.pixels, vec![0, 3, 1, 2]);
}

#[test]
fn curve_visits_every_cell_once() {
    for side in [2usize, 4, 8, 16] {
        let data: Vec<u8> = (0..side * side).map(|i| (i % 256) as u8).collect();
        let r = encode(&data);
        assert_eq!(r.side, side);
        let mut seen = r.pixels.clone();
        seen.sort();
        let mut expected = data.clone();
        expected.sort();
        assert_eq!(seen, expected);
    }
}

#[test]
fn padding_cells_are_zero() {
    let r = encode(&vec![9, 9, 9, 9, 9]);
    assert_eq!(r.side, 4);
    assert_eq!(r.pixels.iter().filter(|&&p| p == 9).count(), 5);
    assert_eq!(r.pixels.iter().filter(|&&p| p == 0).count(), 11);
}

#[test]
fn encode_then_decode_gives_buffer_back() {
    for len in [1usize, 2, 3, 5, 17, 100, 1000, 4097] {
        let data = sample_bytes(len);
        let r = encode(&data);
        assert_eq!(decode(&r, len), data);
    }
}

#[test]
fn reconstruct_uses_recorded_length() {
    let mut meta = MappingMetadata::new();
    let data = sample_bytes(37);
    let r = encode_subject(&mut meta, "report".to_string(), &data);
    assert_eq!(meta.get(&"report".to_string()), Some(37));
    assert_eq!(reconstruct(&meta, &"report".to_string(), &r), Ok(data));
}

#[test]
fn reconstruct_unknown_subject_is_missing_metadata() {
    let meta = MappingMetadata::new();
    let r = encode(&vec![1, 2, 3]);
    assert_eq!(reconstruct(&meta, &"never".to_string(), &r), Err(SpatialError::MissingMetadata));
}

#[test]
fn reconstruct_rejects_malformed_raster() {
    let mut meta = MappingMetadata::new();
    meta.insert("a".to_string(), 2);
    let bad = Raster { side: 3, pixels: vec![0; 9] };
    assert_eq!(reconstruct(&meta, &"a".to_string(), &bad), Err(SpatialError::MalformedRaster));
    let short = Raster { side: 2, pixels: vec![0; 3] };
    assert_eq!(reconstruct(&meta, &"a".to_string(), &short), Err(SpatialError::MalformedRaster));
}

#[test]
fn reconstruct_rejects_length_beyond_raster() {
    let mut meta = MappingMetadata::new();
    meta.insert("a".to_string(), 5);
    let r = encode(&vec![1, 2, 3, 4]);
    assert_eq!(reconstruct(&meta, &"a".to_string(), &r), Err(SpatialError::LengthExceedsRaster));
}

#[test]
fn metadata_insert_overrides() {
    let mut meta = MappingMetadata::new();
    meta.insert("x".to_string(), 4);
    meta.insert("y".to_string(), 8);
    meta.insert("x".to_string(), 16);
    assert_eq!(meta.get(&"x".to_string()), Some(16));
    assert_eq!(meta.get(&"y".to_string()), Some(8));
    assert_eq!(meta.get(&"z".to_string()), None);
    assert_eq!(meta.files.len(), 2);
}

#[test]
fn ingesting_twice_keeps_one_entry() {
    let mut c: Corpus<u32> = Corpus::new();
    assert!(c.ingest("a.bin".to_string(), "exe".to_string(), 1));
    assert!(!c.ingest("a.bin".to_string(), "exe".to_string(), 2));
    assert_eq!(c.len(), 1);
    assert_eq!(c.entries[0].record, 1);
    assert!(c.ingest("a.bin".to_string(), "text".to_string(), 3));
    assert_eq!(c.len(), 2);
    assert!(c.contains(&"a.bin".to_string(), &"text".to_string()));
    assert!(!c.contains(&"b.bin".to_string(), &"exe".to_string()));
}

#[test]
fn shared_keys_counted_from_probe() {
    let probe = vec!["0000".to_string(), "0102".to_string(), "ffff".to_string()];
    let sample = vec!["0102".to_string(), "0000".to_string(), "abcd".to_string()];
    assert_eq!(shared_key_count(&probe, &sample), 2);
    assert_eq!(shared_key_count(&probe, &Vec::new()), 0);
    assert_eq!(shared_key_count(&Vec::new(), &sample), 0);
}

#[test]
fn empty_corpus_cannot_be_grouped() {
    assert_eq!(group_categories(&Vec::new()).err(), Some(ClassifyError::EmptyCorpus));
}

#[test]
fn categories_grouped_in_first_appearance_order() {
    let cats: Vec<String> = ["pdf", "exe", "pdf", "txt", "exe"].iter().map(|s| s.to_string()).collect();
    let g = group_categories(&cats).unwrap();
    assert_eq!(g.names, vec!["pdf".to_string(), "exe".to_string(), "txt".to_string()]);
    assert_eq!(g.member, vec![0, 1, 0, 2, 1]);
}
