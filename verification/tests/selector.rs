use cosmic_oracle::loader::parse_from_csv;
use cosmic_oracle::selector::merge_names;
use cosmic_oracle::selector::select_name;

#[test]
fn aggregation_order() {
    let mut a: Vec<Vec<u8>> = Vec::new();
    parse_from_csv(b"Vega", &mut a);
    let mut b: Vec<Vec<u8>> = Vec::new();
    parse_from_csv(b"Cygnus", &mut b);
    let merged = merge_names(a, b);
    assert_eq!(merged, vec![b"Vega".to_vec(), b"Cygnus".to_vec()]);
}

#[test]
fn aggregation_keeps_duplicates_and_inner_order() {
    let a = vec![b"Vega".to_vec(), b"Orion".to_vec()];
    let b = vec![b"Orion".to_vec(), b"Lyra".to_vec()];
    let merged = merge_names(a, b);
    assert_eq!(
        merged,
        vec![b"Vega".to_vec(), b"Orion".to_vec(), b"Orion".to_vec(), b"Lyra".to_vec()]
    );
}

#[test]
fn select_from_empty_list_is_none() {
    let names: Vec<Vec<u8>> = Vec::new();
    assert_eq!(select_name(&names), None);
}

#[test]
fn select_returns_a_member() {
    let names = vec![b"Vega".to_vec(), b"Orion".to_vec(), b"Polaris".to_vec()];
    for _ in 0..200 {
        let chosen = select_name(&names).unwrap();
        assert!(names.contains(&chosen));
    }
}

#[test]
fn selection_uniformity() {
    let names = vec![b"Vega".to_vec(), b"Orion".to_vec(), b"Polaris".to_vec(), b"Deneb".to_vec()];
    let draws = 20000;
    let mut counts = [0usize; 4];
    for _ in 0..draws {
        let chosen = select_name(&names).unwrap();
        let idx = names.iter().position(|n| *n == chosen).unwrap();
        counts[idx] += 1;
    }
    // each of the 4 names is expected 5000 times; allow a wide margin
    for &c in counts.iter() {
        assert!(c > 4000 && c < 6000, "selection is far from uniform: {:?}", counts);
    }
}
