use cpl_rust::strings::z_algorithm::get_z_array;

#[test]
fn test_z_algorithm() {
    let pattern = b"aaxyaaxaab";
    assert_eq!(get_z_array(pattern), vec![0, 1, 0, 0, 3, 1, 0, 2, 1, 0]);
}

#[test]
fn test_pattern_search() {
    let target = "ggccgggccctgtgaccacag";
    let pattern = "ggc";
    let n = pattern.len();
    let s = [pattern.as_bytes(), &[0], target.as_bytes()].concat();
    let pos = get_z_array(&s)
        .into_iter()
        .enumerate()
        .skip(n + 1)
        .filter(|&(_, cnt)| cnt == n)
        .map(|(i, _)| i - n - 1)
        .collect::<Vec<_>>();
    assert_eq!(pos, vec![0, 5]);
}

#[test]
fn test_z_algorithm_empty_and_uniform() {
    let empty: [u8; 0] = [];
    assert_eq!(get_z_array(&empty), vec![]);
    assert_eq!(get_z_array(b"aaaa"), vec![0, 3, 2, 1]);
}
