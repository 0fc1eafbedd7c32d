use cpl_rust::strings::rolling_hash::{modulo, mul_mod, RollingHash};

const MOD: u64 = (1 << 61) - 1;

#[test]
fn test_mul() {
    assert_eq!(mul_mod(0, 5), 0);
    assert_eq!(mul_mod(5, 0), 0);
    assert_eq!(mul_mod(12_345_678_901, 10_987_654_321), 1_911_157_587_856_932_063);
}

#[test]
fn test_modulo() {
    assert_eq!(modulo(MOD * 2), 0);
    assert_eq!(modulo(MOD * 2 - 1), MOD - 1);
}

#[test]
fn test_find_all_matched() {
    let base = 3;

    let txt = "ABABBABABABBABA";
    let ptn = "ABA";
    let txt_hash = RollingHash::new(txt.as_bytes(), base);
    let ptn_hash = RollingHash::new(ptn.as_bytes(), base);

    assert_eq!(txt_hash.find_all(&ptn_hash), Some(vec![0, 5, 7, 12]));
}

#[test]
fn test_find_all_error() {
    let base = 3;

    let txt = "ABA";
    let ptn = "ABABBABABABBABA";
    let txt_hash = RollingHash::new(txt.as_bytes(), base);
    let ptn_hash = RollingHash::new(ptn.as_bytes(), base);

    assert_eq!(txt_hash.find_all(&ptn_hash), None);
}

#[test]
fn test_query_windows() {
    let txt = "ABCDE";
    let h = RollingHash::new(txt.as_bytes(), 257);
    // the hash of a window equals the hash of that text hashed alone
    let whole = RollingHash::new("CD".as_bytes(), 257);
    assert_eq!(h.query(Some(2), Some(4)), whole.query(None, None));
    assert_eq!(h.query(Some(1), Some(0)), None);
    assert_eq!(h.query(Some(0), Some(6)), None);
    assert_eq!(h.query(Some(3), Some(3)), Some(0));
}
