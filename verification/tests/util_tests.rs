use beholders::util::bitxor;

#[test]
fn test_bitxor() {
    let x: Vec<u64> = vec![1, 2, 3];
    let y: Vec<u64> = vec![4, 5, 6];
    let z = bitxor(&x, &y);
    assert_eq!(z, vec![5, 7, 5]);
}

fn check_a() -> Result<bool, ()> {
    // the guard pattern, written out: a failed check reports `Ok(false)`
    if !true {
        return Ok(false);
    }
    Err(())
}

fn check_b() -> Result<bool, ()> {
    if !false {
        return Ok(false);
    }
    Err(())
}

#[test]
fn test_check() {
    assert!(check_a().is_err());
    assert_eq!(check_b(), Ok(false));
}

#[test]
fn test_bitxor_involutive() {
    let a: Vec<u64> = vec![0xdeadbeef, 42, u64::MAX, 0];
    let b: Vec<u64> = vec![0x12345678, 7, 1, u64::MAX];
    let ab = bitxor(&a, &b);
    assert_ne!(ab, a);
    assert_eq!(bitxor(&ab, &b), a);
}
