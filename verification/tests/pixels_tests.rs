use arkcursor::pixels::premultiply_bgra;

#[test]
fn premultiplied_bgra() {
    let out = premultiply_bgra(&[10, 20, 30, 128, 255, 0, 255, 255, 200, 100, 50, 0]);
    assert_eq!(out, vec![15, 10, 5, 128, 255, 0, 255, 255, 0, 0, 0, 0]);
}

#[test]
fn trailing_bytes_stay_zero() {
    let out = premultiply_bgra(&[255, 255, 255, 255, 7, 8, 9]);
    assert_eq!(out, vec![255, 255, 255, 255, 0, 0, 0]);
    assert_eq!(premultiply_bgra(&[]), Vec::<u8>::new());
}
