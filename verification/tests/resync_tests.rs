use spec_css::resync::next_token_start;

#[test]
fn test_next_token_start() {
    let css = "cls1 : cls2 {prop: val;}".as_bytes().to_vec();

    assert!(next_token_start(&css, 8) == 11);
    assert!(next_token_start(&css, 4) == 4);
    assert!(next_token_start(&css, 13) == 13);
    assert!(next_token_start(&css, 14) == 17);
    assert!(next_token_start(&css, 0) == 0);
}

#[test]
fn resync_monotone() {
    let css = "a{b:\"long string value\"}/*comment*/#x".as_bytes();
    let len = css.len();
    let mut a: usize = 0;
    while a <= len {
        let r = next_token_start(css, a);
        assert!(a <= r);
        assert!(r <= len);
        a += 1;
    }
}

#[test]
fn resync_past_end_clamps() {
    let css = "abc".as_bytes();
    assert!(next_token_start(css, 100) == 3);
    assert!(next_token_start(b"", 0) == 0);
}
