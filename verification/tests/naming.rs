use fractal_farm::naming::{draft_basename, render_basename, sha2};

#[test]
fn sha2_is_upper_case_hex_of_the_digest() {
    assert_eq!(
        sha2("abc"),
        "BA7816BF8F01CFEA414140DE5DAE2223B00361A396177A9CB410FF61F20015AD"
    );
    assert_eq!(
        sha2("{}"),
        "44136FA355B3678A1146AD16F7E8649E94FB4FC21FE77E8310C060F61CAAFF8A"
    );
    assert_eq!(sha2("abc").len(), 64);
}

#[test]
fn render_basename_holds_size_and_digest() {
    assert_eq!(
        render_basename("abc", (1920, 1080)),
        "1920x1080_BA7816BF8F01CFEA414140DE5DAE2223B00361A396177A9CB410FF61F20015AD"
    );
    assert_eq!(
        render_basename("{}", (0, 7)),
        "0x7_44136FA355B3678A1146AD16F7E8649E94FB4FC21FE77E8310C060F61CAAFF8A"
    );
}

#[test]
fn draft_basename_is_prefixed() {
    assert_eq!(
        draft_basename("abc", (4294967295, 10)),
        "d_4294967295x10_BA7816BF8F01CFEA414140DE5DAE2223B00361A396177A9CB410FF61F20015AD"
    );
}
