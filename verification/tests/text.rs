use agdatex::text::{char_width, is_ascii_alphabetic, is_control, is_white_space};

#[test]
fn character_classes() {
    for n in 0..=0x10ffff_u32 {
        if let Some(c) = char::from_u32(n) {
            assert_eq!(is_white_space(c), c.is_whitespace(), "{n:x}");
            assert_eq!(is_control(c), c.is_control(), "{n:x}");
            assert_eq!(is_ascii_alphabetic(c), c.is_ascii_alphabetic(), "{n:x}");
            assert_eq!(char_width(c), c.len_utf8(), "{n:x}");
        }
    }
}
