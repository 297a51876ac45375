use fw_virtio::elf::{align_value, is_elf, ELFMAG};

fn elf_header_image() -> Vec<u8> {
    let mut image = vec![0u8; 64];
    image[..4].copy_from_slice(&ELFMAG);
    image[4] = 2;
    image[5] = 1;
    image[6] = 1;
    image
}

#[test]
fn test_is_elf() {
    let image_bytes = elf_header_image();

    assert_eq!(is_elf(&image_bytes), true);
}

#[test]
fn is_elf_rejects_short_or_wrong_magic() {
    assert!(!is_elf(&[]));
    assert!(!is_elf(&[127, 69, 76]));
    assert!(!is_elf(&[127, 69, 76, 71, 0]));
    assert!(!is_elf(b"MZ\x90\x00"));
    assert!(is_elf(&ELFMAG));
}

#[test]
fn align_value_down_and_up() {
    assert_eq!(align_value(0x1234, 0x1000, true), 0x1000);
    assert_eq!(align_value(0x1234, 0x1000, false), 0x2000);
    assert_eq!(align_value(0x2000, 0x1000, true), 0x2000);
    assert_eq!(align_value(0x2000, 0x1000, false), 0x3000);
}
