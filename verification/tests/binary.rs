use resplice::arch::Architecture;
use resplice::binary::{align_up, Binary, PAGE};
use resplice::bytes::Endian;
use resplice::image::BinaryFormat;

// Helper function to create a minimal valid ELF header
fn create_minimal_elf() -> Vec<u8> {
    let mut data = vec![0; 64]; // Minimal ELF header is 64 bytes for 64-bit
    data[0] = 0x7f; // ELF magic
    data[1] = 0x45;
    data[2] = 0x4c;
    data[3] = 0x46;
    data[4] = 2; // 64-bit
    data[5] = 1; // Little endian
    data[6] = 1; // ELF version
    data[18] = 0x3e; // e_machine = EM_X86_64 (little endian)
    data
}

// Helper function to create a minimal PE header
fn create_minimal_pe() -> Vec<u8> {
    let mut data = vec![0; 512];
    data[0] = 0x4d; // MZ magic
    data[1] = 0x5a;
    // PE signature offset at 0x3c
    data[0x3c] = 0x80;
    // PE signature at offset 0x80
    data[0x80] = b'P';
    data[0x81] = b'E';
    data[0x82] = 0;
    data[0x83] = 0;
    // COFF header machine field = IMAGE_FILE_MACHINE_AMD64 (0x8664)
    data[0x84] = 0x64;
    data[0x85] = 0x86;
    data
}

fn x86_64(data: Vec<u8>) -> Binary {
    Binary::new(data, BinaryFormat::Elf, Architecture::X86_64, true, Endian::Little)
}

#[test]
fn test_binary_format_detection_incomplete() {
    let elf_header = vec![0x7f, 0x45, 0x4c, 0x46]; // Too short
    assert!(Binary::detect_format(&elf_header).is_err());
}

#[test]
fn test_binary_format_detection_elf() {
    let elf = create_minimal_elf();
    let format = Binary::detect_format(&elf).unwrap();
    assert_eq!(format, BinaryFormat::Elf);
}

#[test]
fn test_binary_format_detection_pe() {
    let pe = create_minimal_pe();
    let format = Binary::detect_format(&pe).unwrap();
    assert_eq!(format, BinaryFormat::Pe);
}

#[test]
fn test_binary_format_detection_invalid() {
    let invalid = vec![0; 100];
    assert!(Binary::detect_format(&invalid).is_err());
}

#[test]
fn test_direct_patch_basic() {
    let mut binary = x86_64(vec![0; 100]);

    let code = vec![0x90, 0x90, 0x90];
    binary.apply_direct_patch(10, 20, &code).unwrap();

    assert_eq!(binary.data()[10], 0x90);
    assert_eq!(binary.data()[11], 0x90);
    assert_eq!(binary.data()[12], 0x90);
}

#[test]
fn test_direct_patch_with_nop_padding() {
    let mut binary = x86_64(vec![0; 100]);

    let code = vec![0xAA, 0xBB];
    binary.apply_direct_patch(10, 20, &code).unwrap();

    // Check code is written
    assert_eq!(binary.data()[10], 0xAA);
    assert_eq!(binary.data()[11], 0xBB);
    // Check NOPs are filled
    assert_eq!(binary.data()[12], 0x90); // NOP for x86
    assert_eq!(binary.data()[19], 0x90);
}

#[test]
fn test_direct_patch_exact_fit() {
    let mut binary = x86_64(vec![0; 100]);

    let code = vec![0xAA; 10]; // Exactly 10 bytes
    binary.apply_direct_patch(10, 20, &code).unwrap();

    assert_eq!(binary.data()[10], 0xAA);
    assert_eq!(binary.data()[19], 0xAA);
    assert_eq!(binary.data()[20], 0x00); // Untouched
}

#[test]
fn test_direct_patch_code_too_large() {
    let mut binary = x86_64(vec![0; 100]);

    let code = vec![0x90; 15]; // Too large for range 10-20
    let result = binary.apply_direct_patch(10, 20, &code);

    assert!(result.is_err());
    let err_msg = result.unwrap_err().message();
    assert!(err_msg.contains("Invalid address range"));
}

#[test]
fn test_direct_patch_out_of_bounds() {
    let mut binary = x86_64(vec![0; 100]);

    let code = vec![0x90; 5];
    let result = binary.apply_direct_patch(96, 110, &code);

    assert!(result.is_err());
}

#[test]
fn test_direct_patch_at_start() {
    let mut binary = x86_64(vec![0; 100]);

    let code = vec![0xFF, 0xEE];
    binary.apply_direct_patch(0, 10, &code).unwrap();

    assert_eq!(binary.data()[0], 0xFF);
    assert_eq!(binary.data()[1], 0xEE);
}

#[test]
fn test_direct_patch_at_end() {
    let mut binary = x86_64(vec![0; 100]);

    let code = vec![0xFF, 0xEE];
    binary.apply_direct_patch(98, 100, &code).unwrap();

    assert_eq!(binary.data()[98], 0xFF);
    assert_eq!(binary.data()[99], 0xEE);
}

#[test]
fn test_jump_patch_forward() {
    let mut binary = x86_64(vec![0; 1000]);

    // Jump from 0x100 to 0x200
    binary.apply_jump_patch(0x100, 0x110, 0x200).unwrap();

    // Check JMP instruction (E9)
    assert_eq!(binary.data()[0x100], 0xE9);

    // Calculate expected offset: target - (begin + 5)
    // 0x200 - (0x100 + 5) = 0xFB
    let offset = 0x200 - (0x100 + 5);
    assert_eq!(binary.data()[0x101], (offset & 0xFF) as u8);
    assert_eq!(binary.data()[0x102], ((offset >> 8) & 0xFF) as u8);
}

#[test]
fn test_jump_patch_backward() {
    let mut binary = x86_64(vec![0; 1000]);

    // Jump from 0x200 to 0x100
    binary.apply_jump_patch(0x200, 0x210, 0x100).unwrap();

    // Check JMP instruction
    assert_eq!(binary.data()[0x200], 0xE9);

    // Offset will be negative
    let offset = (0x100_i64 - (0x200 + 5) as i64) as i32;
    assert_eq!(binary.data()[0x201], (offset & 0xFF) as u8);
}

#[test]
fn test_jump_patch_out_of_bounds() {
    let mut binary = x86_64(vec![0; 100]);

    let result = binary.apply_jump_patch(98, 100, 0x200);
    assert!(result.is_err());
}

#[test]
fn test_multiple_patches() {
    let mut binary = x86_64(vec![0; 100]);

    // Apply first patch
    binary.apply_direct_patch(10, 15, &[0xAA, 0xBB]).unwrap();
    // Apply second patch
    binary.apply_direct_patch(20, 25, &[0xCC, 0xDD]).unwrap();

    assert_eq!(binary.data()[10], 0xAA);
    assert_eq!(binary.data()[11], 0xBB);
    assert_eq!(binary.data()[20], 0xCC);
    assert_eq!(binary.data()[21], 0xDD);
}

#[test]
fn test_patch_with_empty_code() {
    let mut binary = x86_64(vec![0; 100]);

    let code = vec![];
    binary.apply_direct_patch(10, 20, &code).unwrap();

    // Should fill with NOPs
    assert_eq!(binary.data()[10], 0x90);
    assert_eq!(binary.data()[19], 0x90);
}

#[test]
fn test_large_jump_offset() {
    let mut binary = x86_64(vec![0; 100000]);

    // Large forward jump
    binary.apply_jump_patch(0x1000, 0x1010, 0x10000).unwrap();
    assert_eq!(binary.data()[0x1000], 0xE9);
}

#[test]
fn test_direct_patch_overlapping_ranges() {
    let mut binary = x86_64(vec![0; 100]);

    // First patch
    binary.apply_direct_patch(10, 20, &[0xAA; 5]).unwrap();
    // Overlapping patch - this should succeed and overwrite
    binary.apply_direct_patch(15, 25, &[0xBB; 5]).unwrap();

    assert_eq!(binary.data()[14], 0xAA); // last code byte of first patch, untouched
    assert_eq!(binary.data()[15], 0xBB); // Overwritten by second patch
    assert_eq!(binary.data()[19], 0xBB);
}

#[test]
fn rounding_up_reaches_the_next_multiple() {
    assert_eq!(align_up(0, PAGE), 0);
    assert_eq!(align_up(1, PAGE), 0x1000);
    assert_eq!(align_up(0x1000, PAGE), 0x1000);
    assert_eq!(align_up(0x1001, 16), 0x1010);
}
