use oggpage::generate_bitstream_serial_number;

#[test]
fn test_generate_bitstream_serial_number() {
    let x1 = generate_bitstream_serial_number();
    let x2 = generate_bitstream_serial_number();
    assert_ne!(x1, x2);
}
