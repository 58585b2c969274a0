use clikit::config::{BorderStyle, Config};
use clikit::display::{render, render_checked};

#[test]
fn plain_output_matches_shape() {
    let data = b"Hello\x00World\xffABC";
    let mut config = Config::default();
    config.apply_plain();
    let out = render(data, &config);
    assert!(out.contains("48 65 6c"));
}

#[test]
fn plain_line_layout() {
    let mut config = Config::default();
    config.apply_plain();
    assert_eq!(render(b"AB", &config), "  41 42        \n");
}

#[test]
fn bordered_line_layout() {
    let mut config = Config::default();
    config.border = BorderStyle::Ascii;
    let out = render(b"A", &config);
    let lines: Vec<&str> = out.lines().collect();
    assert_eq!(lines.len(), 3);
    assert!(lines[0].starts_with("+--------+"));
    assert!(lines[1].starts_with("|00000000| 41"));
    assert!(lines[1].ends_with("|A       |        |"));
}

#[test]
fn empty_input_says_no_content() {
    let mut config = Config::default();
    config.border = BorderStyle::Ascii;
    let out = render(b"", &config);
    assert!(out.contains(" No content "));
    config.border = BorderStyle::NoBorder;
    assert_eq!(render(b"", &config), "\n");
}

#[test]
fn repeated_rows_are_squeezed() {
    let mut config = Config::default();
    config.apply_plain();
    config.show_position = true;
    let data = [0u8; 64];
    let out = render(&data, &config);
    let lines: Vec<&str> = out.lines().collect();
    assert_eq!(lines.len(), 3);
    assert!(lines[1].starts_with(" *"));
    assert!(lines[2].starts_with(" 00000040"));
}

#[test]
fn c_array_output() {
    let mut config = Config::default();
    config.include_array = true;
    config.file_name = Some("dir/my file.bin".to_string());
    assert_eq!(
        render(&[1, 2], &config),
        "unsigned char my_file_bin[] = {\n  0x01, 0x02\n};\nunsigned int my_file_bin_len = 2;\n"
    );
}

#[test]
fn zero_group_size_is_refused() {
    let mut config = Config::default();
    config.group_size = 0;
    assert_eq!(render_checked(b"x", &config), None);
}

#[test]
fn distinct_rows_are_not_squeezed() {
    let mut config = Config::default();
    config.apply_plain();
    config.show_position = true;
    let data: Vec<u8> = (0..64).collect();
    let squeezed = render(&data, &config);
    config.no_squeezing = true;
    assert_eq!(render(&data, &config), squeezed);
    assert_eq!(squeezed.lines().count(), 4);
}
