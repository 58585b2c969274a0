use clikit::args::{
    BorderStyle, CharacterTable, Cli, ColorScheme, ColorWhen, Endianness, GroupSizeArg, NumericBase,
};

fn cli() -> Cli {
    Cli {
        file: Some("data.bin".to_string()),
        length: None,
        length_alias_c: None,
        length_alias_l: None,
        skip: None,
        block_size: 512,
        no_squeezing: false,
        color: ColorWhen::Always,
        border: BorderStyle::Unicode,
        plain: false,
        no_characters: false,
        characters: false,
        character_table: CharacterTable::Default,
        color_scheme: ColorScheme::Default,
        no_position: false,
        display_offset: Some("0".to_string()),
        panels: "auto".to_string(),
        group_size: GroupSizeArg::One,
        endianness: Endianness::Big,
        base: NumericBase::Hexadecimal,
        terminal_width: None,
        print_color_table: false,
        include_array: false,
        completion: None,
    }
}

#[test]
fn length_under_any_name() {
    let mut c = cli();
    assert_eq!(c.effective_length(), None);
    c.length_alias_l = Some("3".to_string());
    assert_eq!(c.effective_length(), Some("3"));
    c.length_alias_c = Some("2".to_string());
    assert_eq!(c.effective_length(), Some("2"));
    c.length = Some("1".to_string());
    assert_eq!(c.effective_length(), Some("1"));
}

#[test]
fn plain_and_forced_colors() {
    let mut c = cli();
    c.plain = true;
    let r = c.resolved();
    assert!(r.no_characters && r.no_position);
    assert_eq!(r.border, BorderStyle::NoBorder);
    assert_eq!(r.color, ColorWhen::Never);
    assert_eq!(r.file.as_deref(), Some("data.bin"));
    let mut c = cli();
    c.color = ColorWhen::Force;
    let r = c.resolved();
    assert_eq!(r.color, ColorWhen::Always);
    assert_eq!(r.border, BorderStyle::Unicode);
    assert!(!r.no_characters);
    let copy = c.clone();
    assert_eq!(copy.panels, "auto");
    assert_eq!(copy.display_offset.as_deref(), Some("0"));
}
