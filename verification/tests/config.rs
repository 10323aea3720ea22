use hexyg_core::config::{AddressSize, Endian, Padding};
use hexyg_core::Config;

#[test]
fn default_values() {
    let config = Config::default();
    assert_eq!(config.endian, Endian::Little);
    assert_eq!(config.address_size, AddressSize::U32);
    assert_eq!(config.padding, Padding::Value(0x00));
    assert_eq!(config.line_length, 16);
    assert_eq!(config.block_length, 1);
    assert!(config.repeat_address);
    assert!(config.show_preview);
}

#[test]
fn new_is_the_default() {
    let a = Config::new();
    let b = Config::default();
    assert_eq!(a.endian, b.endian);
    assert_eq!(a.address_size, b.address_size);
    assert_eq!(a.padding, b.padding);
    assert_eq!(a.line_length, b.line_length);
    assert_eq!(a.block_length, b.block_length);
    assert_eq!(a.repeat_address, b.repeat_address);
    assert_eq!(a.show_preview, b.show_preview);
}

#[test]
fn enum_defaults() {
    assert_eq!(Endian::default(), Endian::Little);
    assert_eq!(AddressSize::default(), AddressSize::U32);
    assert_eq!(Padding::default(), Padding::Value(0));
}

#[test]
fn builders_change_one_field_each() {
    let config = Config::new()
        .with_endian(Endian::Big)
        .with_address_size(AddressSize::Stretch)
        .with_padding(Padding::Forbidden)
        .with_line_length(32)
        .with_block_length(4)
        .with_repeat_address(false)
        .with_preview(false);
    assert_eq!(config.endian, Endian::Big);
    assert_eq!(config.address_size, AddressSize::Stretch);
    assert_eq!(config.padding, Padding::Forbidden);
    assert_eq!(config.line_length, 32);
    assert_eq!(config.block_length, 4);
    assert!(!config.repeat_address);
    assert!(!config.show_preview);

    let only_length = Config::new().with_line_length(0);
    assert_eq!(only_length.line_length, 0);
    assert_eq!(only_length.block_length, 1);
    assert_eq!(only_length.address_size, AddressSize::U32);
}
