//! The flattened view and its pack/unpack helpers.

use hw_regmap::flat::{Access, FlatField, FlatRegister, FlatRegmap};
use hw_regmap::parser::{
    FieldOpt, Owner, ReadAccess, RegisterOpt, RegmapOpt, SectionOpt, WriteAccess,
};
use hw_regmap::regmap::Regmap;

fn flat_reg(fields: Vec<(&str, usize, usize)>) -> FlatRegister {
    FlatRegister {
        sec_name: "sec".to_string(),
        sec_description: "sd".to_string(),
        reg_name: "reg".to_string(),
        reg_description: "rd".to_string(),
        access: Access::ReadWrite,
        offset: 0,
        field: fields
            .into_iter()
            .map(|(n, size_b, offset_b)| FlatField {
                name: n.to_string(),
                description: String::new(),
                size_b,
                offset_b,
            })
            .collect(),
    }
}

#[test]
fn unpack_extracts_each_field() {
    let reg = flat_reg(vec![("lo", 8, 0), ("mid", 16, 8), ("hi", 8, 24)]);
    let parts = reg.as_field(0xdead_beef);
    assert_eq!(parts.len(), 3);
    assert_eq!(parts[0], ("lo".to_string(), 0xef));
    assert_eq!(parts[1], ("mid".to_string(), 0xadbe));
    assert_eq!(parts[2], ("hi".to_string(), 0xde));
}

#[test]
fn pack_shifts_and_masks() {
    let reg = flat_reg(vec![("lo", 8, 0), ("hi", 8, 24)]);
    let w = reg.from_field(&vec![
        ("hi".to_string(), 0xde),
        ("lo".to_string(), 0x1_23), // masked to 8 bits
    ]);
    assert_eq!(w, 0xde00_0023);
}

#[test]
fn pack_unpack_roundtrip_with_full_coverage() {
    let reg = flat_reg(vec![("lo", 8, 0), ("mid", 16, 8), ("hi", 8, 24)]);
    let w = 0xdead_beef;
    assert_eq!(reg.from_field(&reg.as_field(w)), w);
    let reg_one = flat_reg(vec![("all", 32, 0)]);
    assert_eq!(reg_one.from_field(&reg_one.as_field(w)), w);
}

#[test]
fn pack_unpack_drops_padding_bits() {
    // bits 8..32 are padding: the round trip clears them by design
    let reg = flat_reg(vec![("lo", 8, 0)]);
    assert_eq!(reg.from_field(&reg.as_field(0xdead_beef)), 0xef);
}

#[test]
fn flat_view_keys_and_access() {
    let reg = RegisterOpt {
        description: "control".to_string(),
        owner: Owner::User,
        read_access: ReadAccess::Read,
        write_access: WriteAccess::NoWrite,
        default: None,
        bytes_align: None,
        offset: None,
        field: Some(vec![(
            "enable".to_string(),
            FieldOpt { description: "en".to_string(), size_b: 1, offset_b: None, default: None },
        )]),
        duplicate: None,
    };
    let sec = SectionOpt {
        description: "main section".to_string(),
        offset: None,
        range: None,
        bytes_align: None,
        duplicate: None,
        register: vec![("ctrl".to_string(), reg)],
    };
    let mut frags = vec![RegmapOpt {
        module_name: "mod".to_string(),
        description: "d".to_string(),
        word_size_b: 32,
        offset: None,
        range: 0x100,
        ext_pkg: vec![],
        section: vec![("regs".to_string(), sec)],
    }];
    let map = Regmap::from_opt(&mut frags).unwrap();
    let flat = FlatRegmap::new(map);
    let regs = flat.register();
    assert_eq!(regs.len(), 1);
    assert_eq!(regs[0].0.as_str(), "regs::ctrl");
    let fr = &regs[0].1;
    assert_eq!(fr.sec_name.as_str(), "regs");
    assert_eq!(fr.reg_name.as_str(), "ctrl");
    assert_eq!(fr.access, Access::Read);
    assert_eq!(fr.offset, 0);
    assert_eq!(fr.field.len(), 1);
    assert_eq!(fr.field[0].name.as_str(), "enable");
    assert_eq!(fr.field[0].size_b, 1);
    assert_eq!(fr.field[0].offset_b, 0);
}
