//! Field- and register-level resolution behaviour.

use hw_regmap::parser::{FieldOpt, Owner, ReadAccess, RegisterOpt, WriteAccess};
use hw_regmap::regmap::{DefaultVal, Field, Register, RegmapError};

fn field_opt(size_b: usize, offset_b: Option<usize>, default: Option<DefaultVal>) -> FieldOpt {
    FieldOpt { description: "f".to_string(), size_b, offset_b, default }
}

fn plain_register(offset: Option<usize>, duplicate: Option<Vec<String>>) -> RegisterOpt {
    RegisterOpt {
        description: "r".to_string(),
        owner: Owner::User,
        read_access: ReadAccess::Read,
        write_access: WriteAccess::Write,
        default: None,
        bytes_align: None,
        offset,
        field: None,
        duplicate,
    }
}

#[test]
fn fields_auto_placed_in_order() {
    let fields = vec![
        ("a".to_string(), field_opt(4, None, None)),
        ("b".to_string(), field_opt(4, None, None)),
        ("c".to_string(), field_opt(8, None, None)),
    ];
    let out = Field::from_opt(&fields, 4).unwrap();
    assert_eq!(out.len(), 3);
    assert_eq!((out[0].name.as_str(), out[0].offset_b), ("a", 0));
    assert_eq!((out[1].name.as_str(), out[1].offset_b), ("b", 4));
    assert_eq!((out[2].name.as_str(), out[2].offset_b), ("c", 8));
}

#[test]
fn fields_sorted_by_explicit_offset() {
    let fields = vec![
        ("hi".to_string(), field_opt(8, Some(8), None)),
        ("lo".to_string(), field_opt(8, Some(0), None)),
    ];
    let out = Field::from_opt(&fields, 4).unwrap();
    assert_eq!(out[0].name.as_str(), "lo");
    assert_eq!(out[0].offset_b, 0);
    assert_eq!(out[1].name.as_str(), "hi");
    assert_eq!(out[1].offset_b, 8);
}

#[test]
fn fields_crossing_word_boundary_rejected() {
    // 32-bit word; 4 bits at 0, then 30 more cannot fit.
    let fields = vec![
        ("a".to_string(), field_opt(4, None, None)),
        ("b".to_string(), field_opt(30, None, None)),
        ("c".to_string(), field_opt(1, None, None)),
    ];
    let err = Field::from_opt(&fields, 4).unwrap_err();
    match err {
        RegmapError::WordBoundary { word_b, field_b, .. } => {
            assert_eq!(word_b, 4);
            assert_eq!(field_b, 30);
        },
        other => panic!("expected WordBoundary, got {:?}", other),
    }
}

#[test]
fn aggregate_default_covers_every_field() {
    let fields = vec![
        (
            "a".to_string(),
            field_opt(4, None, Some(DefaultVal::Param("P".to_string()))),
        ),
        ("b".to_string(), field_opt(8, None, Some(DefaultVal::Cst(0x1f)))),
        ("c".to_string(), field_opt(4, None, None)),
    ];
    let resolved = Field::from_opt(&fields, 4).unwrap();
    let agg = Field::get_default(&resolved, &"reg".to_string()).unwrap().unwrap();
    match agg {
        DefaultVal::ParamsField { params, name_val } => {
            assert_eq!(params, vec!["P".to_string()]);
            assert_eq!(
                name_val,
                vec![
                    ("a".to_string(), "P".to_string()),
                    ("b".to_string(), "'h1f".to_string()),
                    ("c".to_string(), "'h0".to_string()),
                ]
            );
        },
        other => panic!("expected aggregate, got {:?}", other),
    }
}

#[test]
fn no_field_default_means_no_aggregate() {
    let fields = vec![("a".to_string(), field_opt(4, None, None))];
    let resolved = Field::from_opt(&fields, 4).unwrap();
    let agg = Field::get_default(&resolved, &"reg".to_string()).unwrap();
    assert!(agg.is_none());
}

#[test]
fn aggregate_field_default_rejected() {
    let nested = DefaultVal::ParamsField { params: vec![], name_val: vec![] };
    let fields = vec![("a".to_string(), field_opt(4, None, Some(nested)))];
    let resolved = Field::from_opt(&fields, 4).unwrap();
    let err = Field::get_default(&resolved, &"reg".to_string()).unwrap_err();
    assert!(matches!(err, RegmapError::DfltInvalid { .. }));
}

#[test]
fn params_list_per_variant() {
    assert_eq!(DefaultVal::Cst(7).params_list(), Vec::<String>::new());
    assert_eq!(
        DefaultVal::Param("X".to_string()).params_list(),
        vec!["X".to_string()]
    );
    let agg = DefaultVal::ParamsField {
        params: vec!["A".to_string(), "B".to_string()],
        name_val: vec![],
    };
    assert_eq!(agg.params_list(), vec!["A".to_string(), "B".to_string()]);
}

#[test]
fn explicit_register_offset_below_cursor_rejected() {
    // five auto-placed words move the cursor to 0x14; 0x10 is then taken.
    let regs = vec![
        (
            "auto".to_string(),
            plain_register(
                None,
                Some(vec![
                    "_0".to_string(),
                    "_1".to_string(),
                    "_2".to_string(),
                    "_3".to_string(),
                    "_4".to_string(),
                ]),
            ),
        ),
        ("fixed".to_string(), plain_register(Some(0x10), None)),
    ];
    let err = Register::from_opt(&regs, 0, 4).unwrap_err();
    match err {
        RegmapError::Offset { min_offset, request_offset, ctx } => {
            assert_eq!(min_offset, 0x14);
            assert_eq!(request_offset, 0x10);
            assert_eq!(ctx, "fixed");
        },
        other => panic!("expected Offset, got {:?}", other),
    }
}

#[test]
fn kernel_register_duplicated_one_word_apart() {
    // 4-byte words: the second instance sits one word past the first.
    let reg = RegisterOpt {
        description: "status".to_string(),
        owner: Owner::Kernel,
        read_access: ReadAccess::Read,
        write_access: WriteAccess::NoWrite,
        default: None,
        bytes_align: None,
        offset: None,
        field: None,
        duplicate: Some(vec!["_0".to_string(), "_1".to_string()]),
    };
    let out = Register::from_opt(&vec![("status".to_string(), reg)], 0, 4).unwrap();
    assert_eq!(out.len(), 2);
    assert_eq!(out[0].name.as_str(), "status_0");
    assert_eq!(out[0].offset, 0);
    assert_eq!(out[1].name.as_str(), "status_1");
    assert_eq!(out[1].offset, 4);
}

#[test]
fn empty_suffix_list_means_no_duplication() {
    // zero suffixes = no duplication: one instance under the spec's own
    // name, and the cursor moves one word as for any single register
    let regs = vec![
        ("a".to_string(), plain_register(None, Some(vec![]))),
        ("b".to_string(), plain_register(None, None)),
    ];
    let out = Register::from_opt(&regs, 0, 4).unwrap();
    assert_eq!(out.len(), 2);
    assert_eq!(out[0].name.as_str(), "a");
    assert_eq!(out[0].offset, 0);
    assert_eq!(out[1].name.as_str(), "b");
    assert_eq!(out[1].offset, 4);
}

#[test]
fn duplication_respects_alignment() {
    let reg = RegisterOpt {
        bytes_align: Some(8),
        duplicate: Some(vec!["_a".to_string(), "_b".to_string()]),
        ..plain_register(None, None)
    };
    let out = Register::from_opt(&vec![("r".to_string(), reg)], 0, 4).unwrap();
    assert_eq!(out[0].offset, 0);
    assert_eq!(out[1].offset, 8);
}

#[test]
fn parameter_register_must_be_read_only() {
    let reg = RegisterOpt {
        owner: Owner::Parameter,
        read_access: ReadAccess::Read,
        write_access: WriteAccess::Write,
        ..plain_register(None, None)
    };
    let err = Register::from_opt(&vec![("p".to_string(), reg)], 0, 4).unwrap_err();
    assert!(matches!(err, RegmapError::Access { .. }));
}

#[test]
fn kernel_register_never_plain_writable() {
    let reg = RegisterOpt {
        owner: Owner::Kernel,
        read_access: ReadAccess::NoRead,
        write_access: WriteAccess::Write,
        ..plain_register(None, None)
    };
    let err = Register::from_opt(&vec![("k".to_string(), reg)], 0, 4).unwrap_err();
    assert!(matches!(err, RegmapError::Access { .. }));
    // notify-writes stay allowed
    let reg2 = RegisterOpt {
        owner: Owner::Kernel,
        read_access: ReadAccess::ReadNotify,
        write_access: WriteAccess::WriteNotify,
        ..plain_register(None, None)
    };
    assert!(Register::from_opt(&vec![("k".to_string(), reg2)], 0, 4).is_ok());
}

#[test]
fn register_alignment_must_be_word_multiple() {
    let reg = RegisterOpt { bytes_align: Some(3), ..plain_register(None, None) };
    let err = Register::from_opt(&vec![("r".to_string(), reg)], 0, 4).unwrap_err();
    match err {
        RegmapError::ByteAlign { word_align, request_align, .. } => {
            assert_eq!(word_align, 4);
            assert_eq!(request_align, 3);
        },
        other => panic!("expected ByteAlign, got {:?}", other),
    }
}

#[test]
fn register_default_reconciliation() {
    // explicit + fieldless fields: explicit wins
    let reg = RegisterOpt {
        default: Some(DefaultVal::Cst(9)),
        field: Some(vec![("f".to_string(), field_opt(4, None, None))]),
        ..plain_register(None, None)
    };
    let out = Register::from_opt(&vec![("r".to_string(), reg)], 0, 4).unwrap();
    assert_eq!(out[0].default, DefaultVal::Cst(9));

    // explicit + field defaults: rejected
    let reg = RegisterOpt {
        default: Some(DefaultVal::Cst(9)),
        field: Some(vec![(
            "f".to_string(),
            field_opt(4, None, Some(DefaultVal::Cst(1))),
        )]),
        ..plain_register(None, None)
    };
    let err = Register::from_opt(&vec![("r".to_string(), reg)], 0, 4).unwrap_err();
    assert!(matches!(err, RegmapError::DfltOverride { .. }));

    // explicit aggregate: rejected
    let reg = RegisterOpt {
        default: Some(DefaultVal::ParamsField { params: vec![], name_val: vec![] }),
        field: Some(vec![("f".to_string(), field_opt(4, None, None))]),
        ..plain_register(None, None)
    };
    let err = Register::from_opt(&vec![("r".to_string(), reg)], 0, 4).unwrap_err();
    assert!(matches!(err, RegmapError::DfltInvalid { .. }));

    // no source at all: constant zero
    let reg = plain_register(None, None);
    let out = Register::from_opt(&vec![("r".to_string(), reg)], 0, 4).unwrap();
    assert_eq!(out[0].default, DefaultVal::Cst(0));

    // field defaults alone: the aggregate wins
    let reg = RegisterOpt {
        field: Some(vec![(
            "f".to_string(),
            field_opt(4, None, Some(DefaultVal::Param("P".to_string()))),
        )]),
        ..plain_register(None, None)
    };
    let out = Register::from_opt(&vec![("r".to_string(), reg)], 0, 4).unwrap();
    match &out[0].default {
        DefaultVal::ParamsField { params, .. } => assert_eq!(params, &vec!["P".to_string()]),
        other => panic!("expected aggregate, got {:?}", other),
    }
}

#[test]
fn registers_strictly_ordered_within_section() {
    let regs = vec![
        ("a".to_string(), plain_register(None, None)),
        ("b".to_string(), plain_register(Some(0x20), None)),
        ("c".to_string(), plain_register(None, None)),
    ];
    let out = Register::from_opt(&regs, 0, 4).unwrap();
    for w in out.windows(2) {
        assert!(w[0].offset + 4 <= w[1].offset);
    }
    assert_eq!(out[1].offset, 0x20);
    assert_eq!(out[2].offset, 0x24);
}

#[test]
fn access_queries() {
    assert!(!ReadAccess::NoRead.is_read());
    assert!(ReadAccess::Read.is_read());
    assert!(ReadAccess::ReadNotify.is_read());
    assert!(!WriteAccess::NoWrite.is_write());
    assert!(WriteAccess::Write.is_write());
    assert!(WriteAccess::WriteNotify.is_write());
}

#[test]
fn field_cursor_moves_to_next_free_bit() {
    let fields = vec![
        ("a".to_string(), field_opt(4, None, None)),
        ("b".to_string(), field_opt(4, None, None)),
        ("c".to_string(), field_opt(4, None, None)),
    ];
    let out = Field::from_opt(&fields, 4).unwrap();
    assert_eq!(out[0].offset_b, 0);
    assert_eq!(out[1].offset_b, 4);
    assert_eq!(out[2].offset_b, 8);
}

#[test]
fn wide_words_place_one_word_apart() {
    // 8-byte words: auto-placed registers land 8 bytes apart.
    let regs = vec![
        ("a".to_string(), plain_register(None, None)),
        ("b".to_string(), plain_register(None, None)),
    ];
    let out = Register::from_opt(&regs, 0, 8).unwrap();
    assert_eq!(*out[0].offset(), 0);
    assert_eq!(*out[1].offset(), 8);
    assert_eq!(out[0].name().as_str(), "a");
    assert_eq!(out[1].name().as_str(), "b");
}

#[test]
fn align_on_rounds_up() {
    assert_eq!(hw_regmap::align_on(4, 0), 0);
    assert_eq!(hw_regmap::align_on(4, 1), 4);
    assert_eq!(hw_regmap::align_on(4, 4), 4);
    assert_eq!(hw_regmap::align_on(8, 13), 16);
    assert_eq!(hw_regmap::align_on(1, 7), 7);
}
