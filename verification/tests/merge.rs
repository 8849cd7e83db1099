//! Section resolution and the top-level map merge.

use hw_regmap::parser::{
    FieldOpt, Owner, ReadAccess, RegisterOpt, RegmapOpt, SectionOpt, WriteAccess,
};
use hw_regmap::regmap::{Regmap, RegmapError, Section};

fn user_register() -> RegisterOpt {
    RegisterOpt {
        description: "r".to_string(),
        owner: Owner::User,
        read_access: ReadAccess::Read,
        write_access: WriteAccess::Write,
        default: None,
        bytes_align: None,
        offset: None,
        field: None,
        duplicate: None,
    }
}

fn section(regs: Vec<(String, RegisterOpt)>) -> SectionOpt {
    SectionOpt {
        description: "s".to_string(),
        offset: None,
        range: None,
        bytes_align: None,
        duplicate: None,
        register: regs,
    }
}

fn fragment(
    name: &str,
    word_size_b: usize,
    offset: Option<usize>,
    range: usize,
    sections: Vec<(String, SectionOpt)>,
) -> RegmapOpt {
    RegmapOpt {
        module_name: name.to_string(),
        description: format!("doc of {name}"),
        word_size_b,
        offset,
        range,
        ext_pkg: vec![],
        section: sections,
    }
}

#[test]
fn section_range_covers_footprint() {
    let secs = vec![(
        "ctrl".to_string(),
        section(vec![
            ("a".to_string(), user_register()),
            ("b".to_string(), user_register()),
        ]),
    )];
    let out = Section::from_opt(&secs, 0, 4).unwrap();
    assert_eq!(out.len(), 1);
    assert_eq!(out[0].offset, 0);
    assert_eq!(out[0].range, 8);
    assert_eq!(out[0].register.len(), 2);
}

#[test]
fn explicit_section_range_too_small_rejected() {
    let secs = vec![(
        "ctrl".to_string(),
        SectionOpt {
            range: Some(4),
            ..section(vec![
                ("a".to_string(), user_register()),
                ("b".to_string(), user_register()),
            ])
        },
    )];
    let err = Section::from_opt(&secs, 0, 4).unwrap_err();
    match err {
        RegmapError::Range { request_range, real_range, .. } => {
            assert_eq!(request_range, 4);
            assert_eq!(real_range, 8);
        },
        other => panic!("expected Range, got {:?}", other),
    }
}

#[test]
fn duplicated_section_regenerates_registers() {
    let secs = vec![(
        "bank".to_string(),
        SectionOpt {
            duplicate: Some(vec!["_lo".to_string(), "_hi".to_string()]),
            ..section(vec![
                ("a".to_string(), user_register()),
                ("b".to_string(), user_register()),
            ])
        },
    )];
    let out = Section::from_opt(&secs, 0, 4).unwrap();
    assert_eq!(out.len(), 2);
    assert_eq!(out[0].name.as_str(), "bank_lo");
    assert_eq!(out[1].name.as_str(), "bank_hi");
    assert_eq!(out[0].offset, 0);
    assert_eq!(out[1].offset, 8);
    // the second instance's registers follow its own base
    assert_eq!(out[1].register[0].offset, 8);
    assert_eq!(out[1].register[1].offset, 12);
}

#[test]
fn empty_section_suffix_list_means_no_duplication() {
    let secs = vec![(
        "bank".to_string(),
        SectionOpt {
            duplicate: Some(vec![]),
            ..section(vec![("a".to_string(), user_register())])
        },
    )];
    let out = Section::from_opt(&secs, 0, 4).unwrap();
    assert_eq!(out.len(), 1);
    assert_eq!(out[0].name.as_str(), "bank");
    assert_eq!(out[0].offset, 0);
    assert_eq!(out[0].range, 4);
}

#[test]
fn duplicated_instance_outgrowing_its_range_rejected() {
    // word 4: the first instance spans [0,4) with its register at 0, but the
    // second instance, based at 4, re-aligns its register to 8 - outside its
    // own span.  Such an instance is rejected so registers always stay
    // inside their section.
    let reg = RegisterOpt { bytes_align: Some(8), ..user_register() };
    let secs = vec![(
        "bank".to_string(),
        SectionOpt {
            duplicate: Some(vec!["_a".to_string(), "_b".to_string()]),
            ..section(vec![("r".to_string(), reg)])
        },
    )];
    let err = Section::from_opt(&secs, 0, 4).unwrap_err();
    match err {
        RegmapError::Range { request_range, real_range, ctx } => {
            assert_eq!(request_range, 4);
            assert_eq!(real_range, 8);
            assert_eq!(ctx, "bank_b");
        },
        other => panic!("expected Range, got {:?}", other),
    }
}

#[test]
fn empty_fragment_list_rejected() {
    let mut frags: Vec<RegmapOpt> = vec![];
    let err = Regmap::from_opt(&mut frags).unwrap_err();
    assert!(matches!(err, RegmapError::NoEntry));
}

#[test]
fn word_sizes_must_agree() {
    let mut frags = vec![
        fragment("a", 32, None, 0x100, vec![]),
        fragment("b", 64, None, 0x100, vec![]),
    ];
    let err = Regmap::from_opt(&mut frags).unwrap_err();
    assert!(matches!(err, RegmapError::WordSize));
}

#[test]
fn fragment_range_must_be_power_of_two() {
    let mut frags = vec![fragment("a", 32, None, 0x300, vec![])];
    let err = Regmap::from_opt(&mut frags).unwrap_err();
    match err {
        RegmapError::RangePow2 { range, .. } => assert_eq!(range, 0x300),
        other => panic!("expected RangePow2, got {:?}", other),
    }
}

#[test]
fn fragment_offset_must_be_range_multiple() {
    let mut frags = vec![fragment("a", 32, Some(0x300), 0x200, vec![])];
    let err = Regmap::from_opt(&mut frags).unwrap_err();
    match err {
        RegmapError::OffsetRange { offset, range, .. } => {
            assert_eq!(offset, 0x300);
            assert_eq!(range, 0x200);
        },
        other => panic!("expected OffsetRange, got {:?}", other),
    }
}

#[test]
fn fragment_at_multiple_of_its_range_accepted() {
    // 0x300 is a multiple of 0x100, so prefix decoding works and the
    // placement is accepted.
    let mut frags = vec![fragment("a", 32, Some(0x300), 0x100, vec![])];
    let map = Regmap::from_opt(&mut frags).unwrap();
    assert_eq!(map.offset, 0x300);
    assert_eq!(map.range, 0x100);
}

#[test]
fn fragment_usage_must_fit_declared_range() {
    let secs = vec![(
        "big".to_string(),
        section(vec![
            ("a".to_string(), user_register()),
            ("b".to_string(), user_register()),
            ("c".to_string(), user_register()),
        ]),
    )];
    let mut frags = vec![fragment("a", 32, None, 8, secs)];
    let err = Regmap::from_opt(&mut frags).unwrap_err();
    match err {
        RegmapError::Range { request_range, real_range, .. } => {
            assert_eq!(request_range, 8);
            assert_eq!(real_range, 12);
        },
        other => panic!("expected Range, got {:?}", other),
    }
}

#[test]
fn merge_fuses_identity_and_packages() {
    let mut a = fragment("alpha", 32, None, 0x100, vec![]);
    a.ext_pkg = vec!["pkg_one".to_string(), "pkg_two".to_string()];
    let mut b = fragment("beta", 32, None, 0x100, vec![]);
    b.ext_pkg = vec!["pkg_two".to_string(), "pkg_three".to_string()];
    let mut frags = vec![a, b];
    let map = Regmap::from_opt(&mut frags).unwrap();
    assert_eq!(map.module_name.as_str(), "alpha_beta");
    assert_eq!(map.description.as_str(), "doc of alpha\n\ndoc of beta");
    assert_eq!(
        map.ext_pkg,
        vec![
            "pkg_one".to_string(),
            "pkg_two".to_string(),
            "pkg_three".to_string(),
        ]
    );
    assert_eq!(map.word_size_b, 32);
    assert_eq!(map.offset, 0);
    // each fragment reserves its whole declared range
    assert_eq!(map.range, 0x200);
}

#[test]
fn merge_orders_fragments_by_offset() {
    let hi = fragment("hi", 32, Some(0x100), 0x100, vec![]);
    let lo = fragment("lo", 32, None, 0x100, vec![]);
    let mut frags = vec![hi, lo];
    let map = Regmap::from_opt(&mut frags).unwrap();
    // the unplaced fragment sorts first and lands at zero
    assert_eq!(map.module_name.as_str(), "lo_hi");
    assert_eq!(map.offset, 0);
    assert_eq!(map.range, 0x200);
    // the input list is left in address order
    assert_eq!(frags[0].module_name.as_str(), "lo");
    assert_eq!(frags[1].module_name.as_str(), "hi");
}

#[test]
fn resolving_twice_gives_identical_output() {
    let make = || {
        vec![
            fragment(
                "hi",
                32,
                Some(0x100),
                0x100,
                vec![("s".to_string(), section(vec![("a".to_string(), user_register())]))],
            ),
            fragment("lo", 32, None, 0x100, vec![]),
        ]
    };
    let mut once = make();
    let first = Regmap::from_opt(&mut once).unwrap();
    // `once` is now the address-ordered list; resolving it again gives a
    // structurally identical map
    let second = Regmap::from_opt(&mut once).unwrap();
    assert_eq!(first.module_name, second.module_name);
    assert_eq!(first.description, second.description);
    assert_eq!(first.offset, second.offset);
    assert_eq!(first.range, second.range);
    assert_eq!(first.ext_pkg, second.ext_pkg);
    assert_eq!(first.section.len(), second.section.len());
    for (s1, s2) in first.section.iter().zip(second.section.iter()) {
        assert_eq!(s1.name, s2.name);
        assert_eq!(s1.offset, s2.offset);
        assert_eq!(s1.range, s2.range);
        assert_eq!(s1.register.len(), s2.register.len());
        for (r1, r2) in s1.register.iter().zip(s2.register.iter()) {
            assert_eq!(r1.name, r2.name);
            assert_eq!(r1.offset, r2.offset);
        }
    }
}

#[test]
fn section_offsets_are_fragment_relative() {
    let secs = vec![(
        "s".to_string(),
        section(vec![("a".to_string(), user_register())]),
    )];
    let mut frags = vec![fragment("m", 32, Some(0x200), 0x100, secs)];
    let map = Regmap::from_opt(&mut frags).unwrap();
    assert_eq!(*map.offset(), 0x200);
    assert_eq!(*map.section()[0].offset(), 0x200);
    assert_eq!(*map.section()[0].register()[0].offset(), 0x200);
    assert_eq!(map.module_name().as_str(), "m");
    assert_eq!(*map.word_size_b(), 32);
    assert_eq!(*map.range(), 0x100);
    assert!(map.ext_pkg().is_empty());
}

#[test]
fn sections_disjoint_and_aligned() {
    let secs = vec![
        ("one".to_string(), section(vec![("a".to_string(), user_register())])),
        (
            "two".to_string(),
            SectionOpt {
                offset: Some(0x40),
                bytes_align: Some(16),
                ..section(vec![("b".to_string(), user_register())])
            },
        ),
    ];
    let mut frags = vec![fragment("m", 32, None, 0x100, secs)];
    let map = Regmap::from_opt(&mut frags).unwrap();
    assert_eq!(map.section.len(), 2);
    for w in map.section.windows(2) {
        assert!(w[0].offset + w[0].range <= w[1].offset);
    }
    for s in map.section.iter() {
        assert_eq!(s.offset % s.bytes_align, 0);
        // every register lies inside its own section
        for r in s.register.iter() {
            assert!(s.offset <= r.offset);
            assert!(r.offset + 4 <= s.offset + s.range);
        }
    }
    assert_eq!(map.section[1].offset, 0x40);
    assert_eq!(map.section[1].bytes_align, 16);
}

#[test]
fn section_alignment_must_be_word_multiple() {
    let secs = vec![(
        "s".to_string(),
        SectionOpt {
            bytes_align: Some(6),
            ..section(vec![("a".to_string(), user_register())])
        },
    )];
    let err = Section::from_opt(&secs, 0, 4).unwrap_err();
    match err {
        RegmapError::ByteAlign { word_align, request_align, ctx } => {
            assert_eq!(word_align, 4);
            assert_eq!(request_align, 6);
            assert_eq!(ctx, "s");
        },
        other => panic!("expected ByteAlign, got {:?}", other),
    }
}

#[test]
fn fragment_below_cursor_rejected() {
    let lo = fragment("lo", 32, Some(0), 0x100, vec![]);
    let hi = fragment("hi", 32, Some(0x80), 0x80, vec![]);
    let mut frags = vec![lo, hi];
    let err = Regmap::from_opt(&mut frags).unwrap_err();
    match err {
        RegmapError::Offset { min_offset, request_offset, .. } => {
            assert_eq!(min_offset, 0x100);
            assert_eq!(request_offset, 0x80);
        },
        other => panic!("expected Offset, got {:?}", other),
    }
}

#[test]
fn addresses_fit_decides_the_precondition() {
    // an ordinary map fits
    let mut ok = vec![fragment(
        "m",
        32,
        None,
        0x100,
        vec![("s".to_string(), section(vec![("a".to_string(), user_register())]))],
    )];
    assert!(Regmap::addresses_fit(&mut ok));
    assert!(Regmap::from_opt(&mut ok).is_ok());

    // a map the resolver would merely reject still fits
    let mut rejected = vec![fragment("m", 32, None, 0x300, vec![])];
    assert!(Regmap::addresses_fit(&mut rejected));
    assert!(matches!(
        Regmap::from_opt(&mut rejected).unwrap_err(),
        RegmapError::RangePow2 { .. }
    ));

    // an explicit register offset near the top of the address space does not:
    // its aligned end address would leave the machine word
    let reg = RegisterOpt { offset: Some(usize::MAX - 2), ..user_register() };
    let mut huge = vec![fragment(
        "m",
        32,
        None,
        0x100,
        vec![("s".to_string(), section(vec![("r".to_string(), reg)]))],
    )];
    assert!(!Regmap::addresses_fit(&mut huge));

    // a zero alignment would divide by zero in the resolver
    let reg0 = RegisterOpt { bytes_align: Some(0), ..user_register() };
    let mut zero = vec![fragment(
        "m",
        32,
        None,
        0x100,
        vec![("s".to_string(), section(vec![("r".to_string(), reg0)]))],
    )];
    assert!(!Regmap::addresses_fit(&mut zero));
}
