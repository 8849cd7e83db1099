//! Executable test of the resolvers' one precondition.
//!
//! `Regmap::from_opt` requires `regmaps_in_bounds`: every address the
//! resolution would compute fits the machine word, and no explicit alignment
//! is zero.  That predicate is spec-level, so a caller handling untrusted
//! input could not test it.  `addresses_fit` walks the same computation with
//! checked arithmetic and decides the predicate exactly.

use vstd::prelude::*;

use crate::laws::{lemma_sort_frags_elems, lemma_sort_frags_sorted, lemma_sort_sorted_identity};
use crate::model::{DefaultValV, ErrorV, FieldV, RegisterV, SectionV};
use crate::model;
use crate::parser::{pairs_view, Owner, ReadAccess, RegisterOpt, RegmapOpt, SectionOpt, WriteAccess};
use crate::proofs;
use crate::regmap::{
    check_pow2, frags_view, max_register_end, max_section_end, registers_view, sections_view,
    sort_regmaps, DefaultVal, Field, Register, Section,
};

verus! {

/// Outcome of a bounds walk over one level: an address leaves the machine
/// word, the resolution stops with an error of its own, or it runs through
/// with the given cursor.
enum BoundsOutcome {
    Overflow,
    Rejected,
    FitsTo(usize),
}

/// Alignment rounding that reports instead of overflowing.
fn align_on_checked(bytes_align: usize, val: usize) -> (r: Option<usize>)
    requires
        bytes_align >= 1,
    ensures
        match r {
            Some(x) => x as int == crate::spec_align_on(bytes_align as int, val as int),
            None => crate::spec_align_on(bytes_align as int, val as int) > usize::MAX,
        },
{
    let remainder = val % bytes_align;
    if remainder == 0 {
        Some(val)
    } else {
        val.checked_add(bytes_align - remainder)
    }
}

/// Bounds walk over one section's registers.
#[verifier::loop_isolation(false)]
#[verifier::rlimit(100)]
fn check_registers(
    regs: &Vec<(String, RegisterOpt)>,
    section_offset: usize,
    word_size: usize,
) -> (r: BoundsOutcome)
    requires
        1 <= word_size,
        word_size * 8 <= usize::MAX,
    ensures
        ({
            let rv = pairs_view(regs@);
            let so = section_offset as int;
            let w = word_size as int;
            match r {
                BoundsOutcome::Overflow => !model::regs_in_bounds(rv, 0, so, so, w),
                BoundsOutcome::Rejected => model::regs_in_bounds(rv, 0, so, so, w)
                    && model::resolve_regs(rv, so, w) is Err,
                BoundsOutcome::FitsTo(c) => model::regs_in_bounds(rv, 0, so, so, w)
                    && model::resolve_regs(rv, so, w) is Ok && model::resolve_regs(
                    rv,
                    so,
                    w,
                )->Ok_0.1 == c as int,
            }
        }),
{
    let ghost rv = pairs_view(regs@);
    let ghost so = section_offset as int;
    let ghost w = word_size as int;
    let ghost mut acc_v: Seq<RegisterV> = Seq::empty();
    let mut auto_offset: usize = section_offset;
    let mut i: usize = 0;
    while i < regs.len()
        invariant
            i <= regs.len(),
            model::regs_in_bounds(rv, 0, so, so, w) == model::regs_in_bounds(
                rv,
                i as int,
                auto_offset as int,
                so,
                w,
            ),
            model::resolve_regs(rv, so, w) == model::resolve_regs_rec(
                rv,
                i as int,
                auto_offset as int,
                acc_v,
                so,
                w,
            ),
        decreases regs.len() - i,
    {
        let name = &regs[i].0;
        let register = &regs[i].1;
        let ghost ro = rv[i as int].1;
        let ghost cursor_i = auto_offset as int;
        proof {
            assert(rv[i as int] == (regs@[i as int].0@, regs@[i as int].1@));
        }

        let access_bad = match (register.owner, register.read_access, register.write_access) {
            (Owner::Parameter, ReadAccess::Read, WriteAccess::NoWrite) => false,
            (Owner::Parameter, _, _) => true,
            (Owner::User, _, _) => false,
            (Owner::Kernel, _, WriteAccess::Write) => true,
            (Owner::Kernel, _, _) => false,
        };
        proof {
            assert(model::access_ok(ro.owner, ro.read_access, ro.write_access) == !access_bad);
        }
        if access_bad {
            return BoundsOutcome::Rejected;
        }

        let bytes_align = match register.bytes_align {
            Some(align) => {
                if align % word_size != 0 {
                    return BoundsOutcome::Rejected;
                }
                if align == 0 {
                    return BoundsOutcome::Overflow;
                }
                align
            },
            None => word_size,
        };
        let ghost ba = bytes_align as int;

        let raw_offset = match register.offset {
            Some(ofst) => match ofst.checked_add(section_offset) {
                Some(v) => v,
                None => return BoundsOutcome::Overflow,
            },
            None => auto_offset,
        };
        let reg_offset = match align_on_checked(bytes_align, raw_offset) {
            Some(v) => v,
            None => return BoundsOutcome::Overflow,
        };
        if reg_offset < auto_offset {
            return BoundsOutcome::Rejected;
        }

        // Field and default errors halt the resolution as a whole.
        let expand_field = match &register.field {
            Some(fields) => match Field::from_opt(fields, word_size) {
                Ok(cf) => Some(cf),
                Err(_) => return BoundsOutcome::Rejected,
            },
            None => None,
        };
        let ghost mfields: Option<Seq<FieldV>> = match expand_field {
            Some(ref f) => Some(crate::regmap::fields_view(f@)),
            None => None,
        };
        proof {
            let fres: Result<Option<Seq<FieldV>>, ErrorV> = if ro.field is Some {
                match model::resolve_fields(ro.field->0, w) {
                    Ok(fs) => Ok(Some(fs)),
                    Err(e) => Err(e),
                }
            } else {
                Ok(None)
            };
            assert(fres == Ok::<Option<Seq<FieldV>>, ErrorV>(mfields));
        }
        match &register.default {
            Some(dflt) => match &expand_field {
                Some(field) => match Field::get_default(field, name) {
                    Ok(Some(_)) => {
                        return BoundsOutcome::Rejected;
                    },
                    Ok(None) => match dflt {
                        DefaultVal::ParamsField { .. } => {
                            return BoundsOutcome::Rejected;
                        },
                        _ => {},
                    },
                    Err(_) => return BoundsOutcome::Rejected,
                },
                None => {},
            },
            None => match &expand_field {
                Some(field) => match Field::get_default(field, name) {
                    Ok(_) => {},
                    Err(_) => return BoundsOutcome::Rejected,
                },
                None => {},
            },
        }
        let ghost default_v: DefaultValV = match model::resolve_reg_default(
            ro.default,
            mfields,
            rv[i as int].0,
        ) {
            Ok(d) => d,
            Err(_) => DefaultValV::Cst(0),
        };
        proof {
            assert(model::resolve_reg_default(ro.default, mfields, rv[i as int].0) == Ok::<
                DefaultValV,
                ErrorV,
            >(default_v));
        }

        // Duplication moves the cursor; only its arithmetic can overflow.
        let ghost base_v = RegisterV {
            name: rv[i as int].0,
            description: ro.description,
            owner: ro.owner,
            read_access: ro.read_access,
            write_access: ro.write_access,
            offset: reg_offset as int,
            default: default_v,
            field: mfields,
        };
        let ghost dups_v: Seq<Seq<char>> = if ro.duplicate is Some && ro.duplicate->0.len() > 0 {
            ro.duplicate->0
        } else {
            seq![Seq::<char>::empty()]
        };
        let dup_count: usize = match &register.duplicate {
            Some(d) => if d.len() > 0 {
                d.len()
            } else {
                1
            },
            None => 1,
        };
        proof {
            assert(dups_v.len() == dup_count as int);
            proofs::lemma_dup_regs_cursor(dups_v, 0, base_v, ba, w, reg_offset as int, Seq::empty());
        }
        let ghost start = reg_offset as int;
        let ghost count = dup_count as int;
        let mut cur: usize = reg_offset;
        let mut jj: usize = 1;
        while jj < dup_count
            invariant
                1 <= jj <= dup_count,
                ba == bytes_align as int,
                ba >= 1,
                count == dup_count as int,
                model::dup_cursor_rec(count, 0, ba, w, start) == model::dup_cursor_rec(
                    count,
                    jj as int,
                    ba,
                    w,
                    cur as int,
                ),
            decreases dup_count - jj,
        {
            let ghost off = crate::spec_align_on(ba, cur as int + w);
            proof {
                proofs::lemma_align_props(ba, cur as int + w);
                proofs::lemma_dup_cursor_ge(count, jj as int + 1, ba, w, off);
            }
            let s = match cur.checked_add(word_size) {
                Some(v) => v,
                None => {
                    proof {
                        assert(model::dup_cursor_rec(count, 0, ba, w, start) > usize::MAX);
                    }
                    return BoundsOutcome::Overflow;
                },
            };
            let a = match align_on_checked(bytes_align, s) {
                Some(v) => v,
                None => {
                    proof {
                        assert(model::dup_cursor_rec(count, 0, ba, w, start) > usize::MAX);
                    }
                    return BoundsOutcome::Overflow;
                },
            };
            cur = a;
            jj += 1;
        }
        let cursor_new = match cur.checked_add(word_size) {
            Some(v) => v,
            None => {
                proof {
                    assert(model::dup_cursor_rec(count, 0, ba, w, start) == cur as int);
                }
                return BoundsOutcome::Overflow;
            },
        };
        proof {
            assert(model::dup_cursor_rec(count, 0, ba, w, start) == cur as int);
            let step = model::resolve_one_reg(rv[i as int].0, ro, cursor_i, so, w)->Ok_0;
            assert(step.1 == cursor_new as int);
            assert(model::one_reg_in_bounds(rv[i as int].0, ro, cursor_i, so, w));
            acc_v = acc_v + step.0;
        }
        auto_offset = cursor_new;
        i += 1;
    }
    BoundsOutcome::FitsTo(auto_offset)
}

/// Bounds walk over one named section spec, duplication and all.
#[verifier::loop_isolation(false)]
#[verifier::rlimit(100)]
fn check_one_section(
    name: &String,
    section: &SectionOpt,
    cursor: usize,
    regmap_offset: usize,
    word_bytes: usize,
) -> (r: BoundsOutcome)
    requires
        1 <= word_bytes,
        word_bytes * 8 <= usize::MAX,
    ensures
        ({
            let sov = section@;
            let c = cursor as int;
            let base = regmap_offset as int;
            let w = word_bytes as int;
            match r {
                BoundsOutcome::Overflow => !model::one_sec_in_bounds(name@, sov, c, base, w),
                BoundsOutcome::Rejected => model::one_sec_in_bounds(name@, sov, c, base, w)
                    && model::resolve_one_sec(name@, sov, c, base, w) is Err,
                BoundsOutcome::FitsTo(nc) => model::one_sec_in_bounds(name@, sov, c, base, w)
                    && model::resolve_one_sec(name@, sov, c, base, w) is Ok
                    && model::resolve_one_sec(name@, sov, c, base, w)->Ok_0.1 == nc as int,
            }
        }),
{
    let ghost sov = section@;
    let ghost base = regmap_offset as int;
    let ghost w = word_bytes as int;
    let ghost cursor_i = cursor as int;

    let bytes_align = match section.bytes_align {
        Some(align) => {
            if align % word_bytes != 0 {
                return BoundsOutcome::Rejected;
            }
            if align == 0 {
                return BoundsOutcome::Overflow;
            }
            align
        },
        None => word_bytes,
    };
    let ghost ba = bytes_align as int;

    let raw_offset = match section.offset {
        Some(ofst) => match ofst.checked_add(regmap_offset) {
            Some(v) => v,
            None => return BoundsOutcome::Overflow,
        },
        None => cursor,
    };
    let sec_offset0 = match align_on_checked(bytes_align, raw_offset) {
        Some(v) => v,
        None => return BoundsOutcome::Overflow,
    };
    if sec_offset0 < cursor {
        return BoundsOutcome::Rejected;
    }

    // The section's own registers, bounds first, then for real.
    match check_registers(&section.register, sec_offset0, word_bytes) {
        BoundsOutcome::Overflow => return BoundsOutcome::Overflow,
        BoundsOutcome::Rejected => return BoundsOutcome::Rejected,
        BoundsOutcome::FitsTo(_) => {},
    }
    let regs0 = match Register::from_opt(&section.register, sec_offset0, word_bytes) {
        Ok(v) => v,
        Err(_) => {
            proof {
                assert(false);
            }
            return BoundsOutcome::Overflow;
        },
    };
    let ghost rp = model::resolve_regs(sov.register, sec_offset0 as int, w)->Ok_0;
    proof {
        proofs::lemma_regs_rec_props(
            sov.register,
            0,
            sec_offset0 as int,
            Seq::empty(),
            sec_offset0 as int,
            w,
        );
        assert(registers_view(regs0@) == rp.0);
    }
    let reg_end = max_register_end(&regs0, sec_offset0, word_bytes);
    let real_range = reg_end - sec_offset0;
    let range = match section.range {
        Some(request_range) => {
            if real_range > request_range {
                return BoundsOutcome::Rejected;
            }
            request_range
        },
        None => real_range,
    };
    proof {
        proofs::lemma_max_reg_end_props(rp.0, 0, sec_offset0 as int, w);
    }

    // Duplication: each later instance re-resolves and re-checks.
    let ghost dups_v: Seq<Seq<char>> = if sov.duplicate is Some && sov.duplicate->0.len() > 0 {
        sov.duplicate->0
    } else {
        seq![Seq::<char>::empty()]
    };
    let dup_count: usize = match &section.duplicate {
        Some(d) => if d.len() > 0 {
            d.len()
        } else {
            1
        },
        None => 1,
    };
    let ghost whole_dup = model::dup_secs_rec(
        dups_v,
        0,
        name@,
        sov,
        ba,
        range as int,
        sec_offset0 as int,
        cursor_i,
        w,
        rp.0,
        Seq::empty(),
    );
    proof {
        assert(dups_v.len() == dup_count as int);
        assert(model::resolve_one_sec(name@, sov, cursor_i, base, w) == whole_dup);
    }
    let ghost mut dup_acc: Seq<SectionV> = Seq::empty();
    let mut sec_cur: usize = sec_offset0;
    let mut cursor_out: usize = cursor;
    let mut j: usize = 0;
    while j < dup_count
        invariant
            j <= dup_count,
            ba == bytes_align as int,
            ba >= 1,
            dups_v.len() == dup_count as int,
            whole_dup == model::dup_secs_rec(
                dups_v,
                j as int,
                name@,
                sov,
                ba,
                range as int,
                sec_cur as int,
                (if j == 0 {
                    cursor_i
                } else {
                    cursor_out as int
                }),
                w,
                rp.0,
                dup_acc,
            ),
            model::dup_secs_in_bounds(dups_v, 0, sov, ba, range as int, sec_offset0 as int, w)
                == model::dup_secs_in_bounds(
                dups_v,
                j as int,
                sov,
                ba,
                range as int,
                sec_cur as int,
                w,
            ),
            j == 0 ==> sec_cur == sec_offset0,
            j >= 1 ==> cursor_out as int == sec_cur as int + range,
        decreases dup_count - j,
    {
        if j != 0 {
            let sum = match sec_cur.checked_add(range) {
                Some(v) => v,
                None => return BoundsOutcome::Overflow,
            };
            let off = match align_on_checked(bytes_align, sum) {
                Some(v) => v,
                None => return BoundsOutcome::Overflow,
            };
            match check_registers(&section.register, off, word_bytes) {
                BoundsOutcome::Overflow => return BoundsOutcome::Overflow,
                BoundsOutcome::Rejected => return BoundsOutcome::Rejected,
                BoundsOutcome::FitsTo(_) => {},
            }
            let regs_j = match Register::from_opt(&section.register, off, word_bytes) {
                Ok(v) => v,
                Err(_) => {
                    proof {
                        assert(false);
                    }
                    return BoundsOutcome::Overflow;
                },
            };
            let ghost rpj = model::resolve_regs(sov.register, off as int, w)->Ok_0;
            proof {
                proofs::lemma_regs_rec_props(
                    sov.register,
                    0,
                    off as int,
                    Seq::empty(),
                    off as int,
                    w,
                );
                proofs::lemma_max_reg_end_props(rpj.0, 0, off as int, w);
                assert(registers_view(regs_j@) == rpj.0);
            }
            let end_j = max_register_end(&regs_j, off, word_bytes);
            if end_j - off > range {
                return BoundsOutcome::Rejected;
            }
            sec_cur = off;
        }
        let nc = match sec_cur.checked_add(range) {
            Some(v) => v,
            None => return BoundsOutcome::Overflow,
        };
        proof {
            let regs_v: Seq<RegisterV> = if j == 0 {
                rp.0
            } else {
                model::resolve_regs(sov.register, sec_cur as int, w)->Ok_0.0
            };
            let inst_v = SectionV {
                name: name@ + dups_v[j as int],
                description: sov.description,
                offset: sec_cur as int,
                bytes_align: ba,
                range: range as int,
                register: regs_v,
            };
            dup_acc = dup_acc.push(inst_v);
        }
        cursor_out = nc;
        j += 1;
    }
    proof {
        assert(whole_dup == Ok::<(Seq<SectionV>, int), ErrorV>((dup_acc, cursor_out as int)));
        assert(model::one_sec_in_bounds(name@, sov, cursor_i, base, w));
    }
    BoundsOutcome::FitsTo(cursor_out)
}

/// Bounds walk over one fragment's sections.
#[verifier::loop_isolation(false)]
#[verifier::rlimit(100)]
fn check_sections(
    secs: &Vec<(String, SectionOpt)>,
    regmap_offset: usize,
    word_bytes: usize,
) -> (r: BoundsOutcome)
    requires
        1 <= word_bytes,
        word_bytes * 8 <= usize::MAX,
    ensures
        ({
            let sv = pairs_view(secs@);
            let base = regmap_offset as int;
            let w = word_bytes as int;
            match r {
                BoundsOutcome::Overflow => !model::secs_in_bounds(sv, 0, base, base, w),
                BoundsOutcome::Rejected => model::secs_in_bounds(sv, 0, base, base, w)
                    && model::resolve_secs(sv, base, w) is Err,
                BoundsOutcome::FitsTo(c) => model::secs_in_bounds(sv, 0, base, base, w)
                    && model::resolve_secs(sv, base, w) is Ok && model::resolve_secs(
                    sv,
                    base,
                    w,
                )->Ok_0.1 == c as int,
            }
        }),
{
    let ghost sv = pairs_view(secs@);
    let ghost base = regmap_offset as int;
    let ghost w = word_bytes as int;
    let ghost mut acc_v: Seq<SectionV> = Seq::empty();
    let mut auto_offset: usize = regmap_offset;
    let mut i: usize = 0;
    while i < secs.len()
        invariant
            i <= secs.len(),
            model::secs_in_bounds(sv, 0, base, base, w) == model::secs_in_bounds(
                sv,
                i as int,
                auto_offset as int,
                base,
                w,
            ),
            model::resolve_secs(sv, base, w) == model::resolve_secs_rec(
                sv,
                i as int,
                auto_offset as int,
                acc_v,
                base,
                w,
            ),
        decreases secs.len() - i,
    {
        let name = &secs[i].0;
        let section = &secs[i].1;
        proof {
            assert(sv[i as int] == (secs@[i as int].0@, secs@[i as int].1@));
        }
        match check_one_section(name, section, auto_offset, regmap_offset, word_bytes) {
            BoundsOutcome::Overflow => return BoundsOutcome::Overflow,
            BoundsOutcome::Rejected => return BoundsOutcome::Rejected,
            BoundsOutcome::FitsTo(c) => {
                proof {
                    let step = model::resolve_one_sec(
                        sv[i as int].0,
                        sv[i as int].1,
                        auto_offset as int,
                        base,
                        w,
                    )->Ok_0;
                    acc_v = acc_v + step.0;
                }
                auto_offset = c;
            },
        }
        i += 1;
    }
    BoundsOutcome::FitsTo(auto_offset)
}

/// Bounds walk over one fragment.
#[verifier::loop_isolation(false)]
#[verifier::rlimit(100)]
fn check_fragment(frag: &RegmapOpt, cursor: usize, word_bytes: usize) -> (r: BoundsOutcome)
    requires
        1 <= word_bytes,
        word_bytes * 8 <= usize::MAX,
    ensures
        ({
            let fr = frag@;
            let c = cursor as int;
            let w = word_bytes as int;
            match r {
                BoundsOutcome::Overflow => !model::one_frag_in_bounds(fr, c, w),
                BoundsOutcome::Rejected => model::one_frag_in_bounds(fr, c, w)
                    && model::resolve_one_frag(fr, c, w) is Err,
                BoundsOutcome::FitsTo(nc) => model::one_frag_in_bounds(fr, c, w)
                    && model::resolve_one_frag(fr, c, w) is Ok && model::resolve_one_frag(
                    fr,
                    c,
                    w,
                )->Ok_0.1 == nc as int,
            }
        }),
{
    let ghost fr = frag@;
    let ghost w = word_bytes as int;
    let regmap_offset = match frag.offset {
        Some(o) => o,
        None => cursor,
    };
    if regmap_offset < cursor {
        return BoundsOutcome::Rejected;
    }
    if !check_pow2(frag.range) {
        return BoundsOutcome::Rejected;
    }
    proof {
        proofs::lemma_pow2_pos(frag.range as int);
    }
    if regmap_offset % frag.range != 0 {
        return BoundsOutcome::Rejected;
    }
    match check_sections(&frag.section, regmap_offset, word_bytes) {
        BoundsOutcome::Overflow => return BoundsOutcome::Overflow,
        BoundsOutcome::Rejected => return BoundsOutcome::Rejected,
        BoundsOutcome::FitsTo(_) => {},
    }
    let section = match Section::from_opt(&frag.section, regmap_offset, word_bytes) {
        Ok(v) => v,
        Err(_) => {
            proof {
                assert(false);
            }
            return BoundsOutcome::Overflow;
        },
    };
    let ghost sp = model::resolve_secs(fr.section, regmap_offset as int, w)->Ok_0;
    proof {
        proofs::lemma_secs_rec_props(
            fr.section,
            0,
            regmap_offset as int,
            Seq::empty(),
            regmap_offset as int,
            w,
        );
        proofs::lemma_max_sec_end_props(sp.0, 0, regmap_offset as int);
        assert(sections_view(section@) == sp.0);
    }
    let sec_end = max_section_end(&section, regmap_offset);
    let real_range = sec_end - regmap_offset;
    if real_range > frag.range {
        return BoundsOutcome::Rejected;
    }
    match regmap_offset.checked_add(frag.range) {
        Some(c) => BoundsOutcome::FitsTo(c),
        None => BoundsOutcome::Overflow,
    }
}

impl crate::regmap::Regmap {
    /// Whether every address the resolution of these fragments would compute
    /// fits the machine word — the one precondition of [`Regmap::from_opt`]
    /// (`crate::regmap::Regmap::from_opt`).  A description that the resolver
    /// would merely reject with one of its own errors still fits.  Like the
    /// resolver itself, this leaves the fragment list in address order.
    #[verifier::loop_isolation(false)]
    #[verifier::rlimit(100)]
    pub fn addresses_fit(regmaps: &mut Vec<RegmapOpt>) -> (b: bool)
        ensures
            b == model::regmaps_in_bounds(frags_view(old(regmaps)@)),
            b == model::regmaps_in_bounds(frags_view(final(regmaps)@)),
            frags_view(final(regmaps)@) == (if old(regmaps)@.len() == 0
                || !model::frags_word_sizes_agree(frags_view(old(regmaps)@)) {
                frags_view(old(regmaps)@)
            } else {
                model::sort_frags(frags_view(old(regmaps)@))
            }),
    {
        let ghost fv0 = frags_view(regmaps@);

        if regmaps.len() == 0 {
            return true;
        }

        let word_size_b = regmaps[0].word_size_b;
        let mut idx: usize = 1;
        while idx < regmaps.len()
            invariant
                1 <= idx <= regmaps@.len(),
                forall|t: int|
                    0 <= t < idx ==> #[trigger] fv0[t].word_size_b == fv0[0].word_size_b,
            decreases regmaps@.len() - idx,
        {
            proof {
                assert(fv0[idx as int] == regmaps@[idx as int]@);
            }
            if regmaps[idx].word_size_b != word_size_b {
                proof {
                    assert(fv0[0] == regmaps@[0]@);
                    assert(fv0[idx as int].word_size_b != fv0[0].word_size_b);
                    assert(!model::frags_word_sizes_agree(fv0));
                }
                return true;
            }
            idx += 1;
        }
        proof {
            assert(model::frags_word_sizes_agree(fv0));
        }

        sort_regmaps(regmaps);
        let ghost sorted = model::sort_frags(fv0);
        proof {
            proofs::lemma_sort_frags_len(fv0);
            lemma_sort_frags_elems(fv0);
            assert forall|t: int|
                0 <= t < sorted.len() implies #[trigger] sorted[t].word_size_b
                == fv0[0].word_size_b by {
                assert(fv0.contains(sorted[t]));
                let k = choose|k: int| 0 <= k < fv0.len() && fv0[k] == sorted[t];
                assert(fv0[k].word_size_b == fv0[0].word_size_b);
            }
            assert(model::frags_word_sizes_agree(sorted));
            lemma_sort_frags_sorted(fv0);
            lemma_sort_sorted_identity(sorted);
            assert(model::regmaps_in_bounds(sorted) == model::regmaps_in_bounds(fv0));
        }

        if word_size_b < 1 {
            return false;
        }
        if word_size_b > usize::MAX - 7 {
            return false;
        }

        let word_bytes = word_size_b / 8 + (if word_size_b % 8 == 0 {
            0
        } else {
            1
        });
        proof {
            assert(word_bytes as int == model::word_bytes_of(word_size_b as int));
            assert(1 <= word_bytes);
            assert(word_bytes * 8 <= usize::MAX);
        }

        let ghost mut acc_v: Seq<SectionV> = Seq::empty();
        let mut auto_offset: usize = 0;
        let mut i: usize = 0;
        while i < regmaps.len()
            invariant
                i <= regmaps@.len(),
                model::frags_in_bounds(sorted, 0, 0, word_bytes as int)
                    == model::frags_in_bounds(
                    sorted,
                    i as int,
                    auto_offset as int,
                    word_bytes as int,
                ),
                model::resolve_frags_rec(sorted, 0, 0, Seq::empty(), word_bytes as int)
                    == model::resolve_frags_rec(
                    sorted,
                    i as int,
                    auto_offset as int,
                    acc_v,
                    word_bytes as int,
                ),
            decreases regmaps@.len() - i,
        {
            proof {
                assert(sorted[i as int] == regmaps@[i as int]@);
            }
            match check_fragment(&regmaps[i], auto_offset, word_bytes) {
                BoundsOutcome::Overflow => return false,
                BoundsOutcome::Rejected => return true,
                BoundsOutcome::FitsTo(c) => {
                    proof {
                        let step = model::resolve_one_frag(
                            sorted[i as int],
                            auto_offset as int,
                            word_bytes as int,
                        )->Ok_0;
                        acc_v = acc_v + step.0;
                    }
                    auto_offset = c;
                },
            }
            i += 1;
        }
        true
    }
}

} // verus!
