//! Properties of the resolution model: alignment facts, bounds of every
//! computed address, and the ordering of the resolved entities.  The
//! executable resolvers lean on the bounds, the public laws on the ordering.

use vstd::prelude::*;

use crate::model::{
    dup_cursor_rec, dup_regs_rec, dup_secs_in_bounds, dup_secs_rec, insert_field_by_offset, is_pow2,
    max_reg_end_rec, max_sec_end_rec, one_reg_in_bounds, one_sec_in_bounds, regs_in_bounds,
    resolve_fields, resolve_one_reg, resolve_one_sec, resolve_reg_default, resolve_regs,
    resolve_regs_rec, resolve_secs_rec, secs_in_bounds, insert_frag_sorted, leq_frag, sort_frags,
    frags_in_bounds, one_frag_in_bounds, resolve_frags_rec, resolve_one_frag, resolve_secs,
    DefaultValV, ErrorV, FieldV, RegisterOptV, RegisterV, RegmapOptV, SectionOptV, SectionV,
};
use crate::spec_align_on;

verus! {

/// Registers occupy disjoint one-word ranges in ascending address order.
pub open spec fn regs_gap_sorted(regs: Seq<RegisterV>, word_bytes: int) -> bool {
    forall|k1: int, k2: int|
        0 <= k1 < k2 < regs.len() ==> #[trigger] regs[k1].offset + word_bytes
            <= #[trigger] regs[k2].offset
}

/// Sections occupy disjoint byte ranges in ascending address order.
pub open spec fn secs_disjoint_sorted(secs: Seq<SectionV>) -> bool {
    forall|k1: int, k2: int|
        0 <= k1 < k2 < secs.len() ==> #[trigger] secs[k1].offset + secs[k1].range
            <= #[trigger] secs[k2].offset
}

/// Every register of the section lies inside it: at or above the section's
/// address, its word ending inside the section's range.
pub open spec fn sec_contains_registers(sec: SectionV, word_bytes: int) -> bool {
    forall|r: int|
        0 <= r < sec.register.len() ==> sec.offset <= (#[trigger] sec.register[r]).offset
            && sec.register[r].offset + word_bytes <= sec.offset + sec.range
}

pub open spec fn secs_contain_registers(secs: Seq<SectionV>, word_bytes: int) -> bool {
    forall|k: int|
        0 <= k < secs.len() ==> sec_contains_registers(#[trigger] secs[k], word_bytes)
}

/// Every section address is a multiple of its resolved alignment.
pub open spec fn secs_aligned(secs: Seq<SectionV>) -> bool {
    forall|k: int|
        0 <= k < secs.len() ==> #[trigger] secs[k].bytes_align >= 1 && secs[k].offset % (
        secs[k].bytes_align) == 0 && secs[k].range >= 0
}

pub proof fn lemma_align_props(a: int, v: int)
    requires
        a >= 1,
    ensures
        spec_align_on(a, v) >= v,
        spec_align_on(a, v) % a == 0,
        spec_align_on(a, v) < v + a,
        v >= 0 ==> spec_align_on(a, v) >= 0,
{
    assert(0 <= v % a < a) by (nonlinear_arith)
        requires
            a >= 1,
    ;
    let m = v % a;
    if m != 0 {
        assert((v + (a - v % a)) % a == 0) by (nonlinear_arith)
            requires
                a >= 1,
        ;
    }
}

// ---------------------------------------------------------------------------
// Field order
// ---------------------------------------------------------------------------

/// Where a stable insertion lands: right after the last field with a smaller
/// or equal offset.
pub proof fn lemma_insert_field_at(s: Seq<FieldV>, f: FieldV, j: int)
    requires
        0 <= j <= s.len(),
        forall|k: int| j <= k < s.len() ==> #[trigger] s[k].offset_b > f.offset_b,
        j > 0 ==> s[j - 1].offset_b <= f.offset_b,
    ensures
        insert_field_by_offset(s, f) == s.subrange(0, j) + seq![f] + s.subrange(
            j,
            s.len() as int,
        ),
    decreases s.len(),
{
    if s.len() == 0 {
        assert(insert_field_by_offset(s, f) =~= s.subrange(0, 0) + seq![f] + s.subrange(0, 0));
    } else if s.last().offset_b <= f.offset_b {
        assert(j == s.len());
        assert(insert_field_by_offset(s, f) =~= s.subrange(0, j) + seq![f] + s.subrange(
            j,
            s.len() as int,
        ));
    } else {
        assert(j < s.len());
        lemma_insert_field_at(s.drop_last(), f, j);
        assert(s.drop_last().subrange(0, j) =~= s.subrange(0, j));
        assert(s.drop_last().subrange(j, s.drop_last().len() as int) =~= s.subrange(
            j,
            s.len() - 1,
        ));
        assert(insert_field_by_offset(s, f) =~= s.subrange(0, j) + seq![f] + s.subrange(
            j,
            s.len() as int,
        ));
    }
}

// ---------------------------------------------------------------------------
// Fragment order
// ---------------------------------------------------------------------------

/// Where a stable fragment insertion lands: right after the last fragment
/// that is less than or equal to the new one.
pub proof fn lemma_insert_frag_at(s: Seq<RegmapOptV>, x: RegmapOptV, j: int)
    requires
        0 <= j <= s.len(),
        forall|k: int| j <= k < s.len() ==> !leq_frag(#[trigger] s[k], x),
        j > 0 ==> leq_frag(s[j - 1], x),
    ensures
        insert_frag_sorted(s, x) == s.subrange(0, j) + seq![x] + s.subrange(j, s.len() as int),
    decreases s.len(),
{
    if s.len() == 0 {
        assert(insert_frag_sorted(s, x) =~= s.subrange(0, 0) + seq![x] + s.subrange(0, 0));
    } else if leq_frag(s.last(), x) {
        assert(j == s.len());
        assert(insert_frag_sorted(s, x) =~= s.subrange(0, j) + seq![x] + s.subrange(
            j,
            s.len() as int,
        ));
    } else {
        assert(j < s.len());
        lemma_insert_frag_at(s.drop_last(), x, j);
        assert(s.drop_last().subrange(0, j) =~= s.subrange(0, j));
        assert(s.drop_last().subrange(j, s.drop_last().len() as int) =~= s.subrange(
            j,
            s.len() - 1,
        ));
        assert(insert_frag_sorted(s, x) =~= s.subrange(0, j) + seq![x] + s.subrange(
            j,
            s.len() as int,
        ));
    }
}

pub proof fn lemma_insert_frag_len(s: Seq<RegmapOptV>, x: RegmapOptV)
    ensures
        insert_frag_sorted(s, x).len() == s.len() + 1,
    decreases s.len(),
{
    if s.len() == 0 {
    } else if leq_frag(s.last(), x) {
    } else {
        lemma_insert_frag_len(s.drop_last(), x);
    }
}

pub proof fn lemma_sort_frags_len(s: Seq<RegmapOptV>)
    ensures
        sort_frags(s).len() == s.len(),
    decreases s.len(),
{
    if s.len() == 0 {
    } else {
        lemma_sort_frags_len(s.drop_last());
        lemma_insert_frag_len(sort_frags(s.drop_last()), s.last());
    }
}

// ---------------------------------------------------------------------------
// Register level
// ---------------------------------------------------------------------------

pub proof fn lemma_dup_regs_props(
    dups: Seq<Seq<char>>,
    j: int,
    base: RegisterV,
    bytes_align: int,
    word_bytes: int,
    cur: int,
    acc: Seq<RegisterV>,
)
    requires
        bytes_align >= 1,
        word_bytes >= 1,
        j == 0 ==> acc.len() == 0,
        regs_gap_sorted(acc, word_bytes),
        forall|k: int| 0 <= k < acc.len() ==> #[trigger] acc[k].offset <= cur,
    ensures
        ({
            let p = dup_regs_rec(dups, j, base, bytes_align, word_bytes, cur, acc);
            &&& p.1 >= cur
            &&& p.0.len() >= acc.len()
            &&& forall|k: int| 0 <= k < acc.len() ==> #[trigger] p.0[k] == acc[k]
            &&& forall|k: int|
                acc.len() <= k < p.0.len() ==> cur <= #[trigger] p.0[k].offset <= p.1
            &&& regs_gap_sorted(p.0, word_bytes)
        }),
    decreases dups.len() - j,
{
    if j < 0 || j >= dups.len() {
    } else {
        let off = if j == 0 {
            cur
        } else {
            spec_align_on(bytes_align, cur + word_bytes)
        };
        if j != 0 {
            lemma_align_props(bytes_align, cur + word_bytes);
        }
        let inst = RegisterV {
            name: base.name + dups[j],
            description: base.description,
            owner: base.owner,
            read_access: base.read_access,
            write_access: base.write_access,
            offset: off,
            default: base.default,
            field: base.field,
        };
        let acc2 = acc.push(inst);
        assert(regs_gap_sorted(acc2, word_bytes));
        lemma_dup_regs_props(dups, j + 1, base, bytes_align, word_bytes, off, acc2);
    }
}

/// The duplication cursor does not depend on the names or the accumulated
/// instances.
pub proof fn lemma_dup_regs_cursor(
    dups: Seq<Seq<char>>,
    j: int,
    base: RegisterV,
    bytes_align: int,
    word_bytes: int,
    cur: int,
    acc: Seq<RegisterV>,
)
    ensures
        dup_regs_rec(dups, j, base, bytes_align, word_bytes, cur, acc).1 == dup_cursor_rec(
            dups.len() as int,
            j,
            bytes_align,
            word_bytes,
            cur,
        ),
    decreases dups.len() - j,
{
    if j < 0 || j >= dups.len() {
    } else {
        let off = if j == 0 {
            cur
        } else {
            spec_align_on(bytes_align, cur + word_bytes)
        };
        let inst = RegisterV {
            name: base.name + dups[j],
            description: base.description,
            owner: base.owner,
            read_access: base.read_access,
            write_access: base.write_access,
            offset: off,
            default: base.default,
            field: base.field,
        };
        lemma_dup_regs_cursor(dups, j + 1, base, bytes_align, word_bytes, off, acc.push(inst));
    }
}

/// The duplication cursor never moves backwards.
pub proof fn lemma_dup_cursor_ge(count: int, j: int, bytes_align: int, word_bytes: int, cur: int)
    requires
        bytes_align >= 1,
        word_bytes >= 1,
    ensures
        dup_cursor_rec(count, j, bytes_align, word_bytes, cur) >= cur,
    decreases count - j,
{
    if j < 0 || j >= count {
    } else {
        let off = if j == 0 {
            cur
        } else {
            spec_align_on(bytes_align, cur + word_bytes)
        };
        if j != 0 {
            lemma_align_props(bytes_align, cur + word_bytes);
        }
        lemma_dup_cursor_ge(count, j + 1, bytes_align, word_bytes, off);
    }
}

pub proof fn lemma_one_reg_props(
    name: Seq<char>,
    r: RegisterOptV,
    cursor: int,
    section_offset: int,
    word_bytes: int,
)
    requires
        word_bytes >= 1,
        one_reg_in_bounds(name, r, cursor, section_offset, word_bytes),
        resolve_one_reg(name, r, cursor, section_offset, word_bytes) is Ok,
    ensures
        ({
            let step = resolve_one_reg(name, r, cursor, section_offset, word_bytes)->Ok_0;
            &&& step.1 >= cursor + word_bytes
            &&& step.1 <= usize::MAX
            &&& forall|k: int|
                0 <= k < step.0.len() ==> cursor <= #[trigger] step.0[k].offset
                    && step.0[k].offset + word_bytes <= step.1
            &&& regs_gap_sorted(step.0, word_bytes)
        }),
{
    let bytes_align = if r.bytes_align is Some { r.bytes_align->0 } else { word_bytes };
    let raw_offset = if r.offset is Some { r.offset->0 + section_offset } else { cursor };
    let reg_offset = spec_align_on(bytes_align, raw_offset);
    let dups = if r.duplicate is Some && r.duplicate->0.len() > 0 {
        r.duplicate->0
    } else {
        seq![Seq::<char>::empty()]
    };
    let step = resolve_one_reg(name, r, cursor, section_offset, word_bytes)->Ok_0;
    let fields = match (if r.field is Some {
        match resolve_fields(r.field->0, word_bytes) {
            Ok(fs) => Ok(Some(fs)),
            Err(e) => Err(e),
        }
    } else {
        Ok(None)
    }) {
        Ok(f) => f,
        Err(_) => None,
    };
    let default = match resolve_reg_default(r.default, fields, name) {
        Ok(d) => d,
        Err(_) => DefaultValV::Cst(0),
    };
    let base = RegisterV {
        name,
        description: r.description,
        owner: r.owner,
        read_access: r.read_access,
        write_access: r.write_access,
        offset: reg_offset,
        default,
        field: fields,
    };
    lemma_dup_regs_props(dups, 0, base, bytes_align, word_bytes, reg_offset, Seq::empty());
}

pub proof fn lemma_regs_rec_props(
    regs: Seq<(Seq<char>, RegisterOptV)>,
    i: int,
    cursor: int,
    acc: Seq<RegisterV>,
    section_offset: int,
    word_bytes: int,
)
    requires
        word_bytes >= 1,
        cursor <= usize::MAX,
        regs_in_bounds(regs, i, cursor, section_offset, word_bytes),
        resolve_regs_rec(regs, i, cursor, acc, section_offset, word_bytes) is Ok,
        regs_gap_sorted(acc, word_bytes),
        forall|k: int| 0 <= k < acc.len() ==> #[trigger] acc[k].offset + word_bytes <= cursor,
    ensures
        ({
            let p = resolve_regs_rec(regs, i, cursor, acc, section_offset, word_bytes)->Ok_0;
            &&& p.1 >= cursor
            &&& p.1 <= usize::MAX
            &&& p.0.len() >= acc.len()
            &&& forall|k: int| 0 <= k < acc.len() ==> #[trigger] p.0[k] == acc[k]
            &&& forall|k: int|
                0 <= k < p.0.len() ==> #[trigger] p.0[k].offset + word_bytes <= p.1
            &&& forall|k: int| acc.len() <= k < p.0.len() ==> cursor <= #[trigger] p.0[k].offset
            &&& regs_gap_sorted(p.0, word_bytes)
        }),
    decreases regs.len() - i,
{
    if i < 0 || i >= regs.len() {
    } else {
        match resolve_one_reg(regs[i].0, regs[i].1, cursor, section_offset, word_bytes) {
            Err(_) => {},
            Ok(step) => {
                lemma_one_reg_props(regs[i].0, regs[i].1, cursor, section_offset, word_bytes);
                let acc2 = acc + step.0;
                assert(regs_gap_sorted(acc2, word_bytes)) by {
                    assert forall|k1: int, k2: int| 0 <= k1 < k2 < acc2.len() implies #[trigger]
                        acc2[k1].offset + word_bytes <= #[trigger] acc2[k2].offset by {
                        if k2 < acc.len() {
                        } else if k1 < acc.len() {
                            assert(acc2[k1].offset + word_bytes <= cursor);
                            assert(acc2[k2] == step.0[k2 - acc.len()]);
                        } else {
                            assert(acc2[k1] == step.0[k1 - acc.len()]);
                            assert(acc2[k2] == step.0[k2 - acc.len()]);
                        }
                    }
                }
                lemma_regs_rec_props(regs, i + 1, step.1, acc2, section_offset, word_bytes);
            },
        }
    }
}

// ---------------------------------------------------------------------------
// Section level
// ---------------------------------------------------------------------------

pub proof fn lemma_dup_secs_props(
    dups: Seq<Seq<char>>,
    j: int,
    name: Seq<char>,
    s: SectionOptV,
    bytes_align: int,
    range: int,
    sec_offset: int,
    cursor: int,
    word_bytes: int,
    first_regs: Seq<RegisterV>,
    acc: Seq<SectionV>,
)
    requires
        bytes_align >= 1,
        range >= 0,
        word_bytes >= 1,
        cursor <= usize::MAX,
        sec_offset % bytes_align == 0,
        dup_secs_in_bounds(dups, j, s, bytes_align, range, sec_offset, word_bytes),
        dup_secs_rec(
            dups,
            j,
            name,
            s,
            bytes_align,
            range,
            sec_offset,
            cursor,
            word_bytes,
            first_regs,
            acc,
        ) is Ok,
        secs_disjoint_sorted(acc),
        secs_aligned(acc),
        secs_contain_registers(acc, word_bytes),
        forall|k: int| 0 <= k < acc.len() ==> #[trigger] acc[k].offset + acc[k].range <= cursor,
        j == 0 ==> acc.len() == 0 && sec_offset >= cursor,
        j == 0 ==> forall|r: int|
            0 <= r < first_regs.len() ==> sec_offset <= (#[trigger] first_regs[r]).offset
                && first_regs[r].offset + word_bytes <= sec_offset + range,
        j >= 1 ==> cursor == sec_offset + range,
    ensures
        ({
            let p = dup_secs_rec(
                dups,
                j,
                name,
                s,
                bytes_align,
                range,
                sec_offset,
                cursor,
                word_bytes,
                first_regs,
                acc,
            )->Ok_0;
            &&& p.1 >= cursor
            &&& p.1 <= usize::MAX
            &&& p.0.len() >= acc.len()
            &&& forall|k: int| 0 <= k < acc.len() ==> #[trigger] p.0[k] == acc[k]
            &&& forall|k: int|
                0 <= k < p.0.len() ==> #[trigger] p.0[k].offset + p.0[k].range <= p.1
            &&& forall|k: int| acc.len() <= k < p.0.len() ==> cursor <= #[trigger] p.0[k].offset
            &&& secs_disjoint_sorted(p.0)
            &&& secs_aligned(p.0)
            &&& secs_contain_registers(p.0, word_bytes)
        }),
    decreases dups.len() - j,
{
    if j < 0 || j >= dups.len() {
    } else {
        let off = if j == 0 {
            sec_offset
        } else {
            spec_align_on(bytes_align, sec_offset + range)
        };
        if j != 0 {
            lemma_align_props(bytes_align, sec_offset + range);
        }
        let regs_res: Result<Seq<RegisterV>, ErrorV> = if j == 0 {
            Ok(first_regs)
        } else {
            match resolve_regs(s.register, off, word_bytes) {
                Ok(p) => Ok(p.0),
                Err(e) => Err(e),
            }
        };
        match regs_res {
            Err(_) => {},
            Ok(regs) => {
                let inst_real_range = max_reg_end_rec(regs, 0, off, word_bytes) - off;
                if j >= 1 && inst_real_range > range {
                    // this instance is rejected, so the whole result is an
                    // error, which the requires rules out
                } else {
                    let inst = SectionV {
                        name: name + dups[j],
                        description: s.description,
                        offset: off,
                        bytes_align,
                        range,
                        register: regs,
                    };
                    let acc2 = acc.push(inst);
                    assert(secs_disjoint_sorted(acc2));
                    assert(secs_aligned(acc2));
                    if j >= 1 {
                        lemma_regs_rec_props(
                            s.register,
                            0,
                            off,
                            Seq::empty(),
                            off,
                            word_bytes,
                        );
                        lemma_max_reg_end_props(regs, 0, off, word_bytes);
                    }
                    assert(sec_contains_registers(inst, word_bytes));
                    assert(secs_contain_registers(acc2, word_bytes));
                    lemma_dup_secs_props(
                        dups,
                        j + 1,
                        name,
                        s,
                        bytes_align,
                        range,
                        off,
                        off + range,
                        word_bytes,
                        first_regs,
                        acc2,
                    );
                }
            },
        }
    }
}

pub proof fn lemma_one_sec_props(
    name: Seq<char>,
    s: SectionOptV,
    cursor: int,
    regmap_offset: int,
    word_bytes: int,
)
    requires
        word_bytes >= 1,
        cursor <= usize::MAX,
        one_sec_in_bounds(name, s, cursor, regmap_offset, word_bytes),
        resolve_one_sec(name, s, cursor, regmap_offset, word_bytes) is Ok,
    ensures
        ({
            let step = resolve_one_sec(name, s, cursor, regmap_offset, word_bytes)->Ok_0;
            &&& step.1 >= cursor
            &&& step.1 <= usize::MAX
            &&& forall|k: int|
                0 <= k < step.0.len() ==> cursor <= #[trigger] step.0[k].offset
                    && step.0[k].offset + step.0[k].range <= step.1
            &&& secs_disjoint_sorted(step.0)
            &&& secs_aligned(step.0)
            &&& secs_contain_registers(step.0, word_bytes)
        }),
{
    let bytes_align = if s.bytes_align is Some { s.bytes_align->0 } else { word_bytes };
    let raw_offset = if s.offset is Some { s.offset->0 + regmap_offset } else { cursor };
    let sec_offset = spec_align_on(bytes_align, raw_offset);
    lemma_align_props(bytes_align, raw_offset);
    match resolve_regs(s.register, sec_offset, word_bytes) {
        Err(_) => {},
        Ok(p) => {
            if sec_offset >= cursor {
                lemma_regs_rec_props(
                    s.register,
                    0,
                    sec_offset,
                    Seq::empty(),
                    sec_offset,
                    word_bytes,
                );
            }
            lemma_max_reg_end_props(p.0, 0, sec_offset, word_bytes);
            let real_range = max_reg_end_rec(p.0, 0, sec_offset, word_bytes) - sec_offset;
            let range = if s.range is Some { s.range->0 } else { real_range };
            let dups = if s.duplicate is Some && s.duplicate->0.len() > 0 {
                s.duplicate->0
            } else {
                seq![Seq::<char>::empty()]
            };
            if !(s.range is Some && real_range > s.range->0) {
                lemma_dup_secs_props(
                    dups,
                    0,
                    name,
                    s,
                    bytes_align,
                    range,
                    sec_offset,
                    cursor,
                    word_bytes,
                    p.0,
                    Seq::empty(),
                );
            }
        },
    }
}

pub proof fn lemma_secs_rec_props(
    secs: Seq<(Seq<char>, SectionOptV)>,
    i: int,
    cursor: int,
    acc: Seq<SectionV>,
    regmap_offset: int,
    word_bytes: int,
)
    requires
        word_bytes >= 1,
        cursor <= usize::MAX,
        secs_in_bounds(secs, i, cursor, regmap_offset, word_bytes),
        resolve_secs_rec(secs, i, cursor, acc, regmap_offset, word_bytes) is Ok,
        secs_disjoint_sorted(acc),
        secs_aligned(acc),
        secs_contain_registers(acc, word_bytes),
        forall|k: int| 0 <= k < acc.len() ==> #[trigger] acc[k].offset + acc[k].range <= cursor,
    ensures
        ({
            let p = resolve_secs_rec(secs, i, cursor, acc, regmap_offset, word_bytes)->Ok_0;
            &&& p.1 >= cursor
            &&& p.1 <= usize::MAX
            &&& p.0.len() >= acc.len()
            &&& forall|k: int| 0 <= k < acc.len() ==> #[trigger] p.0[k] == acc[k]
            &&& forall|k: int|
                0 <= k < p.0.len() ==> #[trigger] p.0[k].offset + p.0[k].range <= p.1
            &&& forall|k: int| acc.len() <= k < p.0.len() ==> cursor <= #[trigger] p.0[k].offset
            &&& secs_disjoint_sorted(p.0)
            &&& secs_aligned(p.0)
            &&& secs_contain_registers(p.0, word_bytes)
        }),
    decreases secs.len() - i,
{
    if i < 0 || i >= secs.len() {
    } else {
        match resolve_one_sec(secs[i].0, secs[i].1, cursor, regmap_offset, word_bytes) {
            Err(_) => {},
            Ok(step) => {
                lemma_one_sec_props(secs[i].0, secs[i].1, cursor, regmap_offset, word_bytes);
                let acc2 = acc + step.0;
                assert(secs_disjoint_sorted(acc2)) by {
                    assert forall|k1: int, k2: int| 0 <= k1 < k2 < acc2.len() implies #[trigger]
                        acc2[k1].offset + acc2[k1].range <= #[trigger] acc2[k2].offset by {
                        if k2 < acc.len() {
                        } else if k1 < acc.len() {
                            assert(acc2[k1].offset + acc2[k1].range <= cursor);
                            assert(acc2[k2] == step.0[k2 - acc.len()]);
                        } else {
                            assert(acc2[k1] == step.0[k1 - acc.len()]);
                            assert(acc2[k2] == step.0[k2 - acc.len()]);
                        }
                    }
                }
                assert(secs_aligned(acc2)) by {
                    assert forall|k: int| 0 <= k < acc2.len() implies #[trigger] acc2[k].bytes_align
                        >= 1 && acc2[k].offset % (acc2[k].bytes_align) == 0 && acc2[k].range
                        >= 0 by {
                        if k >= acc.len() {
                            assert(acc2[k] == step.0[k - acc.len()]);
                        }
                    }
                }
                assert(secs_contain_registers(acc2, word_bytes)) by {
                    assert forall|k: int|
                        0 <= k < acc2.len() implies sec_contains_registers(
                        #[trigger] acc2[k],
                        word_bytes,
                    ) by {
                        if k >= acc.len() {
                            assert(acc2[k] == step.0[k - acc.len()]);
                        }
                    }
                }
                lemma_secs_rec_props(secs, i + 1, step.1, acc2, regmap_offset, word_bytes);
            },
        }
    }
}

/// A power of two is positive.
pub proof fn lemma_pow2_pos(n: int)
    ensures
        is_pow2(n) ==> n >= 1,
{
}

// ---------------------------------------------------------------------------
// Map level
// ---------------------------------------------------------------------------

pub proof fn lemma_one_frag_props(f: RegmapOptV, cursor: int, word_bytes: int)
    requires
        word_bytes >= 1,
        0 <= cursor <= usize::MAX,
        one_frag_in_bounds(f, cursor, word_bytes),
        resolve_one_frag(f, cursor, word_bytes) is Ok,
    ensures
        ({
            let step = resolve_one_frag(f, cursor, word_bytes)->Ok_0;
            &&& step.1 >= cursor
            &&& step.1 <= usize::MAX
            &&& forall|k: int|
                0 <= k < step.0.len() ==> cursor <= #[trigger] step.0[k].offset
                    && step.0[k].offset + step.0[k].range <= step.1
            &&& secs_disjoint_sorted(step.0)
            &&& secs_aligned(step.0)
            &&& secs_contain_registers(step.0, word_bytes)
        }),
{
    let regmap_offset = if f.offset is Some { f.offset->0 } else { cursor };
    lemma_pow2_pos(f.range);
    match resolve_secs(f.section, regmap_offset, word_bytes) {
        Err(_) => {},
        Ok(p) => {
            lemma_secs_rec_props(
                f.section,
                0,
                regmap_offset,
                Seq::empty(),
                regmap_offset,
                word_bytes,
            );
            lemma_max_sec_end_props(p.0, 0, regmap_offset);
        },
    }
}

pub proof fn lemma_frags_rec_props(
    frags: Seq<RegmapOptV>,
    i: int,
    cursor: int,
    acc: Seq<SectionV>,
    word_bytes: int,
)
    requires
        word_bytes >= 1,
        0 <= cursor <= usize::MAX,
        frags_in_bounds(frags, i, cursor, word_bytes),
        resolve_frags_rec(frags, i, cursor, acc, word_bytes) is Ok,
        secs_disjoint_sorted(acc),
        secs_aligned(acc),
        secs_contain_registers(acc, word_bytes),
        forall|k: int| 0 <= k < acc.len() ==> #[trigger] acc[k].offset + acc[k].range <= cursor,
    ensures
        ({
            let p = resolve_frags_rec(frags, i, cursor, acc, word_bytes)->Ok_0;
            &&& p.1 >= cursor
            &&& p.1 <= usize::MAX
            &&& p.0.len() >= acc.len()
            &&& forall|k: int| 0 <= k < acc.len() ==> #[trigger] p.0[k] == acc[k]
            &&& forall|k: int|
                0 <= k < p.0.len() ==> #[trigger] p.0[k].offset + p.0[k].range <= p.1
            &&& secs_disjoint_sorted(p.0)
            &&& secs_aligned(p.0)
            &&& secs_contain_registers(p.0, word_bytes)
        }),
    decreases frags.len() - i,
{
    if i < 0 || i >= frags.len() {
    } else {
        match resolve_one_frag(frags[i], cursor, word_bytes) {
            Err(_) => {},
            Ok(step) => {
                lemma_one_frag_props(frags[i], cursor, word_bytes);
                let acc2 = acc + step.0;
                assert(secs_disjoint_sorted(acc2)) by {
                    assert forall|k1: int, k2: int| 0 <= k1 < k2 < acc2.len() implies #[trigger]
                        acc2[k1].offset + acc2[k1].range <= #[trigger] acc2[k2].offset by {
                        if k2 < acc.len() {
                        } else if k1 < acc.len() {
                            assert(acc2[k1].offset + acc2[k1].range <= cursor);
                            assert(acc2[k2] == step.0[k2 - acc.len()]);
                        } else {
                            assert(acc2[k1] == step.0[k1 - acc.len()]);
                            assert(acc2[k2] == step.0[k2 - acc.len()]);
                        }
                    }
                }
                assert(secs_aligned(acc2)) by {
                    assert forall|k: int| 0 <= k < acc2.len() implies #[trigger] acc2[k].bytes_align
                        >= 1 && acc2[k].offset % (acc2[k].bytes_align) == 0 && acc2[k].range
                        >= 0 by {
                        if k >= acc.len() {
                            assert(acc2[k] == step.0[k - acc.len()]);
                        }
                    }
                }
                assert(secs_contain_registers(acc2, word_bytes)) by {
                    assert forall|k: int|
                        0 <= k < acc2.len() implies sec_contains_registers(
                        #[trigger] acc2[k],
                        word_bytes,
                    ) by {
                        if k >= acc.len() {
                            assert(acc2[k] == step.0[k - acc.len()]);
                        }
                    }
                }
                lemma_frags_rec_props(frags, i + 1, step.1, acc2, word_bytes);
            },
        }
    }
}

// ---------------------------------------------------------------------------
// Maxima of end addresses
// ---------------------------------------------------------------------------

pub proof fn lemma_max_reg_end_props(regs: Seq<RegisterV>, i: int, cur: int, word_bytes: int)
    requires
        i >= 0,
    ensures
        max_reg_end_rec(regs, i, cur, word_bytes) >= cur,
        forall|k: int|
            i <= k < regs.len() ==> #[trigger] regs[k].offset + word_bytes <= max_reg_end_rec(
                regs,
                i,
                cur,
                word_bytes,
            ),
    decreases regs.len() - i,
{
    if i < 0 || i >= regs.len() {
    } else {
        let cur2 = if regs[i].offset + word_bytes > cur {
            regs[i].offset + word_bytes
        } else {
            cur
        };
        lemma_max_reg_end_props(regs, i + 1, cur2, word_bytes);
    }
}

/// The fold stays below any bound that covers `cur` and all end addresses.
pub proof fn lemma_max_reg_end_le(regs: Seq<RegisterV>, i: int, cur: int, word_bytes: int, b: int)
    requires
        i >= 0,
        cur <= b,
        forall|k: int| 0 <= k < regs.len() ==> #[trigger] regs[k].offset + word_bytes <= b,
    ensures
        max_reg_end_rec(regs, i, cur, word_bytes) <= b,
    decreases regs.len() - i,
{
    if i < 0 || i >= regs.len() {
    } else {
        let cur2 = if regs[i].offset + word_bytes > cur {
            regs[i].offset + word_bytes
        } else {
            cur
        };
        lemma_max_reg_end_le(regs, i + 1, cur2, word_bytes, b);
    }
}

pub proof fn lemma_max_sec_end_props(secs: Seq<SectionV>, i: int, cur: int)
    requires
        i >= 0,
    ensures
        max_sec_end_rec(secs, i, cur) >= cur,
        forall|k: int|
            i <= k < secs.len() ==> #[trigger] secs[k].offset + secs[k].range <= max_sec_end_rec(
                secs,
                i,
                cur,
            ),
    decreases secs.len() - i,
{
    if i < 0 || i >= secs.len() {
    } else {
        let cur2 = if secs[i].offset + secs[i].range > cur {
            secs[i].offset + secs[i].range
        } else {
            cur
        };
        lemma_max_sec_end_props(secs, i + 1, cur2);
    }
}

pub proof fn lemma_max_sec_end_le(secs: Seq<SectionV>, i: int, cur: int, b: int)
    requires
        i >= 0,
        cur <= b,
        forall|k: int| 0 <= k < secs.len() ==> #[trigger] secs[k].offset + secs[k].range <= b,
    ensures
        max_sec_end_rec(secs, i, cur) <= b,
    decreases secs.len() - i,
{
    if i < 0 || i >= secs.len() {
    } else {
        let cur2 = if secs[i].offset + secs[i].range > cur {
            secs[i].offset + secs[i].range
        } else {
            cur
        };
        lemma_max_sec_end_le(secs, i + 1, cur2, b);
    }
}

} // verus!
