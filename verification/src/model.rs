//! Mathematical model of the register-map resolution.
//!
//! Every executable type has a ghost mirror built from `Seq`, `int` and
//! `Option`, and every resolver has a recursive spec-level twin.  The
//! executable resolvers promise to return exactly what these functions
//! compute, so all layout rules are stated once, here, and the rest of the
//! crate is proved against them.

use vstd::prelude::*;

use crate::parser::{Owner, ReadAccess, WriteAccess};
use crate::spec_align_on;

verus! {

// ---------------------------------------------------------------------------
// Ghost mirrors of the description (input) types
// ---------------------------------------------------------------------------

pub ghost enum DefaultValV {
    Cst(int),
    Param(Seq<char>),
    ParamsField { params: Seq<Seq<char>>, name_val: Seq<(Seq<char>, Seq<char>)> },
}

pub ghost struct FieldOptV {
    pub description: Seq<char>,
    pub size_b: int,
    pub offset_b: Option<int>,
    pub default: Option<DefaultValV>,
}

pub ghost struct RegisterOptV {
    pub description: Seq<char>,
    pub owner: Owner,
    pub read_access: ReadAccess,
    pub write_access: WriteAccess,
    pub default: Option<DefaultValV>,
    pub bytes_align: Option<int>,
    pub offset: Option<int>,
    pub field: Option<Seq<(Seq<char>, FieldOptV)>>,
    pub duplicate: Option<Seq<Seq<char>>>,
}

pub ghost struct SectionOptV {
    pub description: Seq<char>,
    pub offset: Option<int>,
    pub range: Option<int>,
    pub bytes_align: Option<int>,
    pub duplicate: Option<Seq<Seq<char>>>,
    pub register: Seq<(Seq<char>, RegisterOptV)>,
}

pub ghost struct RegmapOptV {
    pub module_name: Seq<char>,
    pub description: Seq<char>,
    pub word_size_b: int,
    pub offset: Option<int>,
    pub range: int,
    pub ext_pkg: Seq<Seq<char>>,
    pub section: Seq<(Seq<char>, SectionOptV)>,
}

// ---------------------------------------------------------------------------
// Ghost mirrors of the resolved (output) types
// ---------------------------------------------------------------------------

pub ghost struct FieldV {
    pub name: Seq<char>,
    pub description: Seq<char>,
    pub size_b: int,
    pub offset_b: int,
    pub default: Option<DefaultValV>,
}

pub ghost struct RegisterV {
    pub name: Seq<char>,
    pub description: Seq<char>,
    pub owner: Owner,
    pub read_access: ReadAccess,
    pub write_access: WriteAccess,
    pub offset: int,
    pub default: DefaultValV,
    pub field: Option<Seq<FieldV>>,
}

pub ghost struct SectionV {
    pub name: Seq<char>,
    pub description: Seq<char>,
    pub offset: int,
    pub bytes_align: int,
    pub range: int,
    pub register: Seq<RegisterV>,
}

pub ghost struct RegmapV {
    pub module_name: Seq<char>,
    pub description: Seq<char>,
    pub word_size_b: int,
    pub offset: int,
    pub range: int,
    pub ext_pkg: Seq<Seq<char>>,
    pub section: Seq<SectionV>,
}

/// Ghost mirror of the error taxonomy.
pub ghost enum ErrorV {
    NoEntry,
    WordSize,
    WordBoundary { word_b: int, field_offset: int, field_b: int, ctx: Seq<char> },
    DfltOverride { ctx: Seq<char> },
    DfltInvalid { dflt: DefaultValV, ctx: Seq<char> },
    Access { owner: Owner, rd: ReadAccess, wr: WriteAccess, ctx: Seq<char> },
    Offset { min_offset: int, request_offset: int, ctx: Seq<char> },
    RangePow2 { range: int, ctx: Seq<char> },
    Range { request_range: int, real_range: int, ctx: Seq<char> },
    OffsetRange { offset: int, range: int, ctx: Seq<char> },
    ByteAlign { word_align: int, request_align: int, ctx: Seq<char> },
}

// ---------------------------------------------------------------------------
// Small helpers
// ---------------------------------------------------------------------------

/// Hexadecimal digit for a value in 0..16.
pub open spec fn hex_digit(d: int) -> char {
    if d == 0 { '0' } else if d == 1 { '1' } else if d == 2 { '2' } else if d == 3 { '3' }
    else if d == 4 { '4' } else if d == 5 { '5' } else if d == 6 { '6' } else if d == 7 { '7' }
    else if d == 8 { '8' } else if d == 9 { '9' } else if d == 10 { 'a' } else if d == 11 { 'b' }
    else if d == 12 { 'c' } else if d == 13 { 'd' } else if d == 14 { 'e' } else { 'f' }
}

/// Lowercase hexadecimal digits of `v`, most significant first, no leading
/// zeros (a single `'0'` for zero).
pub open spec fn hex_digits(v: int) -> Seq<char>
    decreases v,
{
    if v <= 15 {
        seq![hex_digit(v)]
    } else {
        hex_digits(v / 16).push(hex_digit(v % 16))
    }
}

/// A hardware-style hexadecimal literal: `'h` followed by the digits.
pub open spec fn hex_literal(v: int) -> Seq<char> {
    seq!['\'', 'h'] + hex_digits(v)
}

/// Power of two (of a positive integer).
pub open spec fn is_pow2(n: int) -> bool
    decreases n,
{
    if n <= 0 {
        false
    } else if n == 1 {
        true
    } else {
        n % 2 == 0 && is_pow2(n / 2)
    }
}

/// The parameter names a default value exposes at the module interface.
pub open spec fn params_of_default(d: DefaultValV) -> Seq<Seq<char>> {
    match d {
        DefaultValV::Cst(_) => Seq::empty(),
        DefaultValV::Param(p) => seq![p],
        DefaultValV::ParamsField { params, .. } => params,
    }
}

// ---------------------------------------------------------------------------
// Field resolution
// ---------------------------------------------------------------------------

/// Stable insertion of a field into a sequence sorted by ascending bit
/// offset: the new field lands after every field with a smaller or equal
/// offset.
pub open spec fn insert_field_by_offset(s: Seq<FieldV>, f: FieldV) -> Seq<FieldV>
    decreases s.len(),
{
    if s.len() == 0 {
        seq![f]
    } else if s.last().offset_b <= f.offset_b {
        s.push(f)
    } else {
        insert_field_by_offset(s.drop_last(), f).push(s.last())
    }
}

/// Stable sort of fields by ascending bit offset.
pub open spec fn sort_fields_by_offset(s: Seq<FieldV>) -> Seq<FieldV>
    decreases s.len(),
{
    if s.len() == 0 {
        Seq::empty()
    } else {
        insert_field_by_offset(sort_fields_by_offset(s.drop_last()), s.last())
    }
}

/// One register's fields, resolved in declaration order.  `nxt` is the
/// next-free-bit cursor, used when a field leaves its offset out; after each
/// field it moves to the bit just past that field.  A field whose bit range
/// leaves the register word is rejected.  `word_size` is in bytes.
pub open spec fn resolve_fields_rec(
    fields: Seq<(Seq<char>, FieldOptV)>,
    i: int,
    nxt: int,
    acc: Seq<FieldV>,
    word_size: int,
) -> Result<Seq<FieldV>, ErrorV>
    decreases fields.len() - i,
{
    if i < 0 || i >= fields.len() {
        Ok(sort_fields_by_offset(acc))
    } else {
        let name = fields[i].0;
        let f = fields[i].1;
        let offset_b = if f.offset_b is Some { f.offset_b->0 } else { nxt };
        if offset_b + f.size_b > word_size * 8 {
            Err(ErrorV::WordBoundary {
                word_b: word_size,
                field_offset: offset_b,
                field_b: f.size_b,
                ctx: name,
            })
        } else {
            resolve_fields_rec(
                fields,
                i + 1,
                offset_b + f.size_b,
                acc.push(FieldV {
                    name,
                    description: f.description,
                    size_b: f.size_b,
                    offset_b,
                    default: f.default,
                }),
                word_size,
            )
        }
    }
}

pub open spec fn resolve_fields(
    fields: Seq<(Seq<char>, FieldOptV)>,
    word_size: int,
) -> Result<Seq<FieldV>, ErrorV> {
    resolve_fields_rec(fields, 0, 0, Seq::empty(), word_size)
}

// ---------------------------------------------------------------------------
// Default-value aggregation and reconciliation
// ---------------------------------------------------------------------------

pub open spec fn some_field_has_default(fields: Seq<FieldV>) -> bool {
    exists|k: int| 0 <= k < fields.len() && fields[k].default is Some
}

/// Builds the aggregate default over every field: a field with a parameter
/// default exposes the parameter, a field with a constant default contributes
/// a hexadecimal literal, a field without a default contributes zero.  A
/// field whose own default is itself an aggregate is rejected.
pub open spec fn aggregate_fields_rec(
    fields: Seq<FieldV>,
    i: int,
    params: Seq<Seq<char>>,
    name_val: Seq<(Seq<char>, Seq<char>)>,
    ctx: Seq<char>,
) -> Result<DefaultValV, ErrorV>
    decreases fields.len() - i,
{
    if i < 0 || i >= fields.len() {
        Ok(DefaultValV::ParamsField { params, name_val })
    } else {
        let f = fields[i];
        match f.default {
            Some(DefaultValV::Param(p)) => aggregate_fields_rec(
                fields,
                i + 1,
                params.push(p),
                name_val.push((f.name, p)),
                ctx,
            ),
            Some(DefaultValV::Cst(v)) => aggregate_fields_rec(
                fields,
                i + 1,
                params,
                name_val.push((f.name, hex_literal(v))),
                ctx,
            ),
            Some(DefaultValV::ParamsField { params: ps, name_val: nv }) => Err(
                ErrorV::DfltInvalid {
                    dflt: DefaultValV::ParamsField { params: ps, name_val: nv },
                    ctx,
                },
            ),
            None => aggregate_fields_rec(
                fields,
                i + 1,
                params,
                name_val.push((f.name, hex_literal(0))),
                ctx,
            ),
        }
    }
}

/// No field with a default yields no aggregate; otherwise the aggregate
/// covers every field.
pub open spec fn aggregate_default(fields: Seq<FieldV>, ctx: Seq<char>) -> Result<
    Option<DefaultValV>,
    ErrorV,
> {
    if !some_field_has_default(fields) {
        Ok(None)
    } else {
        match aggregate_fields_rec(fields, 0, Seq::empty(), Seq::empty(), ctx) {
            Ok(d) => Ok(Some(d)),
            Err(e) => Err(e),
        }
    }
}

/// Exactly one source wins between a register-level default and the fields'
/// aggregate; a register whose fields also carry defaults may not state its
/// own, and a register-level aggregate is never accepted.  With no source at
/// all the default is the constant zero.
pub open spec fn resolve_reg_default(
    explicit: Option<DefaultValV>,
    fields: Option<Seq<FieldV>>,
    ctx: Seq<char>,
) -> Result<DefaultValV, ErrorV> {
    match explicit {
        Some(dflt) => match fields {
            Some(fs) => match aggregate_default(fs, ctx) {
                Err(e) => Err(e),
                Ok(agg) => if agg is Some {
                    Err(ErrorV::DfltOverride { ctx })
                } else if dflt is ParamsField {
                    Err(ErrorV::DfltInvalid { dflt, ctx })
                } else {
                    Ok(dflt)
                },
            },
            None => Ok(dflt),
        },
        None => match fields {
            Some(fs) => match aggregate_default(fs, ctx) {
                Err(e) => Err(e),
                Ok(agg) => if agg is Some {
                    Ok(agg->0)
                } else {
                    Ok(DefaultValV::Cst(0))
                },
            },
            None => Ok(DefaultValV::Cst(0)),
        },
    }
}

// ---------------------------------------------------------------------------
// Register resolution
// ---------------------------------------------------------------------------

/// The accepted owner/access combinations: a parameter register is read-only,
/// a user register is unrestricted, and a kernel register is never plain
/// software-writable since hardware drives its value.
pub open spec fn access_ok(owner: Owner, rd: ReadAccess, wr: WriteAccess) -> bool {
    match owner {
        Owner::Parameter => rd is Read && wr is NoWrite,
        Owner::User => true,
        Owner::Kernel => !(wr is Write),
    }
}

/// Duplication: one instance per name suffix.  The first instance keeps the
/// computed address; each later one sits one word past its predecessor,
/// re-aligned.  Returns the instances and the last instance's address (the
/// incoming address when there is no instance).
pub open spec fn dup_regs_rec(
    dups: Seq<Seq<char>>,
    j: int,
    base: RegisterV,
    bytes_align: int,
    word_bytes: int,
    cur_offset: int,
    acc: Seq<RegisterV>,
) -> (Seq<RegisterV>, int)
    decreases dups.len() - j,
{
    if j < 0 || j >= dups.len() {
        (acc, cur_offset)
    } else {
        let off = if j == 0 {
            cur_offset
        } else {
            spec_align_on(bytes_align, cur_offset + word_bytes)
        };
        let inst = RegisterV {
            name: base.name + dups[j],
            description: base.description,
            owner: base.owner,
            read_access: base.read_access,
            write_access: base.write_access,
            offset: off,
            default: base.default,
            field: base.field,
        };
        dup_regs_rec(dups, j + 1, base, bytes_align, word_bytes, off, acc.push(inst))
    }
}

/// The address cursor alone after `count` duplicated instances: the first
/// keeps the incoming address, each later one sits one word past its
/// predecessor, re-aligned.
pub open spec fn dup_cursor_rec(count: int, j: int, bytes_align: int, word_bytes: int, cur: int)
    -> int
    decreases count - j,
{
    if j < 0 || j >= count {
        cur
    } else {
        let off = if j == 0 {
            cur
        } else {
            spec_align_on(bytes_align, cur + word_bytes)
        };
        dup_cursor_rec(count, j + 1, bytes_align, word_bytes, off)
    }
}

/// One named register spec turned into its instances, with the cursor moved
/// one word past the last instance.
pub open spec fn resolve_one_reg(
    name: Seq<char>,
    r: RegisterOptV,
    cursor: int,
    section_offset: int,
    word_bytes: int,
) -> Result<(Seq<RegisterV>, int), ErrorV> {
    if !access_ok(r.owner, r.read_access, r.write_access) {
        Err(ErrorV::Access { owner: r.owner, rd: r.read_access, wr: r.write_access, ctx: name })
    } else if r.bytes_align is Some && (r.bytes_align->0) % word_bytes != 0 {
        Err(ErrorV::ByteAlign {
            word_align: word_bytes,
            request_align: r.bytes_align->0,
            ctx: name,
        })
    } else {
        let bytes_align = if r.bytes_align is Some { r.bytes_align->0 } else { word_bytes };
        let raw_offset = if r.offset is Some { r.offset->0 + section_offset } else { cursor };
        let reg_offset = spec_align_on(bytes_align, raw_offset);
        if reg_offset < cursor {
            Err(ErrorV::Offset { min_offset: cursor, request_offset: reg_offset, ctx: name })
        } else {
            let fres: Result<Option<Seq<FieldV>>, ErrorV> = if r.field is Some {
                match resolve_fields(r.field->0, word_bytes) {
                    Ok(fs) => Ok(Some(fs)),
                    Err(e) => Err(e),
                }
            } else {
                Ok(None)
            };
            match fres {
                Err(e) => Err(e),
                Ok(fields) => match resolve_reg_default(r.default, fields, name) {
                    Err(e) => Err(e),
                    Ok(default) => {
                        let base = RegisterV {
                            name,
                            description: r.description,
                            owner: r.owner,
                            read_access: r.read_access,
                            write_access: r.write_access,
                            offset: reg_offset,
                            default,
                            field: fields,
                        };
                        let dups = if r.duplicate is Some && r.duplicate->0.len() > 0 {
                            r.duplicate->0
                        } else {
                            seq![Seq::<char>::empty()]
                        };
                        let res = dup_regs_rec(
                            dups,
                            0,
                            base,
                            bytes_align,
                            word_bytes,
                            reg_offset,
                            Seq::empty(),
                        );
                        Ok((res.0, res.1 + word_bytes))
                    },
                },
            }
        }
    }
}

/// A section's registers, resolved in declaration order with an
/// auto-placement cursor starting at the section's address.  Returns the
/// registers (ascending addresses) and the final cursor.
pub open spec fn resolve_regs_rec(
    regs: Seq<(Seq<char>, RegisterOptV)>,
    i: int,
    cursor: int,
    acc: Seq<RegisterV>,
    section_offset: int,
    word_bytes: int,
) -> Result<(Seq<RegisterV>, int), ErrorV>
    decreases regs.len() - i,
{
    if i < 0 || i >= regs.len() {
        Ok((acc, cursor))
    } else {
        match resolve_one_reg(regs[i].0, regs[i].1, cursor, section_offset, word_bytes) {
            Err(e) => Err(e),
            Ok(step) => resolve_regs_rec(
                regs,
                i + 1,
                step.1,
                acc + step.0,
                section_offset,
                word_bytes,
            ),
        }
    }
}

pub open spec fn resolve_regs(
    regs: Seq<(Seq<char>, RegisterOptV)>,
    section_offset: int,
    word_bytes: int,
) -> Result<(Seq<RegisterV>, int), ErrorV> {
    resolve_regs_rec(regs, 0, section_offset, Seq::empty(), section_offset, word_bytes)
}

// ---------------------------------------------------------------------------
// Bounds side conditions for register resolution
// ---------------------------------------------------------------------------

/// The machine-width side condition for one register spec: every address the
/// resolver computes for it fits in `usize`, and an explicit alignment is not
/// zero.  Mirrors the resolution, so an input that fails earlier is not
/// constrained further.
pub open spec fn one_reg_in_bounds(
    name: Seq<char>,
    r: RegisterOptV,
    cursor: int,
    section_offset: int,
    word_bytes: int,
) -> bool {
    if !access_ok(r.owner, r.read_access, r.write_access) {
        true
    } else if r.bytes_align is Some && (r.bytes_align->0) % word_bytes != 0 {
        true
    } else {
        let bytes_align = if r.bytes_align is Some { r.bytes_align->0 } else { word_bytes };
        let raw_offset = if r.offset is Some { r.offset->0 + section_offset } else { cursor };
        let reg_offset = spec_align_on(bytes_align, raw_offset);
        bytes_align >= 1 && raw_offset <= usize::MAX && reg_offset <= usize::MAX && {
            if reg_offset < cursor {
                true
            } else {
                match resolve_one_reg(name, r, cursor, section_offset, word_bytes) {
                    Err(_) => true,
                    Ok(step) => step.1 <= usize::MAX,
                }
            }
        }
    }
}

pub open spec fn regs_in_bounds(
    regs: Seq<(Seq<char>, RegisterOptV)>,
    i: int,
    cursor: int,
    section_offset: int,
    word_bytes: int,
) -> bool
    decreases regs.len() - i,
{
    if i < 0 || i >= regs.len() {
        true
    } else {
        one_reg_in_bounds(regs[i].0, regs[i].1, cursor, section_offset, word_bytes)
            && match resolve_one_reg(regs[i].0, regs[i].1, cursor, section_offset, word_bytes) {
            Err(_) => true,
            Ok(step) => regs_in_bounds(regs, i + 1, step.1, section_offset, word_bytes),
        }
    }
}

// ---------------------------------------------------------------------------
// Section resolution
// ---------------------------------------------------------------------------

/// Largest register end address (address plus one word), at least `cur`.
pub open spec fn max_reg_end_rec(regs: Seq<RegisterV>, i: int, cur: int, word_bytes: int) -> int
    decreases regs.len() - i,
{
    if i < 0 || i >= regs.len() {
        cur
    } else {
        max_reg_end_rec(
            regs,
            i + 1,
            if regs[i].offset + word_bytes > cur {
                regs[i].offset + word_bytes
            } else {
                cur
            },
            word_bytes,
        )
    }
}

/// Section duplication: the first instance keeps the computed address and the
/// registers already resolved for it; each later instance sits one declared
/// range past its predecessor, re-aligned, and re-resolves its registers
/// against the new base.  A later instance whose real register footprint
/// leaves the declared range is rejected, so every register stays inside its
/// own section.  Returns the instances and the cursor just past the last one
/// (the incoming cursor when there is no instance).
pub open spec fn dup_secs_rec(
    dups: Seq<Seq<char>>,
    j: int,
    name: Seq<char>,
    s: SectionOptV,
    bytes_align: int,
    range: int,
    sec_offset: int,
    cursor: int,
    word_bytes: int,
    first_regs: Seq<RegisterV>,
    acc: Seq<SectionV>,
) -> Result<(Seq<SectionV>, int), ErrorV>
    decreases dups.len() - j,
{
    if j < 0 || j >= dups.len() {
        Ok((acc, cursor))
    } else {
        let off = if j == 0 {
            sec_offset
        } else {
            spec_align_on(bytes_align, sec_offset + range)
        };
        let regs_res: Result<Seq<RegisterV>, ErrorV> = if j == 0 {
            Ok(first_regs)
        } else {
            match resolve_regs(s.register, off, word_bytes) {
                Ok(p) => Ok(p.0),
                Err(e) => Err(e),
            }
        };
        match regs_res {
            Err(e) => Err(e),
            Ok(regs) => {
                let inst_real_range = max_reg_end_rec(regs, 0, off, word_bytes) - off;
                if j >= 1 && inst_real_range > range {
                    Err(ErrorV::Range {
                        request_range: range,
                        real_range: inst_real_range,
                        ctx: name + dups[j],
                    })
                } else {
                    dup_secs_rec(
                        dups,
                        j + 1,
                        name,
                        s,
                        bytes_align,
                        range,
                        off,
                        off + range,
                        word_bytes,
                        first_regs,
                        acc.push(SectionV {
                            name: name + dups[j],
                            description: s.description,
                            offset: off,
                            bytes_align,
                            range,
                            register: regs,
                        }),
                    )
                }
            },
        }
    }
}

/// One named section spec turned into its instances.  The declared range must
/// cover the real register footprint; without a declared range the footprint
/// is the range.
pub open spec fn resolve_one_sec(
    name: Seq<char>,
    s: SectionOptV,
    cursor: int,
    regmap_offset: int,
    word_bytes: int,
) -> Result<(Seq<SectionV>, int), ErrorV> {
    if s.bytes_align is Some && (s.bytes_align->0) % word_bytes != 0 {
        Err(ErrorV::ByteAlign {
            word_align: word_bytes,
            request_align: s.bytes_align->0,
            ctx: name,
        })
    } else {
        let bytes_align = if s.bytes_align is Some { s.bytes_align->0 } else { word_bytes };
        let raw_offset = if s.offset is Some { s.offset->0 + regmap_offset } else { cursor };
        let sec_offset = spec_align_on(bytes_align, raw_offset);
        if sec_offset < cursor {
            Err(ErrorV::Offset { min_offset: cursor, request_offset: sec_offset, ctx: name })
        } else {
            match resolve_regs(s.register, sec_offset, word_bytes) {
                Err(e) => Err(e),
                Ok(p) => {
                    let real_range = max_reg_end_rec(p.0, 0, sec_offset, word_bytes) - sec_offset;
                    if s.range is Some && real_range > s.range->0 {
                        Err(ErrorV::Range {
                            request_range: s.range->0,
                            real_range,
                            ctx: name,
                        })
                    } else {
                        let range = if s.range is Some { s.range->0 } else { real_range };
                        let dups = if s.duplicate is Some && s.duplicate->0.len() > 0 {
                            s.duplicate->0
                        } else {
                            seq![Seq::<char>::empty()]
                        };
                        dup_secs_rec(
                            dups,
                            0,
                            name,
                            s,
                            bytes_align,
                            range,
                            sec_offset,
                            cursor,
                            word_bytes,
                            p.0,
                            Seq::empty(),
                        )
                    }
                },
            }
        }
    }
}

/// A map fragment's sections, resolved in declaration order with an
/// auto-placement cursor starting at the fragment's address.
pub open spec fn resolve_secs_rec(
    secs: Seq<(Seq<char>, SectionOptV)>,
    i: int,
    cursor: int,
    acc: Seq<SectionV>,
    regmap_offset: int,
    word_bytes: int,
) -> Result<(Seq<SectionV>, int), ErrorV>
    decreases secs.len() - i,
{
    if i < 0 || i >= secs.len() {
        Ok((acc, cursor))
    } else {
        match resolve_one_sec(secs[i].0, secs[i].1, cursor, regmap_offset, word_bytes) {
            Err(e) => Err(e),
            Ok(step) => resolve_secs_rec(
                secs,
                i + 1,
                step.1,
                acc + step.0,
                regmap_offset,
                word_bytes,
            ),
        }
    }
}

pub open spec fn resolve_secs(
    secs: Seq<(Seq<char>, SectionOptV)>,
    regmap_offset: int,
    word_bytes: int,
) -> Result<(Seq<SectionV>, int), ErrorV> {
    resolve_secs_rec(secs, 0, regmap_offset, Seq::empty(), regmap_offset, word_bytes)
}

// ---------------------------------------------------------------------------
// Bounds side conditions for section resolution
// ---------------------------------------------------------------------------

pub open spec fn dup_secs_in_bounds(
    dups: Seq<Seq<char>>,
    j: int,
    s: SectionOptV,
    bytes_align: int,
    range: int,
    sec_offset: int,
    word_bytes: int,
) -> bool
    decreases dups.len() - j,
{
    if j < 0 || j >= dups.len() {
        true
    } else {
        let off = if j == 0 {
            sec_offset
        } else {
            spec_align_on(bytes_align, sec_offset + range)
        };
        if j == 0 {
            off + range <= usize::MAX && dup_secs_in_bounds(
                dups,
                j + 1,
                s,
                bytes_align,
                range,
                off,
                word_bytes,
            )
        } else {
            sec_offset + range <= usize::MAX && off <= usize::MAX && regs_in_bounds(
                s.register,
                0,
                off,
                off,
                word_bytes,
            ) && match resolve_regs(s.register, off, word_bytes) {
                Err(_) => true,
                Ok(p) => {
                    let inst_real_range = max_reg_end_rec(p.0, 0, off, word_bytes) - off;
                    if inst_real_range > range {
                        true
                    } else {
                        off + range <= usize::MAX && dup_secs_in_bounds(
                            dups,
                            j + 1,
                            s,
                            bytes_align,
                            range,
                            off,
                            word_bytes,
                        )
                    }
                },
            }
        }
    }
}

pub open spec fn one_sec_in_bounds(
    name: Seq<char>,
    s: SectionOptV,
    cursor: int,
    regmap_offset: int,
    word_bytes: int,
) -> bool {
    if s.bytes_align is Some && (s.bytes_align->0) % word_bytes != 0 {
        true
    } else {
        let bytes_align = if s.bytes_align is Some { s.bytes_align->0 } else { word_bytes };
        let raw_offset = if s.offset is Some { s.offset->0 + regmap_offset } else { cursor };
        let sec_offset = spec_align_on(bytes_align, raw_offset);
        bytes_align >= 1 && raw_offset <= usize::MAX && sec_offset <= usize::MAX && {
            if sec_offset < cursor {
                true
            } else {
                regs_in_bounds(s.register, 0, sec_offset, sec_offset, word_bytes) && match
                    resolve_regs(s.register, sec_offset, word_bytes) {
                    Err(_) => true,
                    Ok(p) => {
                        let real_range = max_reg_end_rec(p.0, 0, sec_offset, word_bytes)
                            - sec_offset;
                        if s.range is Some && real_range > s.range->0 {
                            true
                        } else {
                            let range = if s.range is Some { s.range->0 } else { real_range };
                            let dups = if s.duplicate is Some && s.duplicate->0.len() > 0 {
                                s.duplicate->0
                            } else {
                                seq![Seq::<char>::empty()]
                            };
                            dup_secs_in_bounds(
                                dups,
                                0,
                                s,
                                bytes_align,
                                range,
                                sec_offset,
                                word_bytes,
                            )
                        }
                    },
                }
            }
        }
    }
}

pub open spec fn secs_in_bounds(
    secs: Seq<(Seq<char>, SectionOptV)>,
    i: int,
    cursor: int,
    regmap_offset: int,
    word_bytes: int,
) -> bool
    decreases secs.len() - i,
{
    if i < 0 || i >= secs.len() {
        true
    } else {
        one_sec_in_bounds(secs[i].0, secs[i].1, cursor, regmap_offset, word_bytes)
            && match resolve_one_sec(secs[i].0, secs[i].1, cursor, regmap_offset, word_bytes) {
            Err(_) => true,
            Ok(step) => secs_in_bounds(secs, i + 1, step.1, regmap_offset, word_bytes),
        }
    }
}

// ---------------------------------------------------------------------------
// Map merge
// ---------------------------------------------------------------------------

/// Fragment order: by requested address, an absent address first; equal keys
/// keep their relative order.
pub open spec fn leq_frag(a: RegmapOptV, b: RegmapOptV) -> bool {
    match (a.offset, b.offset) {
        (Option::None, _) => true,
        (Option::Some(_), Option::None) => false,
        (Option::Some(x), Option::Some(y)) => x <= y,
    }
}

/// Stable insertion of a fragment: it lands after every fragment that is
/// less than or equal to it.
pub open spec fn insert_frag_sorted(s: Seq<RegmapOptV>, x: RegmapOptV) -> Seq<RegmapOptV>
    decreases s.len(),
{
    if s.len() == 0 {
        seq![x]
    } else if leq_frag(s.last(), x) {
        s.push(x)
    } else {
        insert_frag_sorted(s.drop_last(), x).push(s.last())
    }
}

/// Stable sort of the fragments by requested address.
pub open spec fn sort_frags(s: Seq<RegmapOptV>) -> Seq<RegmapOptV>
    decreases s.len(),
{
    if s.len() == 0 {
        Seq::empty()
    } else {
        insert_frag_sorted(sort_frags(s.drop_last()), s.last())
    }
}

/// Items joined with a separator between neighbours.
pub open spec fn join_rec(items: Seq<Seq<char>>, i: int, acc: Seq<char>, sep: Seq<char>) -> Seq<
    char,
>
    decreases items.len() - i,
{
    if i < 0 || i >= items.len() {
        acc
    } else {
        join_rec(items, i + 1, acc + sep + items[i], sep)
    }
}

pub open spec fn join_all(items: Seq<Seq<char>>, sep: Seq<char>) -> Seq<char> {
    if items.len() == 0 {
        Seq::empty()
    } else {
        join_rec(items, 1, items[0], sep)
    }
}

/// First-occurrence de-duplication.
pub open spec fn dedup_rec(xs: Seq<Seq<char>>, i: int, acc: Seq<Seq<char>>) -> Seq<Seq<char>>
    decreases xs.len() - i,
{
    if i < 0 || i >= xs.len() {
        acc
    } else if acc.contains(xs[i]) {
        dedup_rec(xs, i + 1, acc)
    } else {
        dedup_rec(xs, i + 1, acc.push(xs[i]))
    }
}

pub open spec fn concat_pkgs_rec(frags: Seq<RegmapOptV>, i: int, acc: Seq<Seq<char>>) -> Seq<
    Seq<char>,
>
    decreases frags.len() - i,
{
    if i < 0 || i >= frags.len() {
        acc
    } else {
        concat_pkgs_rec(frags, i + 1, acc + frags[i].ext_pkg)
    }
}

/// Union of the fragments' package references, first occurrence first.
pub open spec fn union_pkgs(frags: Seq<RegmapOptV>) -> Seq<Seq<char>> {
    dedup_rec(concat_pkgs_rec(frags, 0, Seq::empty()), 0, Seq::empty())
}

/// Bytes of one word, for a word size in bits.
pub open spec fn word_bytes_of(word_size_b: int) -> int {
    (word_size_b + 7) / 8
}

/// Largest section end address (address plus range), at least `cur`.
pub open spec fn max_sec_end_rec(secs: Seq<SectionV>, i: int, cur: int) -> int
    decreases secs.len() - i,
{
    if i < 0 || i >= secs.len() {
        cur
    } else {
        max_sec_end_rec(
            secs,
            i + 1,
            if secs[i].offset + secs[i].range > cur {
                secs[i].offset + secs[i].range
            } else {
                cur
            },
        )
    }
}

/// One fragment placed at its requested or the next free address.  Its range
/// must be a power of two with the address a multiple of it, so an address
/// decoder can route by prefix; its sections must fit in the declared range.
/// The cursor advances by the declared range, reserving the whole of it.
pub open spec fn resolve_one_frag(f: RegmapOptV, cursor: int, word_bytes: int) -> Result<
    (Seq<SectionV>, int),
    ErrorV,
> {
    let regmap_offset = if f.offset is Some { f.offset->0 } else { cursor };
    if regmap_offset < cursor {
        Err(ErrorV::Offset {
            min_offset: cursor,
            request_offset: regmap_offset,
            ctx: f.module_name,
        })
    } else if !is_pow2(f.range) {
        Err(ErrorV::RangePow2 { range: f.range, ctx: f.module_name })
    } else if regmap_offset % f.range != 0 {
        Err(ErrorV::OffsetRange { offset: regmap_offset, range: f.range, ctx: f.module_name })
    } else {
        match resolve_secs(f.section, regmap_offset, word_bytes) {
            Err(e) => Err(e),
            Ok(p) => {
                let real_range = max_sec_end_rec(p.0, 0, regmap_offset) - regmap_offset;
                if real_range > f.range {
                    Err(ErrorV::Range {
                        request_range: f.range,
                        real_range,
                        ctx: f.module_name,
                    })
                } else {
                    Ok((p.0, regmap_offset + f.range))
                }
            },
        }
    }
}

pub open spec fn resolve_frags_rec(
    frags: Seq<RegmapOptV>,
    i: int,
    cursor: int,
    acc: Seq<SectionV>,
    word_bytes: int,
) -> Result<(Seq<SectionV>, int), ErrorV>
    decreases frags.len() - i,
{
    if i < 0 || i >= frags.len() {
        Ok((acc, cursor))
    } else {
        match resolve_one_frag(frags[i], cursor, word_bytes) {
            Err(e) => Err(e),
            Ok(step) => resolve_frags_rec(frags, i + 1, step.1, acc + step.0, word_bytes),
        }
    }
}

pub open spec fn frags_word_sizes_agree(frags: Seq<RegmapOptV>) -> bool {
    forall|i: int| 0 <= i < frags.len() ==> #[trigger] frags[i].word_size_b == frags[0].word_size_b
}

/// The global map: fragments merged in address order, identities joined,
/// package references unioned, the overall range running from the lowest
/// fragment address to the cursor past the last reserved range.
pub open spec fn resolve_regmaps(frags: Seq<RegmapOptV>) -> Result<RegmapV, ErrorV> {
    if frags.len() == 0 {
        Err(ErrorV::NoEntry)
    } else if !frags_word_sizes_agree(frags) {
        Err(ErrorV::WordSize)
    } else {
        let sorted = sort_frags(frags);
        let word_size_b = frags[0].word_size_b;
        let word_bytes = word_bytes_of(word_size_b);
        let global_offset: int = if sorted[0].offset is Some { sorted[0].offset->0 } else { 0 };
        match resolve_frags_rec(sorted, 0, 0, Seq::empty(), word_bytes) {
            Err(e) => Err(e),
            Ok(p) => Ok(RegmapV {
                module_name: join_all(
                    sorted.map_values(|f: RegmapOptV| f.module_name),
                    seq!['_'],
                ),
                description: join_all(
                    sorted.map_values(|f: RegmapOptV| f.description),
                    seq!['\n', '\n'],
                ),
                word_size_b,
                offset: global_offset,
                range: p.1 - global_offset,
                ext_pkg: union_pkgs(sorted),
                section: p.0,
            }),
        }
    }
}

// ---------------------------------------------------------------------------
// Bounds side conditions for the map merge
// ---------------------------------------------------------------------------

pub open spec fn one_frag_in_bounds(f: RegmapOptV, cursor: int, word_bytes: int) -> bool {
    let regmap_offset = if f.offset is Some { f.offset->0 } else { cursor };
    if regmap_offset < cursor || !is_pow2(f.range) || regmap_offset % f.range != 0 {
        true
    } else {
        secs_in_bounds(f.section, 0, regmap_offset, regmap_offset, word_bytes) && match
            resolve_secs(f.section, regmap_offset, word_bytes) {
            Err(_) => true,
            Ok(p) => {
                let real_range = max_sec_end_rec(p.0, 0, regmap_offset) - regmap_offset;
                if real_range > f.range {
                    true
                } else {
                    regmap_offset + f.range <= usize::MAX
                }
            },
        }
    }
}

pub open spec fn frags_in_bounds(frags: Seq<RegmapOptV>, i: int, cursor: int, word_bytes: int)
    -> bool
    decreases frags.len() - i,
{
    if i < 0 || i >= frags.len() {
        true
    } else {
        one_frag_in_bounds(frags[i], cursor, word_bytes) && match resolve_one_frag(
            frags[i],
            cursor,
            word_bytes,
        ) {
            Err(_) => true,
            Ok(step) => frags_in_bounds(frags, i + 1, step.1, word_bytes),
        }
    }
}

/// Machine-width side condition for the whole merge: word sizes that keep the
/// bit arithmetic inside `usize`, and every computed address in range.
pub open spec fn regmaps_in_bounds(frags: Seq<RegmapOptV>) -> bool {
    frags.len() == 0 || !frags_word_sizes_agree(frags) || (1 <= frags[0].word_size_b
        <= usize::MAX - 7 && frags_in_bounds(
        sort_frags(frags),
        0,
        0,
        word_bytes_of(frags[0].word_size_b),
    ))
}

} // verus!
