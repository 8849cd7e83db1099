//! Flattened view of a resolved register map: a "section::register" keyed
//! list with raw-word pack/unpack helpers, for software that accesses the
//! hardware.  All layout invariants were enforced upstream.

use vstd::prelude::*;

use crate::model::{FieldV, RegisterV, RegmapV, SectionV};
use crate::parser::{ReadAccess, WriteAccess};
use crate::regmap::Regmap;
use vstd::string::StringExecFns;

verus! {

/// Read/write capability of a register, folded to what software sees.
#[derive(Debug, Clone, Copy, PartialEq, Eq, Structural)]
pub enum Access {
    NoAccess,
    Read,
    Write,
    ReadWrite,
}

/// Ghost mirror of a flattened field.
pub ghost struct FlatFieldV {
    pub name: Seq<char>,
    pub description: Seq<char>,
    pub size_b: int,
    pub offset_b: int,
}

/// Ghost mirror of a flattened register.
pub ghost struct FlatRegisterV {
    pub sec_name: Seq<char>,
    pub sec_description: Seq<char>,
    pub reg_name: Seq<char>,
    pub reg_description: Seq<char>,
    pub access: Access,
    pub offset: int,
    pub field: Seq<FlatFieldV>,
}

/// A named bit range within a register's word.
#[derive(Debug)]
pub struct FlatField {
    pub name: String,
    pub description: String,
    pub size_b: usize,
    pub offset_b: usize,
}

impl View for FlatField {
    type V = FlatFieldV;

    open spec fn view(&self) -> FlatFieldV {
        FlatFieldV {
            name: self.name@,
            description: self.description@,
            size_b: self.size_b as int,
            offset_b: self.offset_b as int,
        }
    }
}

impl FlatField {
    pub fn name(&self) -> (r: &String)
        ensures
            r == &self.name,
    {
        &self.name
    }

    pub fn description(&self) -> (r: &String)
        ensures
            r == &self.description,
    {
        &self.description
    }

    pub fn size_b(&self) -> (r: &usize)
        ensures
            r == &self.size_b,
    {
        &self.size_b
    }

    pub fn offset_b(&self) -> (r: &usize)
        ensures
            r == &self.offset_b,
    {
        &self.offset_b
    }
}

pub open spec fn flat_fields_view(s: Seq<FlatField>) -> Seq<FlatFieldV> {
    s.map_values(|f: FlatField| f@)
}

/// One register of the flattened map, with its section's identity.
#[derive(Debug)]
pub struct FlatRegister {
    pub sec_name: String,
    pub sec_description: String,
    pub reg_name: String,
    pub reg_description: String,
    pub access: Access,
    pub offset: usize,
    pub field: Vec<FlatField>,
}

impl View for FlatRegister {
    type V = FlatRegisterV;

    open spec fn view(&self) -> FlatRegisterV {
        FlatRegisterV {
            sec_name: self.sec_name@,
            sec_description: self.sec_description@,
            reg_name: self.reg_name@,
            reg_description: self.reg_description@,
            access: self.access,
            offset: self.offset as int,
            field: flat_fields_view(self.field@),
        }
    }
}

impl FlatRegister {
    pub fn sec_name(&self) -> (r: &String)
        ensures
            r == &self.sec_name,
    {
        &self.sec_name
    }

    pub fn sec_description(&self) -> (r: &String)
        ensures
            r == &self.sec_description,
    {
        &self.sec_description
    }

    pub fn reg_name(&self) -> (r: &String)
        ensures
            r == &self.reg_name,
    {
        &self.reg_name
    }

    pub fn reg_description(&self) -> (r: &String)
        ensures
            r == &self.reg_description,
    {
        &self.reg_description
    }

    pub fn access(&self) -> (r: &Access)
        ensures
            r == &self.access,
    {
        &self.access
    }

    pub fn offset(&self) -> (r: &usize)
        ensures
            r == &self.offset,
    {
        &self.offset
    }

    pub fn field(&self) -> (r: &Vec<FlatField>)
        ensures
            r == &self.field,
    {
        &self.field
    }
}

// ---------------------------------------------------------------------------
// Pack / unpack model
// ---------------------------------------------------------------------------

/// Mask of `size_b` low bits, for a size of at most one 32-bit word.
pub open spec fn field_mask(size_b: int) -> u32 {
    (((1u64 << (size_b as u64)) - 1) as u32)
}

/// Shift-and-mask extraction of one field from a raw word.
pub open spec fn field_value(w: u32, offset_b: int, size_b: int) -> u32 {
    if size_b == 0 {
        0u32
    } else {
        (w >> (offset_b as u32)) & field_mask(size_b)
    }
}

/// One supplied value masked to its field's width and shifted into position.
pub open spec fn pack_piece(val: u32, offset_b: int, size_b: int) -> u32 {
    if size_b == 0 {
        0u32
    } else {
        (val & field_mask(size_b)) << (offset_b as u32)
    }
}

/// Every field extracted from a raw word, in field order.
pub open spec fn unpack_fields(fields: Seq<FlatFieldV>, w: u32) -> Seq<(Seq<char>, u32)> {
    fields.map_values(|f: FlatFieldV| (f.name, field_value(w, f.offset_b, f.size_b)))
}

/// Index of the first field with the given name, or -1.
pub open spec fn field_index(fields: Seq<FlatFieldV>, name: Seq<char>, i: int) -> int
    decreases fields.len() - i,
{
    if i < 0 || i >= fields.len() {
        -1
    } else if fields[i].name == name {
        i
    } else {
        field_index(fields, name, i + 1)
    }
}

pub open spec fn has_field(fields: Seq<FlatFieldV>, name: Seq<char>) -> bool {
    field_index(fields, name, 0) >= 0
}

/// OR-combination of the supplied named values, each masked to its field's
/// width and shifted to its position.
pub open spec fn pack_fields(
    fields: Seq<FlatFieldV>,
    given: Seq<(Seq<char>, u32)>,
    i: int,
    acc: u32,
) -> u32
    decreases given.len() - i,
{
    if i < 0 || i >= given.len() {
        acc
    } else {
        let f = fields[field_index(fields, given[i].0, 0)];
        pack_fields(fields, given, i + 1, acc | pack_piece(given[i].1, f.offset_b, f.size_b))
    }
}

/// Bits covered by the fields from index `i` on: the union of their masks,
/// each in position.
pub open spec fn cover_mask(fields: Seq<FlatFieldV>, i: int) -> u32
    decreases fields.len() - i,
{
    if i < 0 || i >= fields.len() {
        0u32
    } else {
        pack_piece(0xffff_ffffu32, fields[i].offset_b, fields[i].size_b) | cover_mask(
            fields,
            i + 1,
        )
    }
}

/// Every field lies inside the 32-bit word.
pub open spec fn fields_fit_word(fields: Seq<FlatFieldV>) -> bool {
    forall|k: int|
        0 <= k < fields.len() ==> 0 <= #[trigger] fields[k].offset_b && fields[k].offset_b
            + fields[k].size_b <= 32 && fields[k].size_b >= 0
}

/// Shifting one into a 32-bit-or-less position stays within 33 bits.
proof fn lemma_mask_bounds(s: u64)
    requires
        s <= 32,
    ensures
        1u64 << s >= 1,
        1u64 << s <= 0x1_0000_0000u64,
{
    assert(1u64 << s >= 1 && 1u64 << s <= 0x1_0000_0000u64) by (bit_vector)
        requires
            s <= 32,
    ;
}

impl FlatRegister {
    /// Shift-and-mask extraction of every field from a raw word, in field
    /// order.
    pub fn as_field(&self, value: u32) -> (r: Vec<(String, u32)>)
        requires
            fields_fit_word(flat_fields_view(self.field@)),
        ensures
            r@.map_values(|p: (String, u32)| (p.0@, p.1)) == unpack_fields(
                flat_fields_view(self.field@),
                value,
            ),
    {
        let ghost fv = flat_fields_view(self.field@);
        let mut r: Vec<(String, u32)> = Vec::new();
        let mut i: usize = 0;
        while i < self.field.len()
            invariant
                i <= self.field@.len(),
                fields_fit_word(fv),
                fv == flat_fields_view(self.field@),
                r@.len() == i,
                forall|t: int|
                    0 <= t < i ==> (#[trigger] r@[t].0@, r@[t].1) == unpack_fields(fv, value)[t],
            decreases self.field@.len() - i,
        {
            let f = &self.field[i];
            proof {
                assert(fv[i as int] == self.field@[i as int]@);
            }
            let field_val: u32 = if f.size_b == 0 {
                0
            } else {
                proof {
                    assert(fv[i as int].offset_b + fv[i as int].size_b <= 32);
                    lemma_mask_bounds(f.size_b as u64);
                }
                let mask: u32 = (((1u64 << (f.size_b as u64)) - 1) as u32);
                (value >> (f.offset_b as u32)) & mask
            };
            proof {
                assert(field_val == field_value(value, fv[i as int].offset_b, fv[i as int].size_b));
            }
            r.push((f.name.clone(), field_val));
            i += 1;
        }
        proof {
            assert(r@.map_values(|p: (String, u32)| (p.0@, p.1)) =~= unpack_fields(fv, value));
        }
        r
    }

    /// OR-combination of the supplied named values into a raw word; every
    /// supplied name must be one of the register's fields.
    pub fn from_field(&self, field: &Vec<(String, u32)>) -> (r: u32)
        requires
            fields_fit_word(flat_fields_view(self.field@)),
            forall|k: int|
                0 <= k < field@.len() ==> has_field(
                    flat_fields_view(self.field@),
                    #[trigger] field@[k].0@,
                ),
        ensures
            r == pack_fields(
                flat_fields_view(self.field@),
                field@.map_values(|p: (String, u32)| (p.0@, p.1)),
                0,
                0u32,
            ),
    {
        let ghost fv = flat_fields_view(self.field@);
        let ghost given = field@.map_values(|p: (String, u32)| (p.0@, p.1));
        let mut acc: u32 = 0;
        let mut i: usize = 0;
        while i < field.len()
            invariant
                i <= field@.len(),
                fv == flat_fields_view(self.field@),
                given == field@.map_values(|p: (String, u32)| (p.0@, p.1)),
                fields_fit_word(fv),
                forall|k: int| 0 <= k < given.len() ==> has_field(fv, #[trigger] given[k].0),
                pack_fields(fv, given, 0, 0u32) == pack_fields(fv, given, i as int, acc),
            decreases field@.len() - i,
        {
            proof {
                assert(given[i as int] == (field@[i as int].0@, field@[i as int].1));
                assert(has_field(fv, given[i as int].0));
            }
            // look up the field by name
            let name = &field[i].0;
            let val = field[i].1;
            let mut j: usize = 0;
            let mut found: bool = false;
            let mut offset_b: usize = 0;
            let mut size_b: usize = 0;
            while j < self.field.len() && !found
                invariant
                    j <= self.field@.len(),
                    fv == flat_fields_view(self.field@),
                    !found ==> field_index(fv, name@, 0) == field_index(fv, name@, j as int),
                    found ==> field_index(fv, name@, 0) < fv.len() && field_index(fv, name@, 0)
                        >= 0 && offset_b as int == fv[field_index(fv, name@, 0)].offset_b
                        && size_b as int == fv[field_index(fv, name@, 0)].size_b,
                decreases self.field@.len() - j,
            {
                proof {
                    assert(fv[j as int] == self.field@[j as int]@);
                }
                if self.field[j].name == *name {
                    found = true;
                    offset_b = self.field[j].offset_b;
                    size_b = self.field[j].size_b;
                    proof {
                        assert(field_index(fv, name@, j as int) == j as int);
                    }
                } else {
                    proof {
                        assert(field_index(fv, name@, j as int) == field_index(
                            fv,
                            name@,
                            j as int + 1,
                        ));
                    }
                }
                j += 1;
            }
            proof {
                assert(found);
            }
            let piece: u32 = if size_b == 0 {
                0
            } else {
                proof {
                    let idx = field_index(fv, name@, 0);
                    assert(0 <= idx < fv.len());
                    assert(fv[idx].offset_b + fv[idx].size_b <= 32);
                    lemma_mask_bounds(size_b as u64);
                }
                let mask: u32 = (((1u64 << (size_b as u64)) - 1) as u32);
                (val & mask) << (offset_b as u32)
            };
            proof {
                let idx = field_index(fv, given[i as int].0, 0);
                assert(piece == pack_piece(given[i as int].1, fv[idx].offset_b, fv[idx].size_b));
            }
            acc = acc | piece;
            i += 1;
        }
        acc
    }
}

// ---------------------------------------------------------------------------
// Flattening a resolved map
// ---------------------------------------------------------------------------

/// Access mode as software sees it.
pub open spec fn access_of(rd: ReadAccess, wr: WriteAccess) -> Access {
    match (!(rd is NoRead), !(wr is NoWrite)) {
        (false, false) => Access::NoAccess,
        (false, true) => Access::Write,
        (true, false) => Access::Read,
        (true, true) => Access::ReadWrite,
    }
}

/// A register's fields flattened; a register without fields has none.
pub open spec fn flat_fields_of(f: Option<Seq<FieldV>>) -> Seq<FlatFieldV> {
    match f {
        Some(fs) => fs.map_values(
            |x: FieldV| FlatFieldV {
                name: x.name,
                description: x.description,
                size_b: x.size_b,
                offset_b: x.offset_b,
            },
        ),
        None => Seq::empty(),
    }
}

/// Lookup key of one register: `section::register`.
pub open spec fn flat_key(sec: Seq<char>, reg: Seq<char>) -> Seq<char> {
    sec + seq![':', ':'] + reg
}

pub open spec fn flat_of_reg(sec: SectionV, r: RegisterV) -> (Seq<char>, FlatRegisterV) {
    (
        flat_key(sec.name, r.name),
        FlatRegisterV {
            sec_name: sec.name,
            sec_description: sec.description,
            reg_name: r.name,
            reg_description: r.description,
            access: access_of(r.read_access, r.write_access),
            offset: r.offset,
            field: flat_fields_of(r.field),
        },
    )
}

pub open spec fn flatten_regs(sec: SectionV, j: int, acc: Seq<(Seq<char>, FlatRegisterV)>) -> Seq<
    (Seq<char>, FlatRegisterV),
>
    decreases sec.register.len() - j,
{
    if j < 0 || j >= sec.register.len() {
        acc
    } else {
        flatten_regs(sec, j + 1, acc.push(flat_of_reg(sec, sec.register[j])))
    }
}

pub open spec fn flatten_secs(
    secs: Seq<SectionV>,
    i: int,
    acc: Seq<(Seq<char>, FlatRegisterV)>,
) -> Seq<(Seq<char>, FlatRegisterV)>
    decreases secs.len() - i,
{
    if i < 0 || i >= secs.len() {
        acc
    } else {
        flatten_secs(secs, i + 1, flatten_regs(secs[i], 0, acc))
    }
}

/// The whole map flattened, section by section, register by register.
pub open spec fn flatten_regmap(m: RegmapV) -> Seq<(Seq<char>, FlatRegisterV)> {
    flatten_secs(m.section, 0, Seq::empty())
}

/// The flattened map: `section::register` keys with their projections, in
/// map order.
pub struct FlatRegmap {
    pub register: Vec<(String, FlatRegister)>,
}

pub open spec fn flat_pairs_view(s: Seq<(String, FlatRegister)>) -> Seq<
    (Seq<char>, FlatRegisterV),
> {
    s.map_values(|p: (String, FlatRegister)| (p.0@, p.1@))
}

impl View for FlatRegmap {
    type V = Seq<(Seq<char>, FlatRegisterV)>;

    open spec fn view(&self) -> Seq<(Seq<char>, FlatRegisterV)> {
        flat_pairs_view(self.register@)
    }
}

impl FlatRegmap {
    /// Denormalizes a resolved map into the keyed register list, in map
    /// order.  Every register is kept: should two registers share one
    /// `section::register` name (possible only through identical duplicate
    /// suffixes), both entries appear, in address order.
    #[verifier::loop_isolation(false)]
    pub fn new(regmap: Regmap) -> (r: FlatRegmap)
        ensures
            r@ == flatten_regmap(regmap@),
    {
        let mut register: Vec<(String, FlatRegister)> = Vec::new();
        proof {
            assert(flat_pairs_view(register@) =~= Seq::<(Seq<char>, FlatRegisterV)>::empty());
        }
        let ghost secs = regmap@.section;
        let mut i: usize = 0;
        while i < regmap.section.len()
            invariant
                i <= regmap.section@.len(),
                flatten_regmap(regmap@) == flatten_secs(
                    secs,
                    i as int,
                    flat_pairs_view(register@),
                ),
            decreases regmap.section@.len() - i,
        {
            let sec = &regmap.section[i];
            let ghost secv = secs[i as int];
            proof {
                assert(secs[i as int] == regmap.section@[i as int]@);
            }
            let mut j: usize = 0;
            while j < sec.register.len()
                invariant
                    j <= sec.register@.len(),
                    secv == sec@,
                    flatten_regmap(regmap@) == flatten_secs(
                        secs,
                        i as int + 1,
                        flatten_regs(secv, j as int, flat_pairs_view(register@)),
                    ),
                decreases sec.register@.len() - j,
            {
                let reg = &sec.register[j];
                proof {
                    assert(secv.register[j as int] == sec.register@[j as int]@);
                }
                let hash_name = sec.name.clone().concat("::").concat(reg.name.as_str());
                proof {
                    reveal_strlit("::");
                    assert(hash_name@ =~= flat_key(secv.name, secv.register[j as int].name));
                }
                let mut flat_field: Vec<FlatField> = Vec::new();
                match &reg.field {
                    Some(fmap) => {
                        let mut t: usize = 0;
                        while t < fmap.len()
                            invariant
                                t <= fmap@.len(),
                                flat_field@.len() == t,
                                forall|q: int|
                                    0 <= q < t ==> #[trigger] flat_field@[q]@ == (FlatFieldV {
                                        name: fmap@[q]@.name,
                                        description: fmap@[q]@.description,
                                        size_b: fmap@[q]@.size_b,
                                        offset_b: fmap@[q]@.offset_b,
                                    }),
                            decreases fmap@.len() - t,
                        {
                            let f = &fmap[t];
                            flat_field.push(FlatField {
                                name: f.name.clone(),
                                description: f.description.clone(),
                                size_b: f.size_b,
                                offset_b: f.offset_b,
                            });
                            t += 1;
                        }
                    },
                    None => {},
                }
                proof {
                    assert(flat_fields_view(flat_field@) =~= flat_fields_of(
                        secv.register[j as int].field,
                    ));
                }
                let access = match (reg.read_access.is_read(), reg.write_access.is_write()) {
                    (false, false) => Access::NoAccess,
                    (false, true) => Access::Write,
                    (true, false) => Access::Read,
                    (true, true) => Access::ReadWrite,
                };
                let flat = FlatRegister {
                    sec_name: sec.name.clone(),
                    sec_description: sec.description.clone(),
                    reg_name: reg.name.clone(),
                    reg_description: reg.description.clone(),
                    access,
                    offset: reg.offset,
                    field: flat_field,
                };
                let ghost before = flat_pairs_view(register@);
                let ghost prev = register@;
                proof {
                    assert((hash_name@, flat@) == flat_of_reg(secv, secv.register[j as int]));
                }
                register.push((hash_name, flat));
                proof {
                    assert forall|q: int|
                        0 <= q < register@.len() implies flat_pairs_view(register@)[q]
                        == before.push(flat_of_reg(secv, secv.register[j as int]))[q] by {
                        if q < prev.len() {
                            assert(register@[q] == prev[q]);
                            assert(flat_pairs_view(prev)[q] == (prev[q].0@, prev[q].1@));
                        }
                    }
                    assert(flat_pairs_view(register@) =~= before.push(
                        flat_of_reg(secv, secv.register[j as int]),
                    ));
                }
                j += 1;
            }
            i += 1;
        }
        FlatRegmap { register }
    }

    /// The keyed register list, in map order.
    pub fn register(&self) -> (r: &Vec<(String, FlatRegister)>)
        ensures
            r == &self.register,
    {
        &self.register
    }
}

} // verus!
