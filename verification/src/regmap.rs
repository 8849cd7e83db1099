//! Resolved register-map types and the resolvers that produce them.

use vstd::prelude::*;

use crate::model::{
    DefaultValV, ErrorV, FieldV, RegisterV, RegmapOptV, RegmapV, SectionV,
};
use crate::model;
use crate::parser::{
    opt_view, pairs_view, strings_view, FieldOpt, Owner, ReadAccess, RegisterOpt, RegmapOpt,
    SectionOpt, WriteAccess,
};
use crate::proofs;
use crate::align_on;
use vstd::string::StringExecFns;

verus! {

/// A register's reset value: a hardcoded constant, one build-time parameter,
/// or an aggregate built from the fields' own defaults.
#[derive(Debug, Clone, PartialEq, Eq)]
pub enum DefaultVal {
    /// Hardcoded value.
    Cst(usize),
    /// Value taken from a build-time parameter.
    Param(String),
    /// Value built from a list of parameters: `params` lists the used
    /// parameters, `name_val` pairs each field name with its value text.
    ParamsField { params: Vec<String>, name_val: Vec<(String, String)> },
}

impl View for DefaultVal {
    type V = DefaultValV;

    open spec fn view(&self) -> DefaultValV {
        match self {
            DefaultVal::Cst(v) => DefaultValV::Cst(*v as int),
            DefaultVal::Param(p) => DefaultValV::Param(p@),
            DefaultVal::ParamsField { params, name_val } => (DefaultValV::ParamsField {
                params: strings_view(params@),
                name_val: name_val@.map_values(|p: (String, String)| (p.0@, p.1@)),
            }),
        }
    }
}

/// Resolution error.  Each variant carries the name of the offending entry
/// (for a duplicated instance, the suffixed instance name) together with the
/// numbers that explain the rejection; the caller finds the full spec
/// fragment in its own input under that name.
#[derive(Debug, Clone)]
pub enum RegmapError {
    /// No map fragment was given at all.
    NoEntry,
    /// Fragments with disagreeing word sizes cannot be merged.
    WordSize,
    /// A field's bit range leaves its register word.
    WordBoundary { word_b: usize, field_offset: usize, field_b: usize, ctx: String },
    /// A default is stated at both the register and the field level.
    DfltOverride { ctx: String },
    /// An aggregate default where only a parameter or constant is accepted.
    DfltInvalid { dflt: DefaultVal, ctx: String },
    /// An owner/access combination that the hardware cannot honour.
    Access { owner: Owner, rd: ReadAccess, wr: WriteAccess, ctx: String },
    /// A requested address below the first free one.
    Offset { min_offset: usize, request_offset: usize, ctx: String },
    /// A fragment range that is not a power of two.
    RangePow2 { range: usize, ctx: String },
    /// A declared range smaller than the real footprint.
    Range { request_range: usize, real_range: usize, ctx: String },
    /// A fragment address that is not a multiple of its range.
    OffsetRange { offset: usize, range: usize, ctx: String },
    /// An alignment that is not a multiple of the word size.
    ByteAlign { word_align: usize, request_align: usize, ctx: String },
}

impl View for RegmapError {
    type V = ErrorV;

    open spec fn view(&self) -> ErrorV {
        match self {
            RegmapError::NoEntry => ErrorV::NoEntry,
            RegmapError::WordSize => ErrorV::WordSize,
            RegmapError::WordBoundary { word_b, field_offset, field_b, ctx } => (
            ErrorV::WordBoundary {
                word_b: *word_b as int,
                field_offset: *field_offset as int,
                field_b: *field_b as int,
                ctx: ctx@,
            }),
            RegmapError::DfltOverride { ctx } => (ErrorV::DfltOverride { ctx: ctx@ }),
            RegmapError::DfltInvalid { dflt, ctx } => (ErrorV::DfltInvalid {
                dflt: dflt@,
                ctx: ctx@,
            }),
            RegmapError::Access { owner, rd, wr, ctx } => (ErrorV::Access {
                owner: *owner,
                rd: *rd,
                wr: *wr,
                ctx: ctx@,
            }),
            RegmapError::Offset { min_offset, request_offset, ctx } => (ErrorV::Offset {
                min_offset: *min_offset as int,
                request_offset: *request_offset as int,
                ctx: ctx@,
            }),
            RegmapError::RangePow2 { range, ctx } => (ErrorV::RangePow2 {
                range: *range as int,
                ctx: ctx@,
            }),
            RegmapError::Range { request_range, real_range, ctx } => (ErrorV::Range {
                request_range: *request_range as int,
                real_range: *real_range as int,
                ctx: ctx@,
            }),
            RegmapError::OffsetRange { offset, range, ctx } => (ErrorV::OffsetRange {
                offset: *offset as int,
                range: *range as int,
                ctx: ctx@,
            }),
            RegmapError::ByteAlign { word_align, request_align, ctx } => (ErrorV::ByteAlign {
                word_align: *word_align as int,
                request_align: *request_align as int,
                ctx: ctx@,
            }),
        }
    }
}

/// A resolved field: a named bit range inside its register's word.
#[derive(Debug)]
pub struct Field {
    pub name: String,
    pub description: String,
    pub size_b: usize,
    pub offset_b: usize,
    pub default: Option<DefaultVal>,
}

impl View for Field {
    type V = FieldV;

    open spec fn view(&self) -> FieldV {
        FieldV {
            name: self.name@,
            description: self.description@,
            size_b: self.size_b as int,
            offset_b: self.offset_b as int,
            default: opt_view(self.default),
        }
    }
}

impl Field {
    /// Field name, unique within its register.
    pub fn name(&self) -> (r: &String)
        ensures
            r == &self.name,
    {
        &self.name
    }

    pub fn description(&self) -> (r: &String)
        ensures
            r == &self.description,
    {
        &self.description
    }

    /// Bit width.
    pub fn size_b(&self) -> (r: &usize)
        ensures
            r == &self.size_b,
    {
        &self.size_b
    }

    /// Bit position within the register word.
    pub fn offset_b(&self) -> (r: &usize)
        ensures
            r == &self.offset_b,
    {
        &self.offset_b
    }

    pub fn default(&self) -> (r: &Option<DefaultVal>)
        ensures
            r == &self.default,
    {
        &self.default
    }
}

/// View of a sequence of resolved fields.
pub open spec fn fields_view(s: Seq<Field>) -> Seq<FieldV> {
    s.map_values(|f: Field| f@)
}

/// A resolved register: one word-sized addressable unit.
#[derive(Debug)]
pub struct Register {
    pub name: String,
    pub description: String,
    pub owner: Owner,
    pub read_access: ReadAccess,
    pub write_access: WriteAccess,
    pub offset: usize,
    pub default: DefaultVal,
    pub field: Option<Vec<Field>>,
}

impl View for Register {
    type V = RegisterV;

    open spec fn view(&self) -> RegisterV {
        RegisterV {
            name: self.name@,
            description: self.description@,
            owner: self.owner,
            read_access: self.read_access,
            write_access: self.write_access,
            offset: self.offset as int,
            default: self.default@,
            field: match self.field {
                Some(ref f) => Some(fields_view(f@)),
                None => None,
            },
        }
    }
}

impl Register {
    pub fn name(&self) -> (r: &String)
        ensures
            r == &self.name,
    {
        &self.name
    }

    pub fn description(&self) -> (r: &String)
        ensures
            r == &self.description,
    {
        &self.description
    }

    /// Actor driving the register's value.
    pub fn owner(&self) -> (r: &Owner)
        ensures
            r == &self.owner,
    {
        &self.owner
    }

    pub fn read_access(&self) -> (r: &ReadAccess)
        ensures
            r == &self.read_access,
    {
        &self.read_access
    }

    pub fn write_access(&self) -> (r: &WriteAccess)
        ensures
            r == &self.write_access,
    {
        &self.write_access
    }

    /// Byte address, relative to the map base.
    pub fn offset(&self) -> (r: &usize)
        ensures
            r == &self.offset,
    {
        &self.offset
    }

    /// Reconciled reset value.
    pub fn default(&self) -> (r: &DefaultVal)
        ensures
            r == &self.default,
    {
        &self.default
    }

    /// Fields in ascending bit order, if the register declares any.
    pub fn field(&self) -> (r: &Option<Vec<Field>>)
        ensures
            r == &self.field,
    {
        &self.field
    }
}

/// View of a sequence of resolved registers.
pub open spec fn registers_view(s: Seq<Register>) -> Seq<RegisterV> {
    s.map_values(|r: Register| r@)
}

/// A resolved section: a named, address-contiguous group of registers.
#[derive(Debug)]
pub struct Section {
    pub name: String,
    pub description: String,
    pub offset: usize,
    pub bytes_align: usize,
    pub range: usize,
    pub register: Vec<Register>,
}

impl View for Section {
    type V = SectionV;

    open spec fn view(&self) -> SectionV {
        SectionV {
            name: self.name@,
            description: self.description@,
            offset: self.offset as int,
            bytes_align: self.bytes_align as int,
            range: self.range as int,
            register: registers_view(self.register@),
        }
    }
}

impl Section {
    pub fn name(&self) -> (r: &String)
        ensures
            r == &self.name,
    {
        &self.name
    }

    pub fn description(&self) -> (r: &String)
        ensures
            r == &self.description,
    {
        &self.description
    }

    /// Byte address, relative to the map base.
    pub fn offset(&self) -> (r: &usize)
        ensures
            r == &self.offset,
    {
        &self.offset
    }

    pub fn bytes_align(&self) -> (r: &usize)
        ensures
            r == &self.bytes_align,
    {
        &self.bytes_align
    }

    /// Reserved byte span, at least the real register footprint.
    pub fn range(&self) -> (r: &usize)
        ensures
            r == &self.range,
    {
        &self.range
    }

    /// Registers in ascending address order.
    pub fn register(&self) -> (r: &Vec<Register>)
        ensures
            r == &self.register,
    {
        &self.register
    }
}

/// View of a sequence of resolved sections.
pub open spec fn sections_view(s: Seq<Section>) -> Seq<SectionV> {
    s.map_values(|x: Section| x@)
}

/// The resolved global map.
#[derive(Debug)]
pub struct Regmap {
    pub module_name: String,
    pub description: String,
    pub word_size_b: usize,
    pub offset: usize,
    pub range: usize,
    pub ext_pkg: Vec<String>,
    pub section: Vec<Section>,
}

impl View for Regmap {
    type V = RegmapV;

    open spec fn view(&self) -> RegmapV {
        RegmapV {
            module_name: self.module_name@,
            description: self.description@,
            word_size_b: self.word_size_b as int,
            offset: self.offset as int,
            range: self.range as int,
            ext_pkg: strings_view(self.ext_pkg@),
            section: sections_view(self.section@),
        }
    }
}

impl Regmap {
    pub fn module_name(&self) -> (r: &String)
        ensures
            r == &self.module_name,
    {
        &self.module_name
    }

    pub fn description(&self) -> (r: &String)
        ensures
            r == &self.description,
    {
        &self.description
    }

    /// Word width in bits, shared by every fragment.
    pub fn word_size_b(&self) -> (r: &usize)
        ensures
            r == &self.word_size_b,
    {
        &self.word_size_b
    }

    /// Base byte address of the whole map.
    pub fn offset(&self) -> (r: &usize)
        ensures
            r == &self.offset,
    {
        &self.offset
    }

    /// Byte span from the base to the end of the last reserved range.
    pub fn range(&self) -> (r: &usize)
        ensures
            r == &self.range,
    {
        &self.range
    }

    /// Referenced build-time packages, first occurrence first.
    pub fn ext_pkg(&self) -> (r: &Vec<String>)
        ensures
            r == &self.ext_pkg,
    {
        &self.ext_pkg
    }

    /// Sections in ascending address order.
    pub fn section(&self) -> (r: &Vec<Section>)
        ensures
            r == &self.section,
    {
        &self.section
    }
}

impl DefaultVal {
    /// The parameter names this default exposes at the module interface.
    pub fn params_list(&self) -> (r: Vec<String>)
        ensures
            strings_view(r@) == model::params_of_default(self@),
    {
        match self {
            Self::Cst(_) => {
                let r: Vec<String> = Vec::new();
                proof {
                    assert(strings_view(r@) =~= model::params_of_default(self@));
                }
                r
            },
            Self::Param(s) => {
                let mut r: Vec<String> = Vec::new();
                r.push(s.clone());
                proof {
                    assert(strings_view(r@) =~= model::params_of_default(self@));
                }
                r
            },
            Self::ParamsField { params, .. } => {
                let r = clone_strings(params);
                proof {
                    assert(strings_view(r@) =~= model::params_of_default(self@));
                }
                r
            },
        }
    }
}

/// Copy of name/value text pairs, element for element.
fn clone_pairs(v: &Vec<(String, String)>) -> (r: Vec<(String, String)>)
    ensures
        r@ =~= v@,
{
    let mut r: Vec<(String, String)> = Vec::new();
    let mut i: usize = 0;
    while i < v.len()
        invariant
            i <= v.len(),
            r@ =~= v@.subrange(0, i as int),
        decreases v.len() - i,
    {
        r.push((v[i].0.clone(), v[i].1.clone()));
        i += 1;
        proof {
            assert(r@ =~= v@.subrange(0, i as int));
        }
    }
    proof {
        assert(v@.subrange(0, v@.len() as int) =~= v@);
    }
    r
}

/// Copy of a default value; its view is kept.
fn clone_default(d: &DefaultVal) -> (r: DefaultVal)
    ensures
        r@ == d@,
{
    match d {
        DefaultVal::Cst(v) => DefaultVal::Cst(*v),
        DefaultVal::Param(s) => DefaultVal::Param(s.clone()),
        DefaultVal::ParamsField { params, name_val } => {
            let ps = clone_strings(params);
            let nv = clone_pairs(name_val);
            DefaultVal::ParamsField { params: ps, name_val: nv }
        },
    }
}

/// Copy of an optional default value; its view is kept.
fn clone_opt_default(o: &Option<DefaultVal>) -> (r: Option<DefaultVal>)
    ensures
        opt_view(r) == opt_view(*o),
{
    match o {
        Some(d) => Some(clone_default(d)),
        None => None,
    }
}

/// Copy of a resolved field; its view is kept.
fn clone_field(f: &Field) -> (r: Field)
    ensures
        r@ == f@,
{
    Field {
        name: f.name.clone(),
        description: f.description.clone(),
        size_b: f.size_b,
        offset_b: f.offset_b,
        default: clone_opt_default(&f.default),
    }
}

/// Copy of a resolved field list; its view is kept.
fn clone_fields(v: &Vec<Field>) -> (r: Vec<Field>)
    ensures
        fields_view(r@) == fields_view(v@),
{
    let mut r: Vec<Field> = Vec::new();
    let mut i: usize = 0;
    while i < v.len()
        invariant
            i <= v.len(),
            r@.len() == i,
            forall|t: int| 0 <= t < i ==> #[trigger] r@[t]@ == v@[t]@,
        decreases v.len() - i,
    {
        r.push(clone_field(&v[i]));
        i += 1;
    }
    proof {
        assert(fields_view(r@) =~= fields_view(v@));
    }
    r
}

/// One lowercase hexadecimal digit as text.
fn hex_digit_string(d: usize) -> (r: String)
    requires
        d < 16,
    ensures
        r@ =~= seq![model::hex_digit(d as int)],
{
    let s: String = if d == 0 { "0".to_owned() } else if d == 1 { "1".to_owned() }
    else if d == 2 { "2".to_owned() } else if d == 3 { "3".to_owned() }
    else if d == 4 { "4".to_owned() } else if d == 5 { "5".to_owned() }
    else if d == 6 { "6".to_owned() } else if d == 7 { "7".to_owned() }
    else if d == 8 { "8".to_owned() } else if d == 9 { "9".to_owned() }
    else if d == 10 { "a".to_owned() } else if d == 11 { "b".to_owned() }
    else if d == 12 { "c".to_owned() } else if d == 13 { "d".to_owned() }
    else if d == 14 { "e".to_owned() } else { "f".to_owned() };
    proof {
        reveal_strlit("0");
        reveal_strlit("1");
        reveal_strlit("2");
        reveal_strlit("3");
        reveal_strlit("4");
        reveal_strlit("5");
        reveal_strlit("6");
        reveal_strlit("7");
        reveal_strlit("8");
        reveal_strlit("9");
        reveal_strlit("a");
        reveal_strlit("b");
        reveal_strlit("c");
        reveal_strlit("d");
        reveal_strlit("e");
        reveal_strlit("f");
        assert(s@ =~= seq![model::hex_digit(d as int)]);
    }
    s
}

/// Lowercase hexadecimal digits of `v`, most significant first.
fn hex_digits_string(v: usize) -> (r: String)
    ensures
        r@ == model::hex_digits(v as int),
    decreases v,
{
    if v <= 15 {
        hex_digit_string(v)
    } else {
        let mut s = hex_digits_string(v / 16);
        let d = hex_digit_string(v % 16);
        s.append(d.as_str());
        proof {
            assert(s@ =~= model::hex_digits(v as int));
        }
        s
    }
}

/// A hardware-style hexadecimal literal, `'h` followed by the digits.
fn hex_prefixed(v: usize) -> (r: String)
    ensures
        r@ == model::hex_literal(v as int),
{
    let mut s: String = "'h".to_owned();
    let d = hex_digits_string(v);
    s.append(d.as_str());
    proof {
        reveal_strlit("'h");
        assert(s@ =~= model::hex_literal(v as int));
    }
    s
}

/// Views commute with insertion into a field list.
proof fn lemma_fields_view_insert(s: Seq<Field>, x: Field, j: int)
    requires
        0 <= j <= s.len(),
    ensures
        fields_view(s.insert(j, x)) == fields_view(s).subrange(0, j) + seq![x@] + fields_view(
            s,
        ).subrange(j, s.len() as int),
{
    let lhs = fields_view(s.insert(j, x));
    let rhs = fields_view(s).subrange(0, j) + seq![x@] + fields_view(s).subrange(
        j,
        s.len() as int,
    );
    assert forall|t: int| 0 <= t < lhs.len() implies lhs[t] == rhs[t] by {
        assert(lhs[t] == s.insert(j, x)[t]@);
        if t < j {
            assert(s.insert(j, x)[t] == s[t]);
        } else if t == j {
            assert(s.insert(j, x)[t] == x);
        } else {
            assert(s.insert(j, x)[t] == s[t - 1]);
        }
    }
    assert(lhs =~= rhs);
}

impl Field {
    /// Fields of one register, resolved in declaration order and returned in
    /// ascending bit-offset order.  `word_size` is in bytes: a field may not
    /// reach past bit `word_size * 8`.
    pub fn from_opt(fields: &Vec<(String, FieldOpt)>, word_size: usize) -> (r: Result<
        Vec<Field>,
        RegmapError,
    >)
        requires
            word_size * 8 <= usize::MAX,
        ensures
            ({
                let m = model::resolve_fields(pairs_view(fields@), word_size as int);
                match r {
                    Ok(v) => m is Ok && fields_view(v@) == m->Ok_0,
                    Err(e) => m is Err && e@ == m->Err_0,
                }
            }),
    {
        let ghost fv = pairs_view(fields@);
        let mut expanded: Vec<Field> = Vec::new();
        let ghost mut accv: Seq<FieldV> = Seq::empty();
        let mut nxt_offset: usize = 0;
        let mut i: usize = 0;
        let bits = word_size * 8;
        while i < fields.len()
            invariant
                i <= fields.len(),
                bits == word_size * 8,
                bits <= usize::MAX,
                fv == pairs_view(fields@),
                model::resolve_fields(fv, word_size as int) == model::resolve_fields_rec(
                    fv,
                    i as int,
                    nxt_offset as int,
                    accv,
                    word_size as int,
                ),
                fields_view(expanded@) == model::sort_fields_by_offset(accv),
            decreases fields.len() - i,
        {
            let name = &fields[i].0;
            let f = &fields[i].1;
            proof {
                assert(fv[i as int] == (fields@[i as int].0@, fields@[i as int].1@));
            }
            let offset_b = match f.offset_b {
                Some(o) => o,
                None => nxt_offset,
            };
            if offset_b > bits || f.size_b > bits - offset_b {
                return Err(RegmapError::WordBoundary {
                    word_b: word_size,
                    field_offset: offset_b,
                    field_b: f.size_b,
                    ctx: name.clone(),
                });
            }
            let new_field = Field {
                name: name.clone(),
                description: f.description.clone(),
                size_b: f.size_b,
                offset_b,
                default: clone_opt_default(&f.default),
            };
            let ghost nf = new_field@;
            let mut j: usize = expanded.len();
            while j > 0 && expanded[j - 1].offset_b > new_field.offset_b
                invariant
                    j <= expanded@.len(),
                    forall|t: int|
                        j <= t < expanded@.len() ==> #[trigger] expanded@[t].offset_b
                            > new_field.offset_b,
                decreases j,
            {
                j -= 1;
            }
            proof {
                assert forall|t: int|
                    j <= t < fields_view(expanded@).len() implies #[trigger] fields_view(
                    expanded@,
                )[t].offset_b > nf.offset_b by {
                    assert(fields_view(expanded@)[t] == expanded@[t]@);
                }
                proofs::lemma_insert_field_at(fields_view(expanded@), nf, j as int);
                lemma_fields_view_insert(expanded@, new_field, j as int);
            }
            let ghost before = expanded@;
            expanded.insert(j, new_field);
            proof {
                assert(expanded@ == before.insert(j as int, new_field));
                assert(fields_view(expanded@) == model::insert_field_by_offset(
                    fields_view(before),
                    nf,
                ));
                let accv2 = accv.push(nf);
                assert(accv2.drop_last() =~= accv);
                assert(model::sort_fields_by_offset(accv2) == model::insert_field_by_offset(
                    model::sort_fields_by_offset(accv),
                    nf,
                ));
                accv = accv2;
            }
            nxt_offset = offset_b + f.size_b;
            i += 1;
        }
        proof {
            assert(model::resolve_fields_rec(
                fv,
                i as int,
                nxt_offset as int,
                accv,
                word_size as int,
            ) == Ok::<Seq<FieldV>, ErrorV>(model::sort_fields_by_offset(accv)));
        }
        Ok(expanded)
    }

    /// Aggregate default over resolved fields: nothing when no field carries
    /// a default, otherwise one aggregate covering every field.  `reg_name`
    /// names the owning register in errors.
    pub fn get_default(fields: &Vec<Field>, reg_name: &String) -> (r: Result<
        Option<DefaultVal>,
        RegmapError,
    >)
        ensures
            ({
                let m = model::aggregate_default(fields_view(fields@), reg_name@);
                match r {
                    Ok(Some(d)) => m is Ok && m->Ok_0 is Some && d@ == m->Ok_0->0,
                    Ok(None) => m is Ok && m->Ok_0 is None,
                    Err(e) => m is Err && e@ == m->Err_0,
                }
            }),
    {
        let ghost fvs = fields_view(fields@);
        let mut any: bool = false;
        let mut i: usize = 0;
        while i < fields.len() && !any
            invariant
                i <= fields.len(),
                fvs == fields_view(fields@),
                any ==> exists|k: int| 0 <= k < fvs.len() && fvs[k].default is Some,
                !any ==> forall|k: int| 0 <= k < i ==> !((#[trigger] fvs[k]).default is Some),
            decreases fields.len() - i,
        {
            if fields[i].default.is_some() {
                proof {
                    assert(fvs[i as int].default is Some);
                }
                any = true;
            }
            i += 1;
        }
        proof {
            assert(any == model::some_field_has_default(fvs));
        }
        if !any {
            return Ok(None);
        }
        let mut params: Vec<String> = Vec::new();
        let mut name_val: Vec<(String, String)> = Vec::new();
        proof {
            assert(strings_view(params@) =~= Seq::<Seq<char>>::empty());
            assert(name_val@.map_values(|p: (String, String)| (p.0@, p.1@)) =~= Seq::<
                (Seq<char>, Seq<char>),
            >::empty());
        }
        let mut k: usize = 0;
        while k < fields.len()
            invariant
                k <= fields.len(),
                fvs == fields_view(fields@),
                model::aggregate_fields_rec(fvs, 0, Seq::empty(), Seq::empty(), reg_name@)
                    == model::aggregate_fields_rec(
                    fvs,
                    k as int,
                    strings_view(params@),
                    name_val@.map_values(|p: (String, String)| (p.0@, p.1@)),
                    reg_name@,
                ),
            decreases fields.len() - k,
        {
            let fld = &fields[k];
            proof {
                assert(fvs[k as int] == fields@[k as int]@);
            }
            let ghost old_params = strings_view(params@);
            let ghost old_nv = name_val@.map_values(|p: (String, String)| (p.0@, p.1@));
            match &fld.default {
                Some(d) => match d {
                    DefaultVal::Param(p) => {
                        params.push(p.clone());
                        name_val.push((fld.name.clone(), p.clone()));
                        proof {
                            assert(strings_view(params@) =~= old_params.push(p@));
                            assert(name_val@.map_values(|q: (String, String)| (q.0@, q.1@))
                                =~= old_nv.push((fld.name@, p@)));
                        }
                    },
                    DefaultVal::Cst(v) => {
                        name_val.push((fld.name.clone(), hex_prefixed(*v)));
                        proof {
                            assert(name_val@.map_values(|q: (String, String)| (q.0@, q.1@))
                                =~= old_nv.push((fld.name@, model::hex_literal(*v as int))));
                        }
                    },
                    DefaultVal::ParamsField { .. } => {
                        return Err(RegmapError::DfltInvalid {
                            dflt: clone_default(d),
                            ctx: reg_name.clone(),
                        });
                    },
                },
                None => {
                    name_val.push((fld.name.clone(), hex_prefixed(0)));
                    proof {
                        assert(name_val@.map_values(|q: (String, String)| (q.0@, q.1@))
                            =~= old_nv.push((fld.name@, model::hex_literal(0))));
                    }
                },
            }
            k += 1;
        }
        proof {
            assert(model::aggregate_fields_rec(
                fvs,
                k as int,
                strings_view(params@),
                name_val@.map_values(|p: (String, String)| (p.0@, p.1@)),
                reg_name@,
            ) is Ok);
        }
        let r = DefaultVal::ParamsField { params, name_val };
        Ok(Some(r))
    }
}

/// Copy of an optional resolved field list; its view is kept.
fn clone_opt_fields(o: &Option<Vec<Field>>) -> (r: Option<Vec<Field>>)
    ensures
        r is Some <==> *o is Some,
        r is Some ==> fields_view(r->0@) == fields_view(o->0@),
{
    match o {
        Some(f) => Some(clone_fields(f)),
        None => None,
    }
}

impl Register {
    /// Registers of one section, resolved in declaration order with an
    /// auto-placement cursor starting at the section's address, and returned
    /// in ascending address order.  `word_size` is in bytes.
    #[verifier::loop_isolation(false)]
    #[verifier::rlimit(100)]
    pub fn from_opt(
        regs: &Vec<(String, RegisterOpt)>,
        section_offset: usize,
        word_size: usize,
    ) -> (r: Result<Vec<Register>, RegmapError>)
        requires
            1 <= word_size,
            word_size * 8 <= usize::MAX,
            model::regs_in_bounds(
                pairs_view(regs@),
                0,
                section_offset as int,
                section_offset as int,
                word_size as int,
            ),
        ensures
            ({
                let m = model::resolve_regs(
                    pairs_view(regs@),
                    section_offset as int,
                    word_size as int,
                );
                match r {
                    Ok(v) => m is Ok && registers_view(v@) == m->Ok_0.0,
                    Err(e) => m is Err && e@ == m->Err_0,
                }
            }),
    {
        let ghost rv = pairs_view(regs@);
        let ghost so = section_offset as int;
        let ghost w = word_size as int;
        let mut expanded: Vec<Register> = Vec::new();
        proof {
            assert(registers_view(expanded@) =~= Seq::<RegisterV>::empty());
        }
        let mut auto_offset: usize = section_offset;
        let mut i: usize = 0;
        while i < regs.len()
            invariant
                i <= regs.len(),
                rv == pairs_view(regs@),
                so == section_offset as int,
                w == word_size as int,
                1 <= word_size,
                word_size * 8 <= usize::MAX,
                model::resolve_regs(rv, so, w) == model::resolve_regs_rec(
                    rv,
                    i as int,
                    auto_offset as int,
                    registers_view(expanded@),
                    so,
                    w,
                ),
                model::regs_in_bounds(rv, i as int, auto_offset as int, so, w),
            decreases regs.len() - i,
        {
            let name = &regs[i].0;
            let register = &regs[i].1;
            let ghost ro = rv[i as int].1;
            proof {
                assert(rv[i as int] == (regs@[i as int].0@, regs@[i as int].1@));
                assert(model::one_reg_in_bounds(rv[i as int].0, ro, auto_offset as int, so, w));
            }

            // Only hardware-honourable owner/access combinations pass.
            let access_bad = match (register.owner, register.read_access, register.write_access) {
                (Owner::Parameter, ReadAccess::Read, WriteAccess::NoWrite) => false,
                (Owner::Parameter, _, _) => true,
                (Owner::User, _, _) => false,
                (Owner::Kernel, _, WriteAccess::Write) => true,
                (Owner::Kernel, _, _) => false,
            };
            proof {
                assert(model::access_ok(ro.owner, ro.read_access, ro.write_access)
                    == !access_bad);
            }
            if access_bad {
                return Err(RegmapError::Access {
                    owner: register.owner,
                    rd: register.read_access,
                    wr: register.write_access,
                    ctx: name.clone(),
                });
            }

            // Sub-word alignment is not supported.
            let bytes_align = match register.bytes_align {
                Some(align) => {
                    if align % word_size != 0 {
                        return Err(RegmapError::ByteAlign {
                            word_align: word_size,
                            request_align: align,
                            ctx: name.clone(),
                        });
                    }
                    align
                },
                None => word_size,
            };
            let ghost ba = bytes_align as int;

            // Requested or next free address, rounded up to the alignment.
            let raw_offset = match register.offset {
                Some(ofst) => ofst + section_offset,
                None => auto_offset,
            };
            let mut reg_offset = align_on(bytes_align, raw_offset);
            if reg_offset < auto_offset {
                return Err(RegmapError::Offset {
                    min_offset: auto_offset,
                    request_offset: reg_offset,
                    ctx: name.clone(),
                });
            }

            // Fields, resolved against this register's word.
            let expand_field = match &register.field {
                Some(fields) => match Field::from_opt(fields, word_size) {
                    Ok(cf) => Some(cf),
                    Err(e) => return Err(e),
                },
                None => None,
            };
            let ghost mfields: Option<Seq<FieldV>> = match expand_field {
                Some(ref f) => Some(fields_view(f@)),
                None => None,
            };
            proof {
                let fres: Result<Option<Seq<FieldV>>, ErrorV> = if ro.field is Some {
                    match model::resolve_fields(ro.field->0, w) {
                        Ok(fs) => Ok(Some(fs)),
                        Err(e) => Err(e),
                    }
                } else {
                    Ok(None)
                };
                assert(fres == Ok::<Option<Seq<FieldV>>, ErrorV>(mfields));
            }

            // Exactly one default source wins.
            let default = match &register.default {
                Some(dflt) => match &expand_field {
                    Some(field) => match Field::get_default(field, name) {
                        Ok(Some(_)) => {
                            return Err(RegmapError::DfltOverride { ctx: name.clone() });
                        },
                        Ok(None) => match dflt {
                            DefaultVal::ParamsField { .. } => {
                                return Err(RegmapError::DfltInvalid {
                                    dflt: clone_default(dflt),
                                    ctx: name.clone(),
                                });
                            },
                            _ => clone_default(dflt),
                        },
                        Err(e) => return Err(e),
                    },
                    None => clone_default(dflt),
                },
                None => match &expand_field {
                    Some(field) => match Field::get_default(field, name) {
                        Ok(Some(d)) => d,
                        Ok(None) => DefaultVal::Cst(0),
                        Err(e) => return Err(e),
                    },
                    None => DefaultVal::Cst(0),
                },
            };
            proof {
                assert(model::resolve_reg_default(ro.default, mfields, rv[i as int].0)
                    == Ok::<DefaultValV, ErrorV>(default@));
            }

            // Duplication: one instance per name suffix, later instances one
            // word past their predecessor, re-aligned.
            let ghost base_v = RegisterV {
                name: rv[i as int].0,
                description: ro.description,
                owner: ro.owner,
                read_access: ro.read_access,
                write_access: ro.write_access,
                offset: reg_offset as int,
                default: default@,
                field: mfields,
            };
            let ghost dups_v: Seq<Seq<char>> = if ro.duplicate is Some
                && ro.duplicate->0.len() > 0 {
                ro.duplicate->0
            } else {
                seq![Seq::<char>::empty()]
            };
            let mut single: Vec<String> = Vec::new();
            single.push(String::new());
            // an absent or empty suffix list is one instance, unsuffixed
            let dup_names: &Vec<String> = match &register.duplicate {
                Some(d) => if d.len() > 0 {
                    d
                } else {
                    &single
                },
                None => &single,
            };
            proof {
                assert(strings_view(dup_names@) =~= dups_v);
            }
            let ghost cursor0 = auto_offset as int;
            let ghost start_offset = reg_offset as int;
            let ghost before_group = registers_view(expanded@);
            let ghost mut dup_acc: Seq<RegisterV> = Seq::empty();
            proof {
                assert(registers_view(expanded@) =~= before_group + dup_acc);
                proofs::lemma_dup_regs_props(
                    dups_v,
                    0,
                    base_v,
                    ba,
                    w,
                    start_offset,
                    Seq::empty(),
                );
            }
            let ghost whole_dup = model::dup_regs_rec(
                dups_v,
                0,
                base_v,
                ba,
                w,
                start_offset,
                Seq::empty(),
            );
            proof {
                // The step this register contributes, by the model.
                assert(model::resolve_one_reg(rv[i as int].0, ro, cursor0, so, w) == Ok::<
                    (Seq<RegisterV>, int),
                    ErrorV,
                >((whole_dup.0, whole_dup.1 + w)));
                assert(whole_dup.1 + w <= usize::MAX);
            }
            let mut j: usize = 0;
            while j < dup_names.len()
                invariant
                    j <= dup_names.len(),
                    1 <= word_size,
                    w == word_size as int,
                    ba == bytes_align as int,
                    ba >= 1,
                    strings_view(dup_names@) == dups_v,
                    whole_dup == model::dup_regs_rec(
                        dups_v,
                        j as int,
                        base_v,
                        ba,
                        w,
                        reg_offset as int,
                        dup_acc,
                    ),
                    whole_dup.1 + w <= usize::MAX,
                    registers_view(expanded@) == before_group + dup_acc,
                    j == 0 ==> dup_acc.len() == 0,
                    proofs::regs_gap_sorted(dup_acc, w),
                    forall|t: int|
                        0 <= t < dup_acc.len() ==> #[trigger] dup_acc[t].offset
                            <= reg_offset as int,
                    name@ == rv[i as int].0,
                    register@ == ro,
                decreases dup_names.len() - j,
            {
                let full_name = name.clone().concat(dup_names[j].as_str());
                if j != 0 {
                    proof {
                        proofs::lemma_dup_regs_props(
                            dups_v,
                            j as int,
                            base_v,
                            ba,
                            w,
                            reg_offset as int,
                            dup_acc,
                        );
                        assert(reg_offset as int + w <= usize::MAX);
                        proofs::lemma_align_props(ba, reg_offset as int + w);
                        let off = crate::spec_align_on(ba, reg_offset as int + w);
                        let inst_v = RegisterV {
                            name: base_v.name + dups_v[j as int],
                            description: base_v.description,
                            owner: base_v.owner,
                            read_access: base_v.read_access,
                            write_access: base_v.write_access,
                            offset: off,
                            default: base_v.default,
                            field: base_v.field,
                        };
                        proofs::lemma_dup_regs_props(
                            dups_v,
                            j as int + 1,
                            base_v,
                            ba,
                            w,
                            off,
                            dup_acc.push(inst_v),
                        );
                        assert(off <= whole_dup.1);
                    }
                    reg_offset = align_on(bytes_align, reg_offset + word_size);
                }
                let inst = Register {
                    name: full_name,
                    description: register.description.clone(),
                    owner: register.owner,
                    read_access: register.read_access,
                    write_access: register.write_access,
                    offset: reg_offset,
                    default: clone_default(&default),
                    field: clone_opt_fields(&expand_field),
                };
                proof {
                    let inst_v = RegisterV {
                        name: base_v.name + dups_v[j as int],
                        description: base_v.description,
                        owner: base_v.owner,
                        read_access: base_v.read_access,
                        write_access: base_v.write_access,
                        offset: reg_offset as int,
                        default: base_v.default,
                        field: base_v.field,
                    };
                    assert(dups_v[j as int] == dup_names@[j as int]@);
                    assert(inst@.name == inst_v.name);
                    assert(inst@.default == inst_v.default);
                    assert(inst@.field == inst_v.field);
                    assert(inst@ == inst_v);
                    dup_acc = dup_acc.push(inst_v);
                }
                let ghost prev_exp = expanded@;
                expanded.push(inst);
                proof {
                    assert forall|t: int|
                        0 <= t < expanded@.len() implies registers_view(expanded@)[t] == (
                    before_group + dup_acc)[t] by {
                        assert(registers_view(expanded@)[t] == expanded@[t]@);
                        if t < prev_exp.len() {
                            assert(expanded@[t] == prev_exp[t]);
                            assert(registers_view(prev_exp)[t] == prev_exp[t]@);
                        } else {
                            assert(expanded@[t] == inst);
                            assert((before_group + dup_acc)[t] == dup_acc[t
                                - before_group.len()]);
                            assert(dup_acc[t - before_group.len()] == inst@);
                        }
                    }
                    assert(registers_view(expanded@) =~= before_group + dup_acc);
                }
                j += 1;
            }
            proof {
                assert(whole_dup == (dup_acc, reg_offset as int));
            }
            auto_offset = reg_offset + word_size;
            i += 1;
            proof {
                assert(registers_view(expanded@) =~= before_group + whole_dup.0);
            }
        }
        Ok(expanded)
    }
}

/// Copy of a resolved register; its view is kept.
fn clone_register(r: &Register) -> (c: Register)
    ensures
        c@ == r@,
{
    Register {
        name: r.name.clone(),
        description: r.description.clone(),
        owner: r.owner,
        read_access: r.read_access,
        write_access: r.write_access,
        offset: r.offset,
        default: clone_default(&r.default),
        field: clone_opt_fields(&r.field),
    }
}

/// Copy of a resolved register list; its view is kept.
fn clone_registers(v: &Vec<Register>) -> (r: Vec<Register>)
    ensures
        registers_view(r@) == registers_view(v@),
{
    let mut r: Vec<Register> = Vec::new();
    let mut i: usize = 0;
    while i < v.len()
        invariant
            i <= v.len(),
            r@.len() == i,
            forall|t: int| 0 <= t < i ==> #[trigger] r@[t]@ == v@[t]@,
        decreases v.len() - i,
    {
        r.push(clone_register(&v[i]));
        i += 1;
    }
    proof {
        assert(registers_view(r@) =~= registers_view(v@));
    }
    r
}

/// Largest register end address (address plus one word), at least `base`.
#[verifier::loop_isolation(false)]
pub(crate) fn max_register_end(regs: &Vec<Register>, base: usize, word_bytes: usize) -> (r: usize)
    requires
        forall|k: int|
            0 <= k < regs@.len() ==> (#[trigger] registers_view(regs@)[k]).offset + word_bytes
                <= usize::MAX,
    ensures
        r as int == model::max_reg_end_rec(
            registers_view(regs@),
            0,
            base as int,
            word_bytes as int,
        ),
        r >= base,
{
    let ghost rv = registers_view(regs@);
    let mut reg_end: usize = base;
    let mut t: usize = 0;
    while t < regs.len()
        invariant
            t <= regs@.len(),
            reg_end >= base,
            model::max_reg_end_rec(rv, 0, base as int, word_bytes as int)
                == model::max_reg_end_rec(rv, t as int, reg_end as int, word_bytes as int),
        decreases regs@.len() - t,
    {
        proof {
            assert(rv[t as int] == regs@[t as int]@);
            assert(rv[t as int].offset + word_bytes <= usize::MAX);
        }
        let end = regs[t].offset + word_bytes;
        if end > reg_end {
            reg_end = end;
        }
        t += 1;
    }
    reg_end
}

/// One named section spec turned into its instances: address resolution,
/// register expansion, range validation and duplication.
#[verifier::loop_isolation(false)]
#[verifier::rlimit(100)]
fn section_step(
    name: &String,
    section: &SectionOpt,
    cursor: usize,
    regmap_offset: usize,
    word_bytes: usize,
) -> (r: Result<(Vec<Section>, usize), RegmapError>)
    requires
        1 <= word_bytes,
        word_bytes * 8 <= usize::MAX,
        model::one_sec_in_bounds(
            name@,
            section@,
            cursor as int,
            regmap_offset as int,
            word_bytes as int,
        ),
    ensures
        ({
            let m = model::resolve_one_sec(
                name@,
                section@,
                cursor as int,
                regmap_offset as int,
                word_bytes as int,
            );
            match r {
                Ok(p) => m is Ok && sections_view(p.0@) == m->Ok_0.0 && p.1 as int == m->Ok_0.1,
                Err(e) => m is Err && e@ == m->Err_0,
            }
        }),
{
    let ghost sov = section@;
    let ghost base = regmap_offset as int;
    let ghost w = word_bytes as int;
    let ghost cursor0 = cursor as int;

    // Sub-word alignment is not supported.
    let bytes_align = match section.bytes_align {
        Some(align) => {
            if align % word_bytes != 0 {
                return Err(RegmapError::ByteAlign {
                    word_align: word_bytes,
                    request_align: align,
                    ctx: name.clone(),
                });
            }
            align
        },
        None => word_bytes,
    };
    let ghost ba = bytes_align as int;

    // Requested or next free address, rounded up to the alignment.
    let raw_offset = match section.offset {
        Some(ofst) => ofst + regmap_offset,
        None => cursor,
    };
    let mut sec_offset = align_on(bytes_align, raw_offset);
    if sec_offset < cursor {
        return Err(RegmapError::Offset {
            min_offset: cursor,
            request_offset: sec_offset,
            ctx: name.clone(),
        });
    }

    // The section's registers at its address.
    let expanded_reg = match Register::from_opt(&section.register, sec_offset, word_bytes) {
        Ok(v) => v,
        Err(e) => return Err(e),
    };
    let ghost rp = model::resolve_regs(sov.register, sec_offset as int, w)->Ok_0;
    proof {
        proofs::lemma_regs_rec_props(
            sov.register,
            0,
            sec_offset as int,
            Seq::empty(),
            sec_offset as int,
            w,
        );
        proofs::lemma_max_reg_end_props(rp.0, 0, sec_offset as int, w);
        proofs::lemma_max_reg_end_le(rp.0, 0, sec_offset as int, w, rp.1);
    }

    // Real footprint: one word past the last register, less the base.
    proof {
        assert(registers_view(expanded_reg@) == rp.0);
    }
    let reg_end = max_register_end(&expanded_reg, sec_offset, word_bytes);
    let real_range = reg_end - sec_offset;

    // Declared range must cover the footprint.
    let range = match section.range {
        Some(request_range) => {
            if real_range > request_range {
                return Err(RegmapError::Range {
                    request_range,
                    real_range,
                    ctx: name.clone(),
                });
            }
            request_range
        },
        None => real_range,
    };

    // Duplication: later instances re-resolve their registers against the
    // shifted base.
    let ghost dups_v: Seq<Seq<char>> = if sov.duplicate is Some && sov.duplicate->0.len() > 0 {
        sov.duplicate->0
    } else {
        seq![Seq::<char>::empty()]
    };
    let mut single: Vec<String> = Vec::new();
    single.push(String::new());
    // an absent or empty suffix list is one instance, unsuffixed
    let dup_names: &Vec<String> = match &section.duplicate {
        Some(d) => if d.len() > 0 {
            d
        } else {
            &single
        },
        None => &single,
    };
    proof {
        assert(strings_view(dup_names@) =~= dups_v);
    }
    let mut group: Vec<Section> = Vec::new();
    let ghost mut dup_acc: Seq<SectionV> = Seq::empty();
    let ghost whole_dup = model::dup_secs_rec(
        dups_v,
        0,
        name@,
        sov,
        ba,
        range as int,
        sec_offset as int,
        cursor0,
        w,
        rp.0,
        Seq::empty(),
    );
    proof {
        assert(model::resolve_one_sec(name@, sov, cursor0, base, w) == whole_dup);
        assert(registers_view(expanded_reg@) == rp.0);
        assert(sections_view(group@) =~= dup_acc);
        assert(model::dup_secs_in_bounds(dups_v, 0, sov, ba, range as int, sec_offset as int, w));
    }
    let mut cursor_out: usize = cursor;
    let mut first_regs = Some(expanded_reg);
    let mut j: usize = 0;
    while j < dup_names.len()
        invariant
            j <= dup_names.len(),
            ba == bytes_align as int,
            ba >= 1,
            strings_view(dup_names@) == dups_v,
            whole_dup == model::dup_secs_rec(
                dups_v,
                j as int,
                name@,
                sov,
                ba,
                range as int,
                sec_offset as int,
                cursor_out as int,
                w,
                rp.0,
                dup_acc,
            ),
            model::dup_secs_in_bounds(dups_v, j as int, sov, ba, range as int, sec_offset as int, w),
            sections_view(group@) == dup_acc,
            j == 0 ==> (first_regs is Some && cursor_out == cursor),
            j == 0 ==> registers_view(first_regs->0@) == rp.0,
            j >= 1 ==> cursor_out as int == sec_offset as int + range,
        decreases dup_names.len() - j,
    {
        let register = if j != 0 {
            proof {
                assert(sec_offset as int + range <= usize::MAX);
                proofs::lemma_align_props(ba, sec_offset as int + range);
            }
            sec_offset = align_on(bytes_align, sec_offset + range);
            let regs_j = match Register::from_opt(&section.register, sec_offset, word_bytes) {
                Ok(v) => v,
                Err(e) => return Err(e),
            };
            // this instance's registers must stay inside its own range
            let ghost rpj = model::resolve_regs(sov.register, sec_offset as int, w)->Ok_0;
            proof {
                proofs::lemma_regs_rec_props(
                    sov.register,
                    0,
                    sec_offset as int,
                    Seq::empty(),
                    sec_offset as int,
                    w,
                );
                proofs::lemma_max_reg_end_props(rpj.0, 0, sec_offset as int, w);
                proofs::lemma_max_reg_end_le(rpj.0, 0, sec_offset as int, w, rpj.1);
                assert(registers_view(regs_j@) == rpj.0);
            }
            let inst_end = max_register_end(&regs_j, sec_offset, word_bytes);
            let inst_real_range = inst_end - sec_offset;
            if inst_real_range > range {
                proof {
                    assert(dups_v[j as int] == dup_names@[j as int]@);
                }
                let full_name = name.clone().concat(dup_names[j].as_str());
                return Err(RegmapError::Range {
                    request_range: range,
                    real_range: inst_real_range,
                    ctx: full_name,
                });
            }
            regs_j
        } else {
            match first_regs.take() {
                Some(v) => v,
                None => {
                    // the first instance always still holds its registers
                    proof {
                        assert(false);
                    }
                    Vec::new()
                },
            }
        };
        let full_name = name.clone().concat(dup_names[j].as_str());
        let sec = Section {
            name: full_name,
            description: section.description.clone(),
            offset: sec_offset,
            range,
            bytes_align,
            register,
        };
        proof {
            let inst_v = SectionV {
                name: name@ + dups_v[j as int],
                description: sov.description,
                offset: sec_offset as int,
                bytes_align: ba,
                range: range as int,
                register: registers_view(sec.register@),
            };
            assert(dups_v[j as int] == dup_names@[j as int]@);
            assert(sec@ == inst_v);
            dup_acc = dup_acc.push(inst_v);
        }
        let ghost prev_grp = group@;
        group.push(sec);
        proof {
            assert forall|u: int|
                0 <= u < group@.len() implies sections_view(group@)[u] == dup_acc[u] by {
                assert(sections_view(group@)[u] == group@[u]@);
                if u < prev_grp.len() {
                    assert(group@[u] == prev_grp[u]);
                    assert(sections_view(prev_grp)[u] == prev_grp[u]@);
                }
            }
            assert(sections_view(group@) =~= dup_acc);
        }
        cursor_out = sec_offset + range;
        j += 1;
    }
    proof {
        assert(whole_dup == Ok::<(Seq<SectionV>, int), ErrorV>((dup_acc, cursor_out as int)));
    }
    Ok((group, cursor_out))
}

impl Section {
    /// Sections of one map fragment, resolved in declaration order with an
    /// auto-placement cursor starting at the fragment's address, and returned
    /// in ascending address order.  `word_bytes` is the word size in bytes.
    #[verifier::loop_isolation(false)]
    #[verifier::rlimit(100)]
    pub fn from_opt(
        sections: &Vec<(String, SectionOpt)>,
        regmap_offset: usize,
        word_bytes: usize,
    ) -> (r: Result<Vec<Section>, RegmapError>)
        requires
            1 <= word_bytes,
            word_bytes * 8 <= usize::MAX,
            model::secs_in_bounds(
                pairs_view(sections@),
                0,
                regmap_offset as int,
                regmap_offset as int,
                word_bytes as int,
            ),
        ensures
            ({
                let m = model::resolve_secs(
                    pairs_view(sections@),
                    regmap_offset as int,
                    word_bytes as int,
                );
                match r {
                    Ok(v) => m is Ok && sections_view(v@) == m->Ok_0.0,
                    Err(e) => m is Err && e@ == m->Err_0,
                }
            }),
    {
        let ghost sv = pairs_view(sections@);
        let ghost base = regmap_offset as int;
        let ghost w = word_bytes as int;
        let mut expanded: Vec<Section> = Vec::new();
        proof {
            assert(sections_view(expanded@) =~= Seq::<SectionV>::empty());
        }
        let mut auto_offset: usize = regmap_offset;
        let mut i: usize = 0;
        while i < sections.len()
            invariant
                i <= sections.len(),
                model::resolve_secs(sv, base, w) == model::resolve_secs_rec(
                    sv,
                    i as int,
                    auto_offset as int,
                    sections_view(expanded@),
                    base,
                    w,
                ),
                model::secs_in_bounds(sv, i as int, auto_offset as int, base, w),
            decreases sections.len() - i,
        {
            let name = &sections[i].0;
            let section = &sections[i].1;
            proof {
                assert(sv[i as int] == (sections@[i as int].0@, sections@[i as int].1@));
                assert(model::one_sec_in_bounds(
                    sv[i as int].0,
                    sv[i as int].1,
                    auto_offset as int,
                    base,
                    w,
                ));
            }
            let step = match section_step(name, section, auto_offset, regmap_offset, word_bytes) {
                Ok(p) => p,
                Err(e) => return Err(e),
            };
            let mut group = step.0;
            let ghost new_secs = model::resolve_one_sec(
                sv[i as int].0,
                sv[i as int].1,
                auto_offset as int,
                base,
                w,
            )->Ok_0.0;
            let ghost before_global = sections_view(expanded@);
            let ghost prev_global = expanded@;
            let ghost grp_seq = group@;
            expanded.append(&mut group);
            proof {
                assert forall|q: int|
                    0 <= q < expanded@.len() implies sections_view(expanded@)[q] == (before_global
                    + new_secs)[q] by {
                    assert(sections_view(expanded@)[q] == expanded@[q]@);
                    if q < before_global.len() {
                        assert(expanded@[q] == prev_global[q]);
                        assert(sections_view(prev_global)[q] == prev_global[q]@);
                    } else {
                        assert(expanded@[q] == grp_seq[q - before_global.len()]);
                        assert(sections_view(grp_seq)[q - before_global.len()] == grp_seq[q
                            - before_global.len()]@);
                    }
                }
                assert(sections_view(expanded@) =~= before_global + new_secs);
            }
            auto_offset = step.1;
            i += 1;
        }
        Ok(expanded)
    }
}

/// View of a fragment list.
pub open spec fn frags_view(s: Seq<RegmapOpt>) -> Seq<RegmapOptV> {
    s.map_values(|x: RegmapOpt| x@)
}

/// Views commute with insertion into a fragment list.
proof fn lemma_frags_view_insert(s: Seq<RegmapOpt>, x: RegmapOpt, j: int)
    requires
        0 <= j <= s.len(),
    ensures
        frags_view(s.insert(j, x)) == frags_view(s).subrange(0, j) + seq![x@] + frags_view(
            s,
        ).subrange(j, s.len() as int),
{
    let lhs = frags_view(s.insert(j, x));
    let rhs = frags_view(s).subrange(0, j) + seq![x@] + frags_view(s).subrange(j, s.len() as int);
    assert forall|t: int| 0 <= t < lhs.len() implies lhs[t] == rhs[t] by {
        assert(lhs[t] == s.insert(j, x)[t]@);
        if t < j {
            assert(s.insert(j, x)[t] == s[t]);
        } else if t == j {
            assert(s.insert(j, x)[t] == x);
        } else {
            assert(s.insert(j, x)[t] == s[t - 1]);
        }
    }
    assert(lhs =~= rhs);
}

/// Fragment order used by the merge: by requested address, an absent address
/// first.
fn leq_frag_exec(a: &RegmapOpt, b: &RegmapOpt) -> (r: bool)
    ensures
        r == model::leq_frag(a@, b@),
{
    match (a.offset, b.offset) {
        (None, _) => true,
        (Some(_), None) => false,
        (Some(x), Some(y)) => x <= y,
    }
}

/// Stable in-place sort of the fragments by requested address.
#[verifier::loop_isolation(false)]
pub(crate) fn sort_regmaps(v: &mut Vec<RegmapOpt>)
    ensures
        frags_view(final(v)@) == model::sort_frags(frags_view(old(v)@)),
{
    let ghost orig = v@;
    let mut out: Vec<RegmapOpt> = Vec::new();
    proof {
        assert(frags_view(orig.subrange(0, 0)) =~= Seq::<RegmapOptV>::empty());
        assert(frags_view(out@) =~= Seq::<RegmapOptV>::empty());
    }
    let ghost mut k: int = 0;
    while v.len() > 0
        invariant
            0 <= k <= orig.len(),
            v@ =~= orig.subrange(k, orig.len() as int),
            frags_view(out@) == model::sort_frags(frags_view(orig.subrange(0, k))),
        decreases v.len(),
    {
        let x = v.remove(0);
        proof {
            assert(x == orig[k]);
            assert(v@ =~= orig.subrange(k + 1, orig.len() as int));
        }
        let mut j: usize = out.len();
        while j > 0 && !leq_frag_exec(&out[j - 1], &x)
            invariant
                j <= out@.len(),
                forall|t: int|
                    j <= t < out@.len() ==> !model::leq_frag(#[trigger] out@[t]@, x@),
            decreases j,
        {
            j -= 1;
        }
        proof {
            assert forall|t: int|
                j <= t < frags_view(out@).len() implies !model::leq_frag(
                #[trigger] frags_view(out@)[t],
                x@,
            ) by {
                assert(frags_view(out@)[t] == out@[t]@);
            }
            proofs::lemma_insert_frag_at(frags_view(out@), x@, j as int);
            lemma_frags_view_insert(out@, x, j as int);
        }
        let ghost before = out@;
        out.insert(j, x);
        proof {
            assert(out@ == before.insert(j as int, x));
            assert(frags_view(out@) == model::insert_frag_sorted(frags_view(before), x@));
            k = k + 1;
            assert(frags_view(orig.subrange(0, k)).drop_last() =~= frags_view(
                orig.subrange(0, k - 1),
            ));
            assert(frags_view(orig.subrange(0, k)).last() == orig[k - 1]@);
            assert(model::sort_frags(frags_view(orig.subrange(0, k)))
                == model::insert_frag_sorted(
                model::sort_frags(frags_view(orig.subrange(0, k)).drop_last()),
                frags_view(orig.subrange(0, k)).last(),
            ));
        }
    }
    proof {
        assert(orig.subrange(0, orig.len() as int) =~= orig);
    }
    *v = out;
}

/// Power-of-two test.
pub(crate) fn check_pow2(n: usize) -> (r: bool)
    ensures
        r == model::is_pow2(n as int),
{
    if n == 0 {
        return false;
    }
    let mut m = n;
    while m > 1 && m % 2 == 0
        invariant
            1 <= m <= n,
            model::is_pow2(n as int) == model::is_pow2(m as int),
        decreases m,
    {
        m = m / 2;
    }
    m == 1
}

/// Membership of a string in a list.
fn contains_string(v: &Vec<String>, s: &String) -> (r: bool)
    ensures
        r == strings_view(v@).contains(s@),
{
    let mut i: usize = 0;
    while i < v.len()
        invariant
            i <= v.len(),
            forall|t: int| 0 <= t < i ==> #[trigger] strings_view(v@)[t] != s@,
        decreases v.len() - i,
    {
        if v[i] == *s {
            proof {
                assert(strings_view(v@)[i as int] == s@);
            }
            return true;
        }
        proof {
            assert(strings_view(v@)[i as int] == v@[i as int]@);
        }
        i += 1;
    }
    proof {
        if strings_view(v@).contains(s@) {
            let t = choose|t: int| 0 <= t < strings_view(v@).len() && strings_view(v@)[t] == s@;
            assert(false);
        }
    }
    false
}


/// The fragments' module names joined with an underscore, in list order.
#[verifier::loop_isolation(false)]
fn join_module_names(regmaps: &Vec<RegmapOpt>) -> (r: String)
    requires
        regmaps@.len() >= 1,
    ensures
        r@ == model::join_all(
            frags_view(regmaps@).map_values(|f: RegmapOptV| f.module_name),
            seq!['_'],
        ),
{
    let ghost names = frags_view(regmaps@).map_values(|f: RegmapOptV| f.module_name);
    let ghost usep = seq!['_'];
    let mut module_name = regmaps[0].module_name.clone();
    proof {
        assert(frags_view(regmaps@)[0] == regmaps@[0]@);
        assert(names[0] == frags_view(regmaps@)[0].module_name);
    }
    let mut t: usize = 1;
    while t < regmaps.len()
        invariant
            1 <= t <= regmaps@.len(),
            model::join_all(names, usep) == model::join_rec(names, t as int, module_name@, usep),
        decreases regmaps@.len() - t,
    {
        proof {
            reveal_strlit("_");
            assert(frags_view(regmaps@)[t as int] == regmaps@[t as int]@);
            assert(names[t as int] == frags_view(regmaps@)[t as int].module_name);
            assert("_"@ =~= usep);
        }
        module_name.append("_");
        module_name.append(regmaps[t].module_name.as_str());
        t += 1;
    }
    module_name
}

/// The fragments' descriptions joined with blank lines, in list order.
#[verifier::loop_isolation(false)]
fn join_descriptions(regmaps: &Vec<RegmapOpt>) -> (r: String)
    requires
        regmaps@.len() >= 1,
    ensures
        r@ == model::join_all(
            frags_view(regmaps@).map_values(|f: RegmapOptV| f.description),
            seq!['\n', '\n'],
        ),
{
    let ghost descrs = frags_view(regmaps@).map_values(|f: RegmapOptV| f.description);
    let ghost dsep = seq!['\n', '\n'];
    let mut description = regmaps[0].description.clone();
    proof {
        assert(frags_view(regmaps@)[0] == regmaps@[0]@);
        assert(descrs[0] == frags_view(regmaps@)[0].description);
    }
    let mut t: usize = 1;
    while t < regmaps.len()
        invariant
            1 <= t <= regmaps@.len(),
            model::join_all(descrs, dsep) == model::join_rec(descrs, t as int, description@, dsep),
        decreases regmaps@.len() - t,
    {
        proof {
            reveal_strlit("\n\n");
            assert(frags_view(regmaps@)[t as int] == regmaps@[t as int]@);
            assert(descrs[t as int] == frags_view(regmaps@)[t as int].description);
            assert("\n\n"@ =~= dsep);
        }
        description.append("\n\n");
        description.append(regmaps[t].description.as_str());
        t += 1;
    }
    description
}

/// Union of the fragments' package references, first occurrence first.
#[verifier::loop_isolation(false)]
fn union_packages(regmaps: &Vec<RegmapOpt>) -> (r: Vec<String>)
    ensures
        strings_view(r@) == model::union_pkgs(frags_view(regmaps@)),
{
    let ghost sorted = frags_view(regmaps@);
    let mut all_pkgs: Vec<String> = Vec::new();
    proof {
        assert(strings_view(all_pkgs@) =~= Seq::<Seq<char>>::empty());
    }
    let mut a: usize = 0;
    while a < regmaps.len()
        invariant
            a <= regmaps@.len(),
            model::concat_pkgs_rec(sorted, 0, Seq::empty()) == model::concat_pkgs_rec(
                sorted,
                a as int,
                strings_view(all_pkgs@),
            ),
        decreases regmaps@.len() - a,
    {
        proof {
            assert(sorted[a as int] == regmaps@[a as int]@);
        }
        let ghost before_pkgs = strings_view(all_pkgs@);
        let frag_pkgs = &regmaps[a].ext_pkg;
        let mut b: usize = 0;
        while b < frag_pkgs.len()
            invariant
                b <= frag_pkgs@.len(),
                strings_view(frag_pkgs@) == sorted[a as int].ext_pkg,
                strings_view(all_pkgs@) =~= before_pkgs + sorted[a as int].ext_pkg.subrange(
                    0,
                    b as int,
                ),
            decreases frag_pkgs@.len() - b,
        {
            let ghost prev_all = all_pkgs@;
            all_pkgs.push(frag_pkgs[b].clone());
            b += 1;
            proof {
                assert forall|q: int|
                    0 <= q < all_pkgs@.len() implies strings_view(all_pkgs@)[q] == (before_pkgs
                    + sorted[a as int].ext_pkg.subrange(0, b as int))[q] by {
                    assert(strings_view(all_pkgs@)[q] == all_pkgs@[q]@);
                    if q < prev_all.len() {
                        assert(all_pkgs@[q] == prev_all[q]);
                        assert(strings_view(prev_all)[q] == prev_all[q]@);
                    } else {
                        assert(all_pkgs@[q] == frag_pkgs@[b - 1]);
                        assert(strings_view(frag_pkgs@)[b - 1] == frag_pkgs@[b - 1]@);
                    }
                }
                assert(strings_view(all_pkgs@) =~= before_pkgs
                    + sorted[a as int].ext_pkg.subrange(0, b as int));
            }
        }
        proof {
            assert(sorted[a as int].ext_pkg.subrange(
                0,
                sorted[a as int].ext_pkg.len() as int,
            ) =~= sorted[a as int].ext_pkg);
            assert(strings_view(all_pkgs@) =~= before_pkgs + sorted[a as int].ext_pkg);
        }
        a += 1;
    }
    let ghost all_v = strings_view(all_pkgs@);
    proof {
        assert(model::concat_pkgs_rec(sorted, 0, Seq::empty()) == all_v);
    }
    let mut ext_pkg: Vec<String> = Vec::new();
    proof {
        assert(strings_view(ext_pkg@) =~= Seq::<Seq<char>>::empty());
    }
    let mut c: usize = 0;
    while c < all_pkgs.len()
        invariant
            c <= all_pkgs@.len(),
            all_v == strings_view(all_pkgs@),
            model::dedup_rec(all_v, 0, Seq::empty()) == model::dedup_rec(
                all_v,
                c as int,
                strings_view(ext_pkg@),
            ),
        decreases all_pkgs@.len() - c,
    {
        proof {
            assert(all_v[c as int] == all_pkgs@[c as int]@);
        }
        if !contains_string(&ext_pkg, &all_pkgs[c]) {
            let ghost prev_d = ext_pkg@;
            let ghost before_d = strings_view(ext_pkg@);
            ext_pkg.push(all_pkgs[c].clone());
            proof {
                assert forall|q: int|
                    0 <= q < ext_pkg@.len() implies strings_view(ext_pkg@)[q] == before_d.push(
                    all_v[c as int],
                )[q] by {
                    assert(strings_view(ext_pkg@)[q] == ext_pkg@[q]@);
                    if q < prev_d.len() {
                        assert(ext_pkg@[q] == prev_d[q]);
                        assert(strings_view(prev_d)[q] == prev_d[q]@);
                    }
                }
                assert(strings_view(ext_pkg@) =~= before_d.push(all_v[c as int]));
            }
        }
        c += 1;
    }
    ext_pkg
}


/// Largest section end address (address plus range), at least `base`.
#[verifier::loop_isolation(false)]
pub(crate) fn max_section_end(secs: &Vec<Section>, base: usize) -> (r: usize)
    requires
        forall|k: int|
            0 <= k < secs@.len() ==> (#[trigger] sections_view(secs@)[k]).offset + sections_view(
                secs@,
            )[k].range <= usize::MAX,
    ensures
        r as int == model::max_sec_end_rec(sections_view(secs@), 0, base as int),
        r >= base,
{
    let ghost sv = sections_view(secs@);
    let mut sec_end: usize = base;
    let mut t: usize = 0;
    while t < secs.len()
        invariant
            t <= secs@.len(),
            sec_end >= base,
            model::max_sec_end_rec(sv, 0, base as int) == model::max_sec_end_rec(
                sv,
                t as int,
                sec_end as int,
            ),
        decreases secs@.len() - t,
    {
        proof {
            assert(sv[t as int] == secs@[t as int]@);
            assert(sv[t as int].offset + sv[t as int].range <= usize::MAX);
        }
        let end = secs[t].offset + secs[t].range;
        if end > sec_end {
            sec_end = end;
        }
        t += 1;
    }
    sec_end
}

/// One fragment placed at its requested or the next free address, its
/// sections resolved, its range validated, and the cursor moved past its
/// whole declared range.
#[verifier::loop_isolation(false)]
#[verifier::rlimit(100)]
fn fragment_step(frag: &RegmapOpt, cursor: usize, word_bytes: usize) -> (r: Result<
    (Vec<Section>, usize),
    RegmapError,
>)
    requires
        1 <= word_bytes,
        word_bytes * 8 <= usize::MAX,
        model::one_frag_in_bounds(frag@, cursor as int, word_bytes as int),
    ensures
        ({
            let m = model::resolve_one_frag(frag@, cursor as int, word_bytes as int);
            match r {
                Ok(p) => m is Ok && sections_view(p.0@) == m->Ok_0.0 && p.1 as int == m->Ok_0.1,
                Err(e) => m is Err && e@ == m->Err_0,
            }
        }),
{
    let ghost fr = frag@;

    // Requested or next free address.
    let regmap_offset = match frag.offset {
        Some(o) => o,
        None => cursor,
    };
    if regmap_offset < cursor {
        return Err(RegmapError::Offset {
            min_offset: cursor,
            request_offset: regmap_offset,
            ctx: frag.module_name.clone(),
        });
    }

    // A power-of-two range starting at a multiple of itself lets an address
    // decoder route by prefix.
    if !check_pow2(frag.range) {
        return Err(RegmapError::RangePow2 { range: frag.range, ctx: frag.module_name.clone() });
    }
    proof {
        proofs::lemma_pow2_pos(frag.range as int);
    }
    if regmap_offset % frag.range != 0 {
        return Err(RegmapError::OffsetRange {
            offset: regmap_offset,
            range: frag.range,
            ctx: frag.module_name.clone(),
        });
    }

    // The fragment's sections at its address.
    let section = match Section::from_opt(&frag.section, regmap_offset, word_bytes) {
        Ok(v) => v,
        Err(e) => return Err(e),
    };
    let ghost sp = model::resolve_secs(fr.section, regmap_offset as int, word_bytes as int)->Ok_0;
    proof {
        proofs::lemma_secs_rec_props(
            fr.section,
            0,
            regmap_offset as int,
            Seq::empty(),
            regmap_offset as int,
            word_bytes as int,
        );
        proofs::lemma_max_sec_end_props(sp.0, 0, regmap_offset as int);
        proofs::lemma_max_sec_end_le(sp.0, 0, regmap_offset as int, sp.1);
    }

    // Real usage must fit in the declared range.
    proof {
        assert(sections_view(section@) == sp.0);
    }
    let sec_end = max_section_end(&section, regmap_offset);
    let real_range = sec_end - regmap_offset;
    if real_range > frag.range {
        return Err(RegmapError::Range {
            request_range: frag.range,
            real_range,
            ctx: frag.module_name.clone(),
        });
    }

    // Reserve the whole declared range, used or not.
    Ok((section, regmap_offset + frag.range))
}

impl Regmap {
    /// The global map from one or more fragments: they are ordered by
    /// requested address, must share one word size, and each must occupy a
    /// power-of-two range starting at a multiple of it.  The fragment list is
    /// left in that address order.  The one precondition — every computed
    /// address fits the machine word — can be tested on untrusted input with
    /// `Regmap::addresses_fit`.
    #[verifier::loop_isolation(false)]
    #[verifier::rlimit(100)]
    pub fn from_opt(regmaps: &mut Vec<RegmapOpt>) -> (r: Result<Regmap, RegmapError>)
        requires
            model::regmaps_in_bounds(frags_view(old(regmaps)@)),
        ensures
            ({
                let m = model::resolve_regmaps(frags_view(old(regmaps)@));
                match r {
                    Ok(v) => m is Ok && v@ == m->Ok_0,
                    Err(e) => m is Err && e@ == m->Err_0,
                }
            }),
            frags_view(final(regmaps)@) == (if old(regmaps)@.len() == 0 || !model::frags_word_sizes_agree(
                frags_view(old(regmaps)@),
            ) {
                frags_view(old(regmaps)@)
            } else {
                model::sort_frags(frags_view(old(regmaps)@))
            }),
    {
        let ghost fv0 = frags_view(regmaps@);

        // Nothing to merge at all.
        if regmaps.len() == 0 {
            return Err(RegmapError::NoEntry);
        }

        // Fragments with different word sizes cannot be merged.
        let word_size_b = regmaps[0].word_size_b;
        let mut idx: usize = 1;
        while idx < regmaps.len()
            invariant
                1 <= idx <= regmaps@.len(),
                forall|t: int|
                    0 <= t < idx ==> #[trigger] fv0[t].word_size_b == fv0[0].word_size_b,
            decreases regmaps@.len() - idx,
        {
            proof {
                assert(fv0[idx as int] == regmaps@[idx as int]@);
            }
            if regmaps[idx].word_size_b != word_size_b {
                proof {
                    assert(fv0[0] == regmaps@[0]@);
                    assert(fv0[idx as int] == regmaps@[idx as int]@);
                    assert(fv0[idx as int].word_size_b != fv0[0].word_size_b);
                    assert(!model::frags_word_sizes_agree(fv0));
                }
                return Err(RegmapError::WordSize);
            }
            idx += 1;
        }
        proof {
            assert(model::frags_word_sizes_agree(fv0));
        }

        // Order the fragments by requested address.
        sort_regmaps(regmaps);
        let ghost sorted = model::sort_frags(fv0);
        proof {
            proofs::lemma_sort_frags_len(fv0);
        }

        let global_offset = match regmaps[0].offset {
            Some(o) => o,
            None => 0,
        };
        proof {
            assert(sorted[0] == regmaps@[0]@);
        }

        // Fuse the fragments' identities and package references.
        let module_name = join_module_names(regmaps);
        let description = join_descriptions(regmaps);
        let ext_pkg = union_packages(regmaps);

        // Expand the fragments' sections against the shared word size.
        let word_bytes = word_size_b / 8 + (if word_size_b % 8 == 0 {
            0
        } else {
            1
        });
        proof {
            assert(word_bytes as int == model::word_bytes_of(word_size_b as int));
            assert(1 <= word_bytes);
            assert(word_bytes * 8 <= usize::MAX);
        }
        let mut global_section: Vec<Section> = Vec::new();
        proof {
            assert(sections_view(global_section@) =~= Seq::<SectionV>::empty());
        }
        let ghost go: int = global_offset as int;
        let mut auto_offset: usize = 0;
        let mut i: usize = 0;
        while i < regmaps.len()
            invariant
                i <= regmaps@.len(),
                model::resolve_frags_rec(sorted, 0, 0, Seq::empty(), word_bytes as int)
                    == model::resolve_frags_rec(
                    sorted,
                    i as int,
                    auto_offset as int,
                    sections_view(global_section@),
                    word_bytes as int,
                ),
                model::frags_in_bounds(sorted, i as int, auto_offset as int, word_bytes as int),
                i == 0 ==> auto_offset == 0,
                i >= 1 ==> auto_offset as int >= go,
            decreases regmaps@.len() - i,
        {
            let frag = &regmaps[i];
            proof {
                assert(sorted[i as int] == regmaps@[i as int]@);
                assert(model::one_frag_in_bounds(
                    sorted[i as int],
                    auto_offset as int,
                    word_bytes as int,
                ));
            }
            let step = match fragment_step(frag, auto_offset, word_bytes) {
                Ok(p) => p,
                Err(e) => return Err(e),
            };
            let mut section_mut = step.0;
            let ghost new_secs = model::resolve_one_frag(
                sorted[i as int],
                auto_offset as int,
                word_bytes as int,
            )->Ok_0.0;
            let ghost before_global = sections_view(global_section@);
            let ghost prev_global = global_section@;
            let ghost sec_seq = section_mut@;
            global_section.append(&mut section_mut);
            proof {
                assert forall|q: int|
                    0 <= q < global_section@.len() implies sections_view(global_section@)[q] == (
                before_global + new_secs)[q] by {
                    assert(sections_view(global_section@)[q] == global_section@[q]@);
                    if q < before_global.len() {
                        assert(global_section@[q] == prev_global[q]);
                        assert(sections_view(prev_global)[q] == prev_global[q]@);
                    } else {
                        assert(global_section@[q] == sec_seq[q - before_global.len()]);
                        assert(sections_view(sec_seq)[q - before_global.len()] == sec_seq[q
                            - before_global.len()]@);
                    }
                }
                assert(sections_view(global_section@) =~= before_global + new_secs);
            }
            auto_offset = step.1;
            i += 1;
        }

        // Overall range, from the lowest fragment address to the cursor.
        let global_range = auto_offset - global_offset;
        let result = Regmap {
            module_name,
            description,
            word_size_b,
            offset: global_offset,
            range: global_range,
            ext_pkg,
            section: global_section,
        };
        proof {
            let m = model::resolve_regmaps(fv0);
            assert(m is Ok);
            assert(result@ == m->Ok_0);
        }
        Ok(result)
    }
}

/// Copy of a string vector, element for element.
fn clone_strings(v: &Vec<String>) -> (r: Vec<String>)
    ensures
        r@ =~= v@,
{
    let mut r: Vec<String> = Vec::new();
    let mut i: usize = 0;
    while i < v.len()
        invariant
            i <= v.len(),
            r@ =~= v@.subrange(0, i as int),
        decreases v.len() - i,
    {
        r.push(v[i].clone());
        i += 1;
        proof {
            assert(r@ =~= v@.subrange(0, i as int));
        }
    }
    proof {
        assert(v@.subrange(0, v@.len() as int) =~= v@);
    }
    r
}

} // verus!
