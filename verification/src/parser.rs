//! Input side of the register-map description: one optional-field-heavy
//! shape per hierarchy level.  Collections of named entries are ordered
//! name/spec pairs, in declaration order.

use vstd::prelude::*;

use crate::model::{FieldOptV, RegisterOptV, RegmapOptV, SectionOptV};
use crate::regmap::DefaultVal;

verus! {

/// Actor driving a register's value: software, hardware, or a build-time
/// parameter constant.
#[derive(Debug, Clone, Copy, PartialEq, Eq, Structural)]
pub enum Owner {
    User,
    Kernel,
    Parameter,
}

/// Read capability of a register, with an optional notify side effect.
#[derive(Debug, Clone, Copy, PartialEq, Eq, Structural)]
pub enum ReadAccess {
    NoRead,
    Read,
    ReadNotify,
}

impl ReadAccess {
    pub fn is_read(&self) -> (r: bool)
        ensures
            r == !(*self is NoRead),
    {
        match self {
            Self::NoRead => false,
            Self::Read | Self::ReadNotify => true,
        }
    }
}

/// Write capability of a register, with an optional notify side effect.
#[derive(Debug, Clone, Copy, PartialEq, Eq, Structural)]
pub enum WriteAccess {
    NoWrite,
    Write,
    WriteNotify,
}

impl WriteAccess {
    pub fn is_write(&self) -> (r: bool)
        ensures
            r == !(*self is NoWrite),
    {
        match self {
            Self::NoWrite => false,
            Self::Write | Self::WriteNotify => true,
        }
    }
}

/// View of an optional view-carrying value.
pub open spec fn opt_view<T: View>(o: Option<T>) -> Option<T::V> {
    match o {
        Some(x) => Some(x@),
        None => None,
    }
}

/// View of an optional machine integer.
pub open spec fn opt_int(o: Option<usize>) -> Option<int> {
    match o {
        Some(x) => Some(x as int),
        None => None,
    }
}

/// View of a sequence of strings.
pub open spec fn strings_view(s: Seq<String>) -> Seq<Seq<char>> {
    s.map_values(|x: String| x@)
}

/// View of an ordered name/spec collection.
pub open spec fn pairs_view<T: View>(s: Seq<(String, T)>) -> Seq<(Seq<char>, T::V)> {
    s.map_values(|p: (String, T)| (p.0@, p.1@))
}

/// A field description: only the bit width is mandatory.
pub struct FieldOpt {
    pub description: String,
    pub size_b: usize,
    pub offset_b: Option<usize>,
    pub default: Option<DefaultVal>,
}

impl View for FieldOpt {
    type V = FieldOptV;

    open spec fn view(&self) -> FieldOptV {
        FieldOptV {
            description: self.description@,
            size_b: self.size_b as int,
            offset_b: opt_int(self.offset_b),
            default: opt_view(self.default),
        }
    }
}

/// A register description: owner and access modes are mandatory, placement,
/// alignment, default value, fields and duplication are optional.
pub struct RegisterOpt {
    pub description: String,
    pub owner: Owner,
    pub read_access: ReadAccess,
    pub write_access: WriteAccess,
    pub default: Option<DefaultVal>,
    pub bytes_align: Option<usize>,
    pub offset: Option<usize>,
    pub field: Option<Vec<(String, FieldOpt)>>,
    pub duplicate: Option<Vec<String>>,
}

impl View for RegisterOpt {
    type V = RegisterOptV;

    open spec fn view(&self) -> RegisterOptV {
        RegisterOptV {
            description: self.description@,
            owner: self.owner,
            read_access: self.read_access,
            write_access: self.write_access,
            default: opt_view(self.default),
            bytes_align: opt_int(self.bytes_align),
            offset: opt_int(self.offset),
            field: match self.field {
                Some(ref f) => Some(pairs_view(f@)),
                None => None,
            },
            duplicate: match self.duplicate {
                Some(ref d) => Some(strings_view(d@)),
                None => None,
            },
        }
    }
}

/// A section description over an ordered collection of named registers.
pub struct SectionOpt {
    pub description: String,
    pub offset: Option<usize>,
    pub range: Option<usize>,
    pub bytes_align: Option<usize>,
    pub duplicate: Option<Vec<String>>,
    pub register: Vec<(String, RegisterOpt)>,
}

impl View for SectionOpt {
    type V = SectionOptV;

    open spec fn view(&self) -> SectionOptV {
        SectionOptV {
            description: self.description@,
            offset: opt_int(self.offset),
            range: opt_int(self.range),
            bytes_align: opt_int(self.bytes_align),
            duplicate: match self.duplicate {
                Some(ref d) => Some(strings_view(d@)),
                None => None,
            },
            register: pairs_view(self.register@),
        }
    }
}

/// One map fragment: module identity, word size, declared byte range and an
/// ordered collection of named sections.
pub struct RegmapOpt {
    pub module_name: String,
    pub description: String,
    pub word_size_b: usize,
    pub offset: Option<usize>,
    pub range: usize,
    pub ext_pkg: Vec<String>,
    pub section: Vec<(String, SectionOpt)>,
}

impl View for RegmapOpt {
    type V = RegmapOptV;

    open spec fn view(&self) -> RegmapOptV {
        RegmapOptV {
            module_name: self.module_name@,
            description: self.description@,
            word_size_b: self.word_size_b as int,
            offset: opt_int(self.offset),
            range: self.range as int,
            ext_pkg: strings_view(self.ext_pkg@),
            section: pairs_view(self.section@),
        }
    }
}

} // verus!
