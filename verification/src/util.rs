//! The `Val` scalar: the value a column holds, used both as a query
//! comparison operand and as an index key.

use vstd::prelude::*;

use core::cmp::Ordering;

use crate::query::Type;
use crate::text::{chars_cmp, dec_val, int_text, parse_u32, spec_chars_cmp};

verus! {

/// Spec-level shape of a [`Val`]: text is its character sequence.
pub ghost enum ValV {
    U32(u32),
    Varchar(Seq<char>),
}

/// A tagged scalar: an unsigned 32-bit integer or a piece of text.
/// Equality and ordering hold only within one variant; a `U32` and a
/// `Varchar` are unequal and incomparable.
#[derive(Eq, Debug)]
pub enum Val {
    U32(u32),
    Varchar(String),
}

impl View for Val {
    type V = ValV;

    open spec fn view(&self) -> ValV {
        match self {
            Val::U32(n) => ValV::U32(*n),
            Val::Varchar(s) => ValV::Varchar(s@),
        }
    }
}

impl DeepView for Val {
    type V = ValV;

    open spec fn deep_view(&self) -> ValV {
        self.view()
    }
}

impl PartialEq for Val {
    fn eq(&self, other: &Val) -> (r: bool)
        ensures
            r == (self@ == other@),
    {
        match (self, other) {
            (Val::U32(l), Val::U32(r)) => *l == *r,
            (Val::Varchar(l), Val::Varchar(r)) => *l == *r,
            _ => false,
        }
    }
}

impl vstd::std_specs::cmp::PartialEqSpecImpl for Val {
    open spec fn obeys_eq_spec() -> bool {
        true
    }

    open spec fn eq_spec(&self, other: &Val) -> bool {
        match (self, other) {
            (Val::U32(l), Val::U32(r)) => l == r,
            (Val::Varchar(l), Val::Varchar(r)) => l@ == r@,
            _ => false,
        }
    }
}

/// The three-way comparison of two scalars: numeric within `U32`,
/// lexicographic within `Varchar`, and undefined across variants.
pub open spec fn spec_val_cmp(a: ValV, b: ValV) -> Option<Ordering> {
    match (a, b) {
        (ValV::U32(l), ValV::U32(r)) => Some(
            if l < r {
                Ordering::Less
            } else if l == r {
                Ordering::Equal
            } else {
                Ordering::Greater
            },
        ),
        (ValV::Varchar(l), ValV::Varchar(r)) => Some(spec_chars_cmp(l, r)),
        _ => None,
    }
}

impl PartialOrd for Val {
    fn partial_cmp(&self, other: &Val) -> (r: Option<Ordering>)
        ensures
            r == spec_val_cmp(self@, other@),
    {
        match (self, other) {
            (Val::U32(l), Val::U32(r)) => Some(
                if *l < *r {
                    Ordering::Less
                } else if *l == *r {
                    Ordering::Equal
                } else {
                    Ordering::Greater
                },
            ),
            (Val::Varchar(l), Val::Varchar(r)) => Some(chars_cmp(l.as_str(), r.as_str())),
            _ => None,
        }
    }
}

impl vstd::std_specs::cmp::PartialOrdSpecImpl for Val {
    open spec fn obeys_partial_cmp_spec() -> bool {
        true
    }

    open spec fn partial_cmp_spec(&self, other: &Val) -> Option<Ordering> {
        spec_val_cmp(self@, other@)
    }
}

/// The scalar a raw text denotes under a column type: for `Int`, the
/// denoted number when the text is a decimal integer that fits in 32 bits;
/// for `Varchar(n)`, the first `n` characters taken verbatim.
pub open spec fn spec_val_from(raw: Seq<char>, t: Type) -> Option<ValV> {
    match t {
        Type::Int => if int_text(raw) && dec_val(raw) <= u32::MAX {
            Some(ValV::U32(dec_val(raw) as u32))
        } else {
            None
        },
        Type::Varchar(n) => Some(
            ValV::Varchar(
                if n as int <= raw.len() {
                    raw.take(n as int)
                } else {
                    raw
                },
            ),
        ),
    }
}

impl Val {
    /// Parses a raw text into the scalar a column of type `data_type`
    /// compares against.
    pub fn from(raw: String, data_type: &Type) -> (r: Option<Val>)
        ensures
            match r {
                Some(v) => spec_val_from(raw@, *data_type) == Some(v@),
                None => spec_val_from(raw@, *data_type) is None,
            },
    {
        match data_type {
            Type::Int => Val::wrap_raw_int(raw),
            Type::Varchar(n) => Val::wrap_raw_varchar(raw, *n),
        }
    }

    /// The `Int` half of [`Val::from`]: a decimal `u32` or nothing.
    fn wrap_raw_int(raw: String) -> (r: Option<Val>)
        ensures
            match r {
                Some(v) => spec_val_from(raw@, Type::Int) == Some(v@),
                None => spec_val_from(raw@, Type::Int) is None,
            },
    {
        match parse_u32(raw.as_str()) {
            Some(n) => Some(Val::U32(n)),
            None => None,
        }
    }

    /// The `Varchar` half of [`Val::from`]: at most `len` characters,
    /// taken from the front.
    fn wrap_raw_varchar(raw: String, len: u8) -> (r: Option<Val>)
        ensures
            match r {
                Some(v) => spec_val_from(raw@, Type::Varchar(len)) == Some(v@),
                None => false,
            },
    {
        let n = raw.as_str().unicode_len();
        let k = if (len as usize) <= n {
            len as usize
        } else {
            n
        };
        let taken = raw.as_str().substring_char(0, k);
        proof {
            if len as int <= raw@.len() {
                assert(raw@.subrange(0, k as int) =~= raw@.take(len as int));
            } else {
                assert(raw@.subrange(0, k as int) =~= raw@);
            }
        }
        Some(Val::Varchar(taken.to_owned()))
    }
}

/// Something that can say whether verbose diagnostics are wanted.
pub trait VerboseMode {
    fn is_verbose(&self) -> bool;
}

/// Explicit run-time configuration, threaded through construction instead
/// of living in process-wide state.
#[derive(Clone, Copy, PartialEq, Eq, Structural, Debug)]
pub struct Config {
    pub verbose: bool,
}

impl VerboseMode for Config {
    fn is_verbose(&self) -> (r: bool)
        ensures
            r == self.verbose,
    {
        self.verbose
    }
}

} // verus!
