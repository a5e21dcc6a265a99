//! The payload type of each kind of section, by the section's name.
use vstd::prelude::*;
use crate::blob::Blob;
use crate::indices::{FuncId, TypeId};
use crate::sections::{CustomSection, Func};
use crate::types::{FuncType, MemType, TableType};

verus! {

pub type Custom = CustomSection;

pub type Type = Vec<FuncType>;

pub type Import = Vec<crate::sections::Import>;

pub type Function = Vec<TypeId>;

pub type Table = Vec<TableType>;

pub type Memory = Vec<MemType>;

pub type Global = Vec<crate::sections::Global>;

pub type Export = Vec<crate::sections::Export>;

pub type Start = FuncId;

pub type Element = Vec<crate::sections::Element>;

pub type Code = Vec<Blob<Func>>;

pub type Data = Vec<crate::sections::Data>;

} // verus!
