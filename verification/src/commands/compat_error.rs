//! The ways in which two things can fail to be compatible, and how each is put
//! into words.
use crate::ir::{Access, Array, ArrayView, BitOffset, BitOffsetView};
use crate::text::{decimal, decimal_of, opt_chars};
use vstd::prelude::*;

verus! {

/// How two arrays differ.
#[derive(Debug, PartialEq, Eq)]
pub enum ArrayError {
    /// One is regular and one is cursed.
    Xor(Array, Array),
    Len(usize, usize),
    Stride(u32, u32),
}

/// What an array error holds.
#[verifier::ext_equal]
pub enum ArrayErrorView {
    Xor(ArrayView, ArrayView),
    Len(nat, nat),
    Stride(u32, u32),
}

impl View for ArrayError {
    type V = ArrayErrorView;

    open spec fn view(&self) -> ArrayErrorView {
        match self {
            ArrayError::Xor(l, r) => ArrayErrorView::Xor(l@, r@),
            ArrayError::Len(l, r) => ArrayErrorView::Len(*l as nat, *r as nat),
            ArrayError::Stride(l, r) => ArrayErrorView::Stride(*l, *r),
        }
    }
}

/// How two fields differ.
#[derive(Debug, PartialEq, Eq)]
pub enum FieldError {
    Array(ArrayError),
    ArrayXor(bool, bool),
    Description(Option<String>, Option<String>),
    Enum(Option<String>, Option<String>),
}

/// What a field error holds.
#[verifier::ext_equal]
pub enum FieldErrorView {
    Array(ArrayErrorView),
    ArrayXor(bool, bool),
    Description(Option<Seq<char>>, Option<Seq<char>>),
    Enum(Option<Seq<char>>, Option<Seq<char>>),
}

impl View for FieldError {
    type V = FieldErrorView;

    open spec fn view(&self) -> FieldErrorView {
        match self {
            FieldError::Array(e) => FieldErrorView::Array(e@),
            FieldError::ArrayXor(l, r) => FieldErrorView::ArrayXor(*l, *r),
            FieldError::Description(l, r) => FieldErrorView::Description(
                opt_chars(*l),
                opt_chars(*r),
            ),
            FieldError::Enum(l, r) => FieldErrorView::Enum(opt_chars(*l), opt_chars(*r)),
        }
    }
}

/// How two fieldsets differ.
#[derive(Debug, PartialEq, Eq)]
pub enum FieldSetError {
    Bitsize(u32, u32),
    Extends(Option<String>, Option<String>),
    Field { lhs_name: String, bit_size: u32, bit_offset: BitOffset, error: FieldError },
    LhsMissingfield(String),
    RhsMissingField(String),
    NameMismatch { lhs: String, rhs: String, bit_size: u32, bit_offset: BitOffset },
    Description(Option<String>, Option<String>),
}

/// What a fieldset error holds.
#[verifier::ext_equal]
pub enum FieldSetErrorView {
    Bitsize(u32, u32),
    Extends(Option<Seq<char>>, Option<Seq<char>>),
    Field { lhs_name: Seq<char>, bit_size: u32, bit_offset: BitOffsetView, error: FieldErrorView },
    LhsMissingfield(Seq<char>),
    RhsMissingField(Seq<char>),
    NameMismatch { lhs: Seq<char>, rhs: Seq<char>, bit_size: u32, bit_offset: BitOffsetView },
    Description(Option<Seq<char>>, Option<Seq<char>>),
}

impl View for FieldSetError {
    type V = FieldSetErrorView;

    open spec fn view(&self) -> FieldSetErrorView {
        match self {
            FieldSetError::Bitsize(l, r) => FieldSetErrorView::Bitsize(*l, *r),
            FieldSetError::Extends(l, r) => FieldSetErrorView::Extends(opt_chars(*l), opt_chars(*r)),
            FieldSetError::Field { lhs_name, bit_size, bit_offset, error } => {
                FieldSetErrorView::Field {
                    lhs_name: lhs_name@,
                    bit_size: *bit_size,
                    bit_offset: bit_offset@,
                    error: error@,
                }
            },
            FieldSetError::LhsMissingfield(name) => FieldSetErrorView::LhsMissingfield(name@),
            FieldSetError::RhsMissingField(name) => FieldSetErrorView::RhsMissingField(name@),
            FieldSetError::NameMismatch { lhs, rhs, bit_size, bit_offset } => {
                FieldSetErrorView::NameMismatch {
                    lhs: lhs@,
                    rhs: rhs@,
                    bit_size: *bit_size,
                    bit_offset: bit_offset@,
                }
            },
            FieldSetError::Description(l, r) => FieldSetErrorView::Description(
                opt_chars(*l),
                opt_chars(*r),
            ),
        }
    }
}

/// How two items of a block differ.
#[derive(Debug, PartialEq, Eq)]
pub enum BlockItemError {
    Description(Option<String>, Option<String>),
    ArrayXor(bool, bool),
    Array(ArrayError),
    /// Whether the left one is the nested block.
    InnerXor(bool),
    RegisterAccessMismatch(Access, Access),
    RegisterSizeMismatch(u32, u32),
    FieldSetXor(bool, bool),
    FieldSet(FieldSetError),
    Block(Box<BlockError>),
}

/// How two blocks differ.
#[derive(Debug, PartialEq, Eq)]
pub enum BlockError {
    Description(Option<String>, Option<String>),
    Extends(Option<String>, Option<String>),
    LhsMissingItem(String),
    RhsMissingItem(String),
    NameMismatch { lhs: String, rhs: String, byte_offset: u32 },
    Item(String, u32, BlockItemError),
}

/// What an item error holds.
#[verifier::ext_equal]
pub enum BlockItemErrorView {
    Description(Option<Seq<char>>, Option<Seq<char>>),
    ArrayXor(bool, bool),
    Array(ArrayErrorView),
    InnerXor(bool),
    RegisterAccessMismatch(Access, Access),
    RegisterSizeMismatch(u32, u32),
    FieldSetXor(bool, bool),
    FieldSet(FieldSetErrorView),
    Block(Box<BlockErrorView>),
}

/// What a block error holds.
#[verifier::ext_equal]
pub enum BlockErrorView {
    Description(Option<Seq<char>>, Option<Seq<char>>),
    Extends(Option<Seq<char>>, Option<Seq<char>>),
    LhsMissingItem(Seq<char>),
    RhsMissingItem(Seq<char>),
    NameMismatch { lhs: Seq<char>, rhs: Seq<char>, byte_offset: u32 },
    Item(Seq<char>, u32, BlockItemErrorView),
}

impl View for BlockItemError {
    type V = BlockItemErrorView;

    open spec fn view(&self) -> BlockItemErrorView
        decreases self,
    {
        match self {
            BlockItemError::Description(l, r) => BlockItemErrorView::Description(
                opt_chars(*l),
                opt_chars(*r),
            ),
            BlockItemError::ArrayXor(l, r) => BlockItemErrorView::ArrayXor(*l, *r),
            BlockItemError::Array(e) => BlockItemErrorView::Array(e@),
            BlockItemError::InnerXor(l) => BlockItemErrorView::InnerXor(*l),
            BlockItemError::RegisterAccessMismatch(l, r) => {
                BlockItemErrorView::RegisterAccessMismatch(*l, *r)
            },
            BlockItemError::RegisterSizeMismatch(l, r) => BlockItemErrorView::RegisterSizeMismatch(
                *l,
                *r,
            ),
            BlockItemError::FieldSetXor(l, r) => BlockItemErrorView::FieldSetXor(*l, *r),
            BlockItemError::FieldSet(e) => BlockItemErrorView::FieldSet(e@),
            BlockItemError::Block(e) => BlockItemErrorView::Block(Box::new((**e)@)),
        }
    }
}

impl View for BlockError {
    type V = BlockErrorView;

    open spec fn view(&self) -> BlockErrorView
        decreases self,
    {
        match self {
            BlockError::Description(l, r) => BlockErrorView::Description(
                opt_chars(*l),
                opt_chars(*r),
            ),
            BlockError::Extends(l, r) => BlockErrorView::Extends(opt_chars(*l), opt_chars(*r)),
            BlockError::LhsMissingItem(name) => BlockErrorView::LhsMissingItem(name@),
            BlockError::RhsMissingItem(name) => BlockErrorView::RhsMissingItem(name@),
            BlockError::NameMismatch { lhs, rhs, byte_offset } => BlockErrorView::NameMismatch {
                lhs: lhs@,
                rhs: rhs@,
                byte_offset: *byte_offset,
            },
            BlockError::Item(name, offset, e) => BlockErrorView::Item(name@, *offset, e@),
        }
    }
}

/// The debug form of an optional text, as `format!` writes it for `{:?}`.
pub uninterp spec fn debug_text(value: Option<Seq<char>>) -> Seq<char>;

/// `format!` with `{:?}` on an optional string. What it gives depends on the
/// value alone; how std quotes and escapes a text is not stated here.
#[verifier::external_body]
fn debug_opt(value: &Option<String>) -> (r: String)
    ensures
        r@ == debug_text(opt_chars(*value)),
{
    format!("{:?}", value)
}

/// What differs, with both sides in quotes.
pub open spec fn mismatch_text(what: Seq<char>, l: Seq<char>, r: Seq<char>) -> Seq<char> {
    what + " mismatch: '"@ + l + "' != '"@ + r + "'"@
}

/// What differs, with both sides in quotes.
pub fn describe_mismatch(what: &str, l: &str, r: &str) -> (t: String)
    ensures
        t@ == mismatch_text(what@, l@, r@),
{
    what.to_owned().concat(" mismatch: '").concat(l).concat("' != '").concat(r).concat("'")
}

/// The short form of an access.
pub open spec fn access_text(access: Access) -> Seq<char> {
    match access {
        Access::ReadWrite => "RW"@,
        Access::Read => "RO"@,
        Access::Write => "WO"@,
    }
}

/// The short form of an access.
pub fn fmt_access(access: &Access) -> (r: &str)
    ensures
        r@ == access_text(*access),
{
    match access {
        Access::ReadWrite => "RW",
        Access::Read => "RO",
        Access::Write => "WO",
    }
}

impl ArrayErrorView {
    /// Whether an error on the kinds of two arrays is about different kinds.
    pub open spec fn proper(self) -> bool {
        match self {
            ArrayErrorView::Xor(l, r) => (l is Regular) != (r is Regular),
            _ => true,
        }
    }

    /// The error in words.
    pub open spec fn text(self) -> Seq<char> {
        match self {
            ArrayErrorView::Xor(l, _) => if l is Regular {
                "array type mismatch: lhs is regular, rhs is cursed"@
            } else {
                "array type mismatch: lhs is cursed, rhs is regular"@
            },
            ArrayErrorView::Len(l, r) => "array len mismatch: "@ + decimal(l) + " != "@ + decimal(
                r,
            ),
            ArrayErrorView::Stride(l, r) => "stride mismatch: "@ + decimal(l as nat) + " != "@
                + decimal(r as nat),
        }
    }
}

impl ArrayError {
    /// The error in words.
    pub fn describe(&self) -> (r: String)
        requires
            self@.proper(),
        ensures
            r@ == self@.text(),
    {
        match self {
            ArrayError::Xor(Array::Regular(_), _) => {
                "array type mismatch: lhs is regular, rhs is cursed".to_owned()
            },
            ArrayError::Xor(Array::Cursed(_), _) => {
                "array type mismatch: lhs is cursed, rhs is regular".to_owned()
            },
            ArrayError::Len(l, r) => "array len mismatch: ".to_owned().concat(
                decimal_of(*l as u64).as_str(),
            ).concat(" != ").concat(decimal_of(*r as u64).as_str()),
            ArrayError::Stride(l, r) => "stride mismatch: ".to_owned().concat(
                decimal_of(*l as u64).as_str(),
            ).concat(" != ").concat(decimal_of(*r as u64).as_str()),
        }
    }
}

impl FieldErrorView {
    /// Whether the array errors in it are proper.
    pub open spec fn proper(self) -> bool {
        match self {
            FieldErrorView::Array(e) => e.proper(),
            _ => true,
        }
    }

    /// The error in words.
    pub open spec fn text(self) -> Seq<char> {
        match self {
            FieldErrorView::ArrayXor(l, _) => if l {
                "array types mismatch: lhs is an array, rhs is not"@
            } else {
                "array types mismatch: lhs is not an array, rhs is"@
            },
            FieldErrorView::Array(e) => e.text(),
            FieldErrorView::Description(l, r) => mismatch_text(
                "description"@,
                debug_text(l),
                debug_text(r),
            ),
            FieldErrorView::Enum(l, r) => mismatch_text(
                "enum"@,
                debug_text(l),
                debug_text(r),
            ),
        }
    }
}

impl FieldError {
    /// The error in words.
    pub fn describe(&self) -> (r: String)
        requires
            self@.proper(),
        ensures
            r@ == self@.text(),
    {
        match self {
            FieldError::ArrayXor(l, _) => if *l {
                "array types mismatch: lhs is an array, rhs is not".to_owned()
            } else {
                "array types mismatch: lhs is not an array, rhs is".to_owned()
            },
            FieldError::Array(e) => e.describe(),
            FieldError::Description(l, r) => describe_mismatch(
                "description",
                debug_opt(l).as_str(),
                debug_opt(r).as_str(),
            ),
            FieldError::Enum(l, r) => describe_mismatch(
                "enum",
                debug_opt(l).as_str(),
                debug_opt(r).as_str(),
            ),
        }
    }
}

impl FieldSetErrorView {
    /// Whether the array errors in it are proper.
    pub open spec fn proper(self) -> bool {
        match self {
            FieldSetErrorView::Field { error, .. } => error.proper(),
            _ => true,
        }
    }

    /// The error in words.
    pub open spec fn text(self) -> Seq<char> {
        match self {
            FieldSetErrorView::Bitsize(l, r) => "size mismatch: "@ + decimal(l as nat) + " != "@
                + decimal(r as nat),
            FieldSetErrorView::Extends(l, r) => "extends mismatch: "@ + debug_text(l) + " != "@
                + debug_text(r),
            FieldSetErrorView::Field { lhs_name, bit_size, bit_offset, error } => lhs_name
                + " at offset "@ + decimal(bit_offset.min_offset() as nat) + " with size "@
                + decimal(bit_size as nat) + ": "@ + error.text(),
            FieldSetErrorView::LhsMissingfield(name) => "lhs is missing field '"@ + name + "'"@,
            FieldSetErrorView::RhsMissingField(name) => "rhs is missing field '"@ + name + "'"@,
            FieldSetErrorView::NameMismatch { lhs, rhs, bit_size, bit_offset } => {
                "field at offset "@ + decimal(bit_offset.min_offset() as nat) + " with size "@
                    + decimal(bit_size as nat) + " has name mismatch: '"@ + lhs + "' != '"@ + rhs
                    + "'"@
            },
            FieldSetErrorView::Description(l, r) => mismatch_text(
                "description"@,
                debug_text(l),
                debug_text(r),
            ),
        }
    }
}

impl FieldSetError {
    /// The error in words.
    pub fn describe(&self) -> (r: String)
        requires
            self@.proper(),
        ensures
            r@ == self@.text(),
    {
        match self {
            FieldSetError::Bitsize(l, r) => "size mismatch: ".to_owned().concat(
                decimal_of(*l as u64).as_str(),
            ).concat(" != ").concat(decimal_of(*r as u64).as_str()),
            FieldSetError::Extends(l, r) => "extends mismatch: ".to_owned().concat(
                debug_opt(l).as_str(),
            ).concat(" != ").concat(debug_opt(r).as_str()),
            FieldSetError::Field { lhs_name, bit_size, bit_offset, error } => {
                lhs_name.clone().concat(" at offset ").concat(
                    decimal_of(bit_offset.min_offset() as u64).as_str(),
                ).concat(" with size ").concat(decimal_of(*bit_size as u64).as_str()).concat(
                    ": ",
                ).concat(error.describe().as_str())
            },
            FieldSetError::LhsMissingfield(name) => "lhs is missing field '".to_owned().concat(
                name.as_str(),
            ).concat("'"),
            FieldSetError::RhsMissingField(name) => "rhs is missing field '".to_owned().concat(
                name.as_str(),
            ).concat("'"),
            FieldSetError::NameMismatch { lhs, rhs, bit_size, bit_offset } => {
                "field at offset ".to_owned().concat(
                    decimal_of(bit_offset.min_offset() as u64).as_str(),
                ).concat(" with size ").concat(decimal_of(*bit_size as u64).as_str()).concat(
                    " has name mismatch: '",
                ).concat(lhs.as_str()).concat("' != '").concat(rhs.as_str()).concat("'")
            },
            FieldSetError::Description(l, r) => describe_mismatch(
                "description",
                debug_opt(l).as_str(),
                debug_opt(r).as_str(),
            ),
        }
    }
}

impl BlockItemErrorView {
    /// Whether the array errors in it are proper.
    pub open spec fn proper(self) -> bool
        decreases self,
    {
        match self {
            BlockItemErrorView::Array(e) => e.proper(),
            BlockItemErrorView::FieldSet(e) => e.proper(),
            BlockItemErrorView::Block(e) => (*e).proper(),
            _ => true,
        }
    }

    /// The error in words.
    pub open spec fn text(self) -> Seq<char>
        decreases self,
    {
        match self {
            BlockItemErrorView::Description(l, r) => mismatch_text(
                "description"@,
                debug_text(l),
                debug_text(r),
            ),
            BlockItemErrorView::ArrayXor(l, _) => if l {
                "array mismatch: lhs is array, rhs is not"@
            } else {
                "array mismatch: lhs is not array, rhs is"@
            },
            BlockItemErrorView::Array(e) => "array mismatch: "@ + e.text(),
            BlockItemErrorView::InnerXor(l) => if l {
                "inner type mismatch: lhs is nested block, rhs is register"@
            } else {
                "inner type mismatch: lhs is register, rhs is nested block"@
            },
            BlockItemErrorView::RegisterAccessMismatch(l, r) => "register access mismatch: "@
                + access_text(l) + " != "@ + access_text(r),
            BlockItemErrorView::RegisterSizeMismatch(l, r) => "register size mismatch: "@ + decimal(
                l as nat,
            ) + " != "@ + decimal(r as nat),
            BlockItemErrorView::FieldSetXor(l, _) => if l {
                "fieldset mismatch: lhs has fieldset, rhs does not"@
            } else {
                "fieldset mismatch: lhs doesn't have fieldset, rhs does"@
            },
            BlockItemErrorView::FieldSet(e) => "field set mismatch: "@ + e.text(),
            BlockItemErrorView::Block(e) => "inner block mismatch: "@ + (*e).text(),
        }
    }
}

impl BlockErrorView {
    /// Whether the array errors in it are proper.
    pub open spec fn proper(self) -> bool
        decreases self,
    {
        match self {
            BlockErrorView::Item(_, _, e) => e.proper(),
            _ => true,
        }
    }

    /// The error in words.
    pub open spec fn text(self) -> Seq<char>
        decreases self,
    {
        match self {
            BlockErrorView::Description(l, r) => mismatch_text(
                "description"@,
                debug_text(l),
                debug_text(r),
            ),
            BlockErrorView::Extends(l, r) => mismatch_text(
                "extends"@,
                debug_text(l),
                debug_text(r),
            ),
            BlockErrorView::Item(name, offset, e) => "inner item "@ + name + " at offset "@
                + decimal(offset as nat) + ": "@ + e.text(),
            BlockErrorView::LhsMissingItem(name) => "lhs is missing inner item '"@ + name + "'"@,
            BlockErrorView::RhsMissingItem(name) => "rhs is missing inner item '"@ + name + "'"@,
            BlockErrorView::NameMismatch { lhs, rhs, byte_offset } => {
                "name mismatch for item at offset "@ + decimal(byte_offset as nat) + ": '"@ + lhs
                    + "' != '"@ + rhs + "'"@
            },
        }
    }
}

impl BlockItemError {
    /// The error in words.
    pub fn describe(&self) -> (r: String)
        requires
            self@.proper(),
        ensures
            r@ == self@.text(),
        decreases self,
    {
        match self {
            BlockItemError::Description(l, r) => describe_mismatch(
                "description",
                debug_opt(l).as_str(),
                debug_opt(r).as_str(),
            ),
            BlockItemError::ArrayXor(l, _) => if *l {
                "array mismatch: lhs is array, rhs is not".to_owned()
            } else {
                "array mismatch: lhs is not array, rhs is".to_owned()
            },
            BlockItemError::Array(e) => "array mismatch: ".to_owned().concat(
                e.describe().as_str(),
            ),
            BlockItemError::InnerXor(l) => if *l {
                "inner type mismatch: lhs is nested block, rhs is register".to_owned()
            } else {
                "inner type mismatch: lhs is register, rhs is nested block".to_owned()
            },
            BlockItemError::RegisterAccessMismatch(l, r) => {
                "register access mismatch: ".to_owned().concat(fmt_access(l)).concat(" != ").concat(
                    fmt_access(r),
                )
            },
            BlockItemError::RegisterSizeMismatch(l, r) => {
                "register size mismatch: ".to_owned().concat(
                    decimal_of(*l as u64).as_str(),
                ).concat(" != ").concat(decimal_of(*r as u64).as_str())
            },
            BlockItemError::FieldSetXor(l, _) => if *l {
                "fieldset mismatch: lhs has fieldset, rhs does not".to_owned()
            } else {
                "fieldset mismatch: lhs doesn't have fieldset, rhs does".to_owned()
            },
            BlockItemError::FieldSet(e) => "field set mismatch: ".to_owned().concat(
                e.describe().as_str(),
            ),
            BlockItemError::Block(e) => "inner block mismatch: ".to_owned().concat(
                (**e).describe().as_str(),
            ),
        }
    }
}

impl BlockError {
    /// The error in words.
    pub fn describe(&self) -> (r: String)
        requires
            self@.proper(),
        ensures
            r@ == self@.text(),
        decreases self,
    {
        match self {
            BlockError::Description(l, r) => describe_mismatch(
                "description",
                debug_opt(l).as_str(),
                debug_opt(r).as_str(),
            ),
            BlockError::Extends(l, r) => describe_mismatch(
                "extends",
                debug_opt(l).as_str(),
                debug_opt(r).as_str(),
            ),
            BlockError::Item(name, offset, e) => "inner item ".to_owned().concat(
                name.as_str(),
            ).concat(" at offset ").concat(decimal_of(*offset as u64).as_str()).concat(
                ": ",
            ).concat(e.describe().as_str()),
            BlockError::LhsMissingItem(name) => "lhs is missing inner item '".to_owned().concat(
                name.as_str(),
            ).concat("'"),
            BlockError::RhsMissingItem(name) => "rhs is missing inner item '".to_owned().concat(
                name.as_str(),
            ).concat("'"),
            BlockError::NameMismatch { lhs, rhs, byte_offset } => {
                "name mismatch for item at offset ".to_owned().concat(
                    decimal_of(*byte_offset as u64).as_str(),
                ).concat(": '").concat(lhs.as_str()).concat("' != '").concat(
                    rhs.as_str(),
                ).concat("'")
            },
        }
    }
}

} // verus!
