//! What each error says, word by word.
use crate::commands::check_compat::ItemView;
use crate::commands::compat_error::{
    debug_text, mismatch_text, ArrayErrorView, BlockErrorView, BlockItemErrorView, FieldErrorView,
    FieldSetErrorView,
};
use crate::ir::{least_first, Access, ArrayView, BitOffsetView, BitRange};
use crate::text::decimal;
use vstd::prelude::*;

verus! {

broadcast use vstd::seq::group_seq_axioms;

/// The lowest bit of an offset is the first bit of one of its runs, and no run
/// begins before it; without runs it is the bit zero.
pub proof fn lemma_min_offset(offset: BitOffsetView)
    ensures
        match offset {
            BitOffsetView::Regular(bit) => offset.min_offset() == bit,
            BitOffsetView::Cursed(runs) => {
                &&& runs.len() == 0 ==> offset.min_offset() == 0
                &&& runs.len() > 0 ==> exists|i: int|
                    0 <= i < runs.len() && (#[trigger] runs[i]).first == offset.min_offset()
                &&& forall|i: int|
                    0 <= i < runs.len() ==> offset.min_offset() <= (#[trigger] runs[i]).first
            },
        },
{
    if let BitOffsetView::Cursed(runs) = offset {
        lemma_least_first(runs);
    }
}

/// As `lemma_min_offset`, for runs.
proof fn lemma_least_first(runs: Seq<BitRange>)
    ensures
        runs.len() == 0 ==> least_first(runs) == 0,
        runs.len() > 0 ==> exists|i: int|
            0 <= i < runs.len() && (#[trigger] runs[i]).first == least_first(runs),
        forall|i: int| 0 <= i < runs.len() ==> least_first(runs) <= (#[trigger] runs[i]).first,
    decreases runs.len(),
{
    if runs.len() == 1 {
        assert(runs[0].first == least_first(runs));
    } else if runs.len() > 1 {
        let init = runs.drop_last();
        let n = runs.len() - 1;
        lemma_least_first(init);
        let k = choose|k: int|
            0 <= k < init.len() && (#[trigger] init[k]).first == least_first(init);
        assert(runs[k] == init[k]);
        assert(runs[n] == runs.last());
        assert forall|i: int| 0 <= i < runs.len() implies least_first(runs) <= (
        #[trigger] runs[i]).first by {
            if i < n {
                assert(init[i] == runs[i]);
            }
        }
        if runs.last().first < least_first(init) {
            assert(runs[n].first == least_first(runs));
        } else {
            assert(runs[k].first == least_first(runs));
        }
    }
}

/// What an array error says.
pub proof fn lemma_array_words(e: ArrayErrorView)
    ensures
        match e {
            ArrayErrorView::Xor(ArrayView::Regular(_), _) => e.text()
                == "array type mismatch: lhs is regular, rhs is cursed"@,
            ArrayErrorView::Xor(ArrayView::Cursed(_), _) => e.text()
                == "array type mismatch: lhs is cursed, rhs is regular"@,
            ArrayErrorView::Len(l, r) => e.text() == "array len mismatch: "@ + decimal(l) + " != "@
                + decimal(r),
            ArrayErrorView::Stride(l, r) => e.text() == "stride mismatch: "@ + decimal(l as nat)
                + " != "@ + decimal(r as nat),
        },
{
}

/// A mismatch between two optional texts is told with the debug form of both.
proof fn lemma_mismatch(l: Seq<char>, r: Seq<char>)
    ensures
        mismatch_text("description"@, l, r) == "description mismatch: '"@ + l + "' != '"@ + r
            + "'"@,
        mismatch_text("enum"@, l, r) == "enum mismatch: '"@ + l + "' != '"@ + r + "'"@,
        mismatch_text("extends"@, l, r) == "extends mismatch: '"@ + l + "' != '"@ + r + "'"@,
{
    reveal_strlit("description");
    reveal_strlit("enum");
    reveal_strlit("extends");
    reveal_strlit(" mismatch: '");
    reveal_strlit("description mismatch: '");
    reveal_strlit("enum mismatch: '");
    reveal_strlit("extends mismatch: '");
    assert("description"@ + " mismatch: '"@ =~= "description mismatch: '"@);
    assert("enum"@ + " mismatch: '"@ =~= "enum mismatch: '"@);
    assert("extends"@ + " mismatch: '"@ =~= "extends mismatch: '"@);
}

/// What a field error says.
pub proof fn lemma_field_words(e: FieldErrorView)
    ensures
        match e {
            FieldErrorView::Array(a) => e.text() == a.text(),
            FieldErrorView::ArrayXor(true, _) => e.text()
                == "array types mismatch: lhs is an array, rhs is not"@,
            FieldErrorView::ArrayXor(false, _) => e.text()
                == "array types mismatch: lhs is not an array, rhs is"@,
            FieldErrorView::Description(l, r) => e.text() == "description mismatch: '"@
                + debug_text(l) + "' != '"@ + debug_text(r) + "'"@,
            FieldErrorView::Enum(l, r) => e.text() == "enum mismatch: '"@ + debug_text(l)
                + "' != '"@ + debug_text(r) + "'"@,
        },
{
    match e {
        FieldErrorView::Description(l, r) => {
            lemma_mismatch(debug_text(l), debug_text(r));
        },
        FieldErrorView::Enum(l, r) => {
            lemma_mismatch(debug_text(l), debug_text(r));
        },
        _ => {},
    }
}

/// What a fieldset error says.
pub proof fn lemma_fieldset_words(e: FieldSetErrorView)
    ensures
        match e {
            FieldSetErrorView::Bitsize(l, r) => e.text() == "size mismatch: "@ + decimal(l as nat)
                + " != "@ + decimal(r as nat),
            FieldSetErrorView::Extends(l, r) => e.text() == "extends mismatch: "@ + debug_text(l)
                + " != "@ + debug_text(r),
            FieldSetErrorView::Field { lhs_name, bit_size, bit_offset, error } => e.text()
                == lhs_name + " at offset "@ + decimal(bit_offset.min_offset() as nat)
                + " with size "@ + decimal(bit_size as nat) + ": "@ + error.text(),
            FieldSetErrorView::LhsMissingfield(name) => e.text() == "lhs is missing field '"@ + name
                + "'"@,
            FieldSetErrorView::RhsMissingField(name) => e.text() == "rhs is missing field '"@ + name
                + "'"@,
            FieldSetErrorView::NameMismatch { lhs, rhs, bit_size, bit_offset } => e.text()
                == "field at offset "@ + decimal(bit_offset.min_offset() as nat) + " with size "@
                + decimal(bit_size as nat) + " has name mismatch: '"@ + lhs + "' != '"@ + rhs
                + "'"@,
            FieldSetErrorView::Description(l, r) => e.text() == "description mismatch: '"@
                + debug_text(l) + "' != '"@ + debug_text(r) + "'"@,
        },
{
    if let FieldSetErrorView::Description(l, r) = e {
        lemma_mismatch(debug_text(l), debug_text(r));
    }
}

/// The short form of an access.
pub open spec fn short_access(a: Access) -> Seq<char> {
    match a {
        Access::ReadWrite => "RW"@,
        Access::Read => "RO"@,
        Access::Write => "WO"@,
    }
}

/// What an item error says.
pub proof fn lemma_item_words(e: BlockItemErrorView)
    ensures
        match e {
            BlockItemErrorView::Description(l, r) => e.text() == "description mismatch: '"@
                + debug_text(l) + "' != '"@ + debug_text(r) + "'"@,
            BlockItemErrorView::ArrayXor(true, _) => e.text()
                == "array mismatch: lhs is array, rhs is not"@,
            BlockItemErrorView::ArrayXor(false, _) => e.text()
                == "array mismatch: lhs is not array, rhs is"@,
            BlockItemErrorView::Array(a) => e.text() == "array mismatch: "@ + a.text(),
            BlockItemErrorView::InnerXor(true) => e.text()
                == "inner type mismatch: lhs is nested block, rhs is register"@,
            BlockItemErrorView::InnerXor(false) => e.text()
                == "inner type mismatch: lhs is register, rhs is nested block"@,
            BlockItemErrorView::RegisterAccessMismatch(l, r) => e.text()
                == "register access mismatch: "@ + short_access(l) + " != "@ + short_access(r),
            BlockItemErrorView::RegisterSizeMismatch(l, r) => e.text()
                == "register size mismatch: "@ + decimal(l as nat) + " != "@ + decimal(r as nat),
            BlockItemErrorView::FieldSetXor(true, _) => e.text()
                == "fieldset mismatch: lhs has fieldset, rhs does not"@,
            BlockItemErrorView::FieldSetXor(false, _) => e.text()
                == "fieldset mismatch: lhs doesn't have fieldset, rhs does"@,
            BlockItemErrorView::FieldSet(f) => e.text() == "field set mismatch: "@ + f.text(),
            BlockItemErrorView::Block(b) => e.text() == "inner block mismatch: "@ + (*b).text(),
        },
{
    if let BlockItemErrorView::Description(l, r) = e {
        lemma_mismatch(debug_text(l), debug_text(r));
    }
}

/// What a block error says.
pub proof fn lemma_block_words(e: BlockErrorView)
    ensures
        match e {
            BlockErrorView::Description(l, r) => e.text() == "description mismatch: '"@
                + debug_text(l) + "' != '"@ + debug_text(r) + "'"@,
            BlockErrorView::Extends(l, r) => e.text() == "extends mismatch: '"@ + debug_text(l)
                + "' != '"@ + debug_text(r) + "'"@,
            BlockErrorView::LhsMissingItem(name) => e.text() == "lhs is missing inner item '"@
                + name + "'"@,
            BlockErrorView::RhsMissingItem(name) => e.text() == "rhs is missing inner item '"@
                + name + "'"@,
            BlockErrorView::NameMismatch { lhs, rhs, byte_offset } => e.text()
                == "name mismatch for item at offset "@ + decimal(byte_offset as nat) + ": '"@ + lhs
                + "' != '"@ + rhs + "'"@,
            BlockErrorView::Item(name, offset, error) => e.text() == "inner item "@ + name
                + " at offset "@ + decimal(offset as nat) + ": "@ + error.text(),
        },
{
    match e {
        BlockErrorView::Description(l, r) => {
            lemma_mismatch(debug_text(l), debug_text(r));
        },
        BlockErrorView::Extends(l, r) => {
            lemma_mismatch(debug_text(l), debug_text(r));
        },
        _ => {},
    }
}

/// What an item is called.
pub proof fn lemma_called(item: ItemView)
    ensures
        match item {
            ItemView::Block(name, _) => item.name() == name && item.text() == "block '"@ + name
                + "'"@,
            ItemView::Fieldset(name, _) => item.name() == name && item.text() == "fieldset '"@
                + name + "'"@,
        },
{
}

} // verus!
