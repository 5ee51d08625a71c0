//! The code that selects the alternate mode of a pad: which register holds the
//! mode, and which daisy register each mode needs set.
use crate::ir::{
    opt_view, views, Block, BlockItemInner, BlockItemInnerView, BlockItemView, BlockView,
    Duplicate, Enum, EnumVariantView, EnumView, FieldSetView, IrView, IR,
};
use crate::name_map::lookup;
use crate::seqs::{
    collect, first, gather, is_first, lemma_collect_fails, lemma_collect_step, lemma_first,
    lemma_gather_prefix, lemma_gather_step, lemma_no_first, one_if,
};
use crate::text::{
    all_chars, begins_with, chars_of, ends_with, first_occurrence, opt_chars, same, split,
    split_at_each, split_at_most, split_once, splitn, strip_prefix,
};
use vstd::prelude::*;

verus! {

broadcast use vstd::seq::group_seq_axioms;

/// A text in lower case: `str::to_lowercase`.
pub uninterp spec fn lowercase(s: Seq<char>) -> Seq<char>;

/// A text in upper case: `str::to_uppercase`.
pub uninterp spec fn uppercase(s: Seq<char>) -> Seq<char>;

/// `str::to_lowercase`: the result is decided by the text.
pub assume_specification[ str::to_lowercase ](s: &str) -> (r: String)
    ensures
        r@ == lowercase(s@),
;

/// `str::to_uppercase`: the result is decided by the text.
pub assume_specification[ str::to_uppercase ](s: &str) -> (r: String)
    ensures
        r@ == uppercase(s@),
;

/// Why the code for a pad cannot be made.
#[derive(Clone, Copy, Debug, PartialEq, Eq, Structural)]
pub enum MuxFault {
    /// The register map has no `iomuxc::Iomuxc` or no `iomuxc_aon::IomuxcAon`.
    MissingMuxBlock,
    /// The pad belongs to a mux block of another name.
    UnknownInstance,
    /// The pad's name does not begin with `Gpio`.
    NotGpio,
    /// The pad's name is too short, or its bank is not two bytes long.
    BadPinName,
    /// The enum of the pad's modes is missing.
    MissingMuxEnum,
    /// A daisy fieldset does not have exactly one field.
    DaisyFieldCount,
    /// No fieldset uses a daisy enum.
    MissingDaisyFieldset,
    /// The name of a mode has no underscore.
    BadModeName,
    /// No register of the mux blocks has a daisy fieldset.
    MissingDaisyRegister,
    /// No register of the pad's mux block has the pad's fieldset.
    MissingMuxRegister,
    /// The same, and no mode of the pad has a daisy setting.
    MissingMuxRegisterAndDaisies,
}

/// A block of mux registers.
#[derive(Clone, Copy, Debug, PartialEq, Eq, Structural)]
pub enum Iomux {
    Iomuxc,
    IomuxcAon,
}

impl Iomux {
    /// The name of the block's peripheral.
    pub open spec fn text(self) -> Seq<char> {
        match self {
            Iomux::Iomuxc => "IOMUXC"@,
            Iomux::IomuxcAon => "IOMUXC_AON"@,
        }
    }

    /// The name of the block's peripheral.
    pub fn ident(self) -> (r: &'static str)
        ensures
            r@ == self.text(),
    {
        match self {
            Iomux::Iomuxc => "IOMUXC",
            Iomux::IomuxcAon => "IOMUXC_AON",
        }
    }
}

/// The mux block that a namespace in lower case names.
pub open spec fn iomux_named(lowered: Seq<char>) -> Option<Iomux> {
    if lowered == "iomuxc"@ {
        Some(Iomux::Iomuxc)
    } else if lowered == "iomuxc_aon"@ {
        Some(Iomux::IomuxcAon)
    } else {
        None
    }
}

/// The mux block that a namespace in lower case names.
pub fn find_iomux(lowered: &str) -> (r: Option<Iomux>)
    ensures
        r == iomux_named(lowered@),
{
    if same(lowered, "iomuxc") {
        Some(Iomux::Iomuxc)
    } else if same(lowered, "iomuxc_aon") {
        Some(Iomux::IomuxcAon)
    } else {
        None
    }
}

/// A pad, as the name of its mux fieldset gives it.
#[derive(Debug)]
pub struct Pad {
    /// The namespace of the fieldset.
    pub instance: String,
    /// The last part of the fieldset's name.
    pub reg: String,
    /// What follows `SwMuxCtlPad` in it.
    pub struct_name: String,
}

/// What a pad holds.
#[verifier::ext_equal]
pub struct PadView {
    pub instance: Seq<char>,
    pub reg: Seq<char>,
    pub struct_name: Seq<char>,
}

impl View for Pad {
    type V = PadView;

    open spec fn view(&self) -> PadView {
        PadView {
            instance: self.instance@,
            reg: self.reg@,
            struct_name: self.struct_name@,
        }
    }
}

/// The pad of a fieldset: the name has three parts, the last of which begins with
/// `SwMuxCtlPad`.
pub open spec fn pad_of(fs_name: Seq<char>) -> Option<PadView> {
    let parts = splitn(fs_name, "::"@, 3);
    if parts.len() == 3 && "SwMuxCtlPad"@.is_prefix_of(parts[2]) {
        Some(
            PadView {
                instance: parts[0],
                reg: parts[2],
                struct_name: parts[2].skip("SwMuxCtlPad"@.len() as int),
            },
        )
    } else {
        None
    }
}

/// The pad of a fieldset, if it is the mux fieldset of one.
pub fn read_pad(fs_name: &str) -> (r: Option<Pad>)
    ensures
        opt_view(r) == pad_of(fs_name@),
{
    let parts = split_at_most(fs_name, "::", 3);
    let ghost pieces = all_chars(parts@);
    if parts.len() != 3 {
        return None;
    }
    assert(pieces[0] == parts@[0]@ && pieces[2] == parts@[2]@);
    match strip_prefix(parts[2].as_str(), "SwMuxCtlPad") {
        Some(struct_name) => Some(
            Pad { instance: parts[0].clone(), reg: parts[2].clone(), struct_name },
        ),
        None => None,
    }
}

/// How many bytes UTF-8 takes for a character.
pub open spec fn utf8_width(c: char) -> int {
    if (c as u32) < 0x80 {
        1
    } else if (c as u32) < 0x800 {
        2
    } else if (c as u32) < 0x10000 {
        3
    } else {
        4
    }
}

/// How many characters take up the first two bytes, if a character ends there.
pub open spec fn two_bytes(s: Seq<char>) -> Option<int> {
    if s.len() >= 1 && utf8_width(s[0]) == 2 {
        Some(1)
    } else if s.len() >= 2 && utf8_width(s[0]) == 1 && utf8_width(s[1]) == 1 {
        Some(2)
    } else {
        None
    }
}

/// What stands in the first two bytes, and the rest.
fn split_two_bytes(s: &str) -> (r: Option<(String, String)>)
    ensures
        match r {
            Some((a, b)) => two_bytes(s@) is Some && a@ == s@.take(two_bytes(s@)->0) && b@
                == s@.skip(two_bytes(s@)->0),
            None => two_bytes(s@) is None,
        },
{
    let chars = chars_of(s);
    let n: usize = chars.len();
    let at: usize = if n >= 1 && (chars[0] as u32) >= 0x80 && (chars[0] as u32) < 0x800 {
        1
    } else if n >= 2 && (chars[0] as u32) < 0x80 && (chars[1] as u32) < 0x80 {
        2
    } else {
        return None;
    };
    Some((s.substring_char(0, at).to_owned(), s.substring_char(at, n).to_owned()))
}

/// A pin: its bank and its number in the bank.
#[derive(Debug)]
pub struct Pin {
    pub bank: String,
    pub num: String,
}

/// What a pin holds.
#[verifier::ext_equal]
pub struct PinView {
    pub bank: Seq<char>,
    pub num: Seq<char>,
}

impl View for Pin {
    type V = PinView;

    open spec fn view(&self) -> PinView {
        PinView { bank: self.bank@, num: self.num@ }
    }
}

/// The pin of a bank whose number has a sub-bank of two bytes.
pub open spec fn sub_bank_pin(bank: Seq<char>, rest: Seq<char>) -> Result<Option<PinView>, MuxFault> {
    match two_bytes(rest) {
        Some(k) => Ok(Some(PinView { bank, num: rest.take(k) + "_"@ + rest.skip(k) })),
        None => Err(MuxFault::BadPinName),
    }
}

/// The pin of a pad. A dummy pad has none.
pub open spec fn pin_of(struct_name: Seq<char>) -> Result<Option<PinView>, MuxFault> {
    if !"Gpio"@.is_prefix_of(struct_name) {
        Err(MuxFault::NotGpio)
    } else {
        let name = struct_name.skip("Gpio"@.len() as int);
        if "Dummy"@.is_suffix_of(name) {
            Ok(None)
        } else if "Aon"@.is_prefix_of(name) {
            Ok(Some(PinView { bank: "Aon"@, num: name.skip("Aon"@.len() as int) }))
        } else if "Emc"@.is_prefix_of(name) {
            sub_bank_pin("Emc"@, name.skip("Emc"@.len() as int))
        } else if "Sd"@.is_prefix_of(name) {
            sub_bank_pin("Sd"@, name.skip("Sd"@.len() as int))
        } else {
            match two_bytes(name) {
                Some(k) => Ok(Some(PinView { bank: name.take(k), num: name.skip(k) })),
                None => Err(MuxFault::BadPinName),
            }
        }
    }
}

/// Whether `r` is the pin `p`.
pub open spec fn is_pin(
    r: Result<Option<Pin>, MuxFault>,
    p: Result<Option<PinView>, MuxFault>,
) -> bool {
    match r {
        Ok(pin) => p == Ok::<Option<PinView>, MuxFault>(opt_view(pin)),
        Err(e) => p == Err::<Option<PinView>, MuxFault>(e),
    }
}

/// The pin of a bank whose number has a sub-bank of two bytes.
fn read_sub_bank_pin(bank: &str, rest: &str) -> (r: Result<Option<Pin>, MuxFault>)
    ensures
        is_pin(r, sub_bank_pin(bank@, rest@)),
{
    match split_two_bytes(rest) {
        Some((sub_bank, num)) => Ok(
            Some(
                Pin { bank: bank.to_owned(), num: sub_bank.concat("_").concat(num.as_str()) },
            ),
        ),
        None => Err(MuxFault::BadPinName),
    }
}

/// The pin of a pad. A dummy pad has none.
pub fn read_pin(struct_name: &str) -> (r: Result<Option<Pin>, MuxFault>)
    ensures
        is_pin(r, pin_of(struct_name@)),
{
    let name = match strip_prefix(struct_name, "Gpio") {
        Some(name) => name,
        None => {
            return Err(MuxFault::NotGpio);
        },
    };
    if ends_with(name.as_str(), "Dummy") {
        return Ok(None);
    }
    if let Some(num) = strip_prefix(name.as_str(), "Aon") {
        return Ok(Some(Pin { bank: "Aon".to_owned(), num }));
    }
    if let Some(rest) = strip_prefix(name.as_str(), "Emc") {
        return read_sub_bank_pin("Emc", rest.as_str());
    }
    if let Some(rest) = strip_prefix(name.as_str(), "Sd") {
        return read_sub_bank_pin("Sd", rest.as_str());
    }
    match split_two_bytes(name.as_str()) {
        Some((bank, num)) => Ok(Some(Pin { bank, num })),
        None => Err(MuxFault::BadPinName),
    }
}

/// The full name of a pin, its bank being in upper case.
pub open spec fn gpio_name(bank: Seq<char>, num: Seq<char>) -> Seq<char> {
    "GPIO_"@ + bank + "_"@ + num
}

/// The full name of a pin, its bank being in upper case.
pub fn full_pin_name(bank: &str, num: &str) -> (r: String)
    ensures
        r@ == gpio_name(bank@, num@),
{
    "GPIO_".to_owned().concat(bank).concat("_").concat(num)
}

/// A daisy setting: the fieldset of its register, its enum and the variant.
#[derive(Debug)]
pub struct Daisy {
    pub fs_name: String,
    pub enumm: String,
    pub variant: String,
}

/// What a daisy setting holds.
#[verifier::ext_equal]
pub struct DaisyView {
    pub fs_name: Seq<char>,
    pub enumm: Seq<char>,
    pub variant: Seq<char>,
}

impl View for Daisy {
    type V = DaisyView;

    open spec fn view(&self) -> DaisyView {
        DaisyView { fs_name: self.fs_name@, enumm: self.enumm@, variant: self.variant@ }
    }
}

impl Duplicate for Daisy {
    fn duplicate(&self) -> (r: Self) {
        Daisy {
            fs_name: self.fs_name.clone(),
            enumm: self.enumm.clone(),
            variant: self.variant.clone(),
        }
    }
}

/// The fieldsets whose first field takes its values from the enum.
pub open spec fn led_by(enum_name: Seq<char>) -> spec_fn((Seq<char>, FieldSetView)) -> bool {
    |e: (Seq<char>, FieldSetView)| e.1.fields.len() > 0 && e.1.fields[0].enumm == Some(enum_name)
}

/// The first fieldset whose first field takes its values from the enum. It must
/// have no other field.
pub open spec fn daisy_fieldset(ir: IrView, enum_name: Seq<char>) -> Result<Seq<char>, MuxFault> {
    match first(ir.fieldsets, led_by(enum_name)) {
        Some(e) => if e.1.fields.len() == 1 {
            Ok(e.0)
        } else {
            Err(MuxFault::DaisyFieldCount)
        },
        None => Err(MuxFault::MissingDaisyFieldset),
    }
}

/// Whether `r` is the text `t`, or the same fault.
pub open spec fn is_text(r: Result<String, MuxFault>, t: Result<Seq<char>, MuxFault>) -> bool {
    match r {
        Ok(s) => t == Ok::<Seq<char>, MuxFault>(s@),
        Err(e) => t == Err::<Seq<char>, MuxFault>(e),
    }
}

/// The fieldset of a daisy enum.
pub fn find_daisy_fieldset(ir: &IR, enum_name: &str) -> (r: Result<String, MuxFault>)
    ensures
        is_text(r, daisy_fieldset(ir@, enum_name@)),
{
    let ghost sets = ir@.fieldsets;
    let ghost p = led_by(enum_name@);
    let mut i: usize = 0;
    while i < ir.fieldsets.len()
        invariant
            i <= sets.len(),
            sets == ir@.fieldsets,
            p == led_by(enum_name@),
            forall|j: int| 0 <= j < i ==> !p(#[trigger] sets[j]),
        decreases sets.len() - i,
    {
        let set = ir.fieldsets.value_at(i);
        assert(sets[i as int].1 == set@);
        if set.fields.len() > 0 {
            assert(set@.fields[0] == set.fields@[0]@);
            if let Some(name) = &set.fields[0].enumm {
                if same(name.as_str(), enum_name) {
                    proof {
                        assert(is_first(sets, p, i as int));
                        lemma_first(sets, p, i as int);
                    }
                    return if set.fields.len() == 1 {
                        Ok(ir.fieldsets.key_at(i).clone())
                    } else {
                        Err(MuxFault::DaisyFieldCount)
                    };
                }
            }
        }
        i += 1;
    }
    proof {
        lemma_no_first(sets, p);
    }
    Err(MuxFault::MissingDaisyFieldset)
}

/// The enum and the variant, if the variant's name begins with the prefix.
pub open spec fn candidate(prefix: Seq<char>, enum_name: Seq<char>) -> spec_fn(
    EnumVariantView,
) -> Seq<(Seq<char>, Seq<char>)> {
    |v: EnumVariantView| one_if(prefix.is_prefix_of(v.name), (enum_name, v.name))
}

/// The variants of an enum whose names begin with the prefix.
pub open spec fn candidates_in(prefix: Seq<char>) -> spec_fn((Seq<char>, EnumView)) -> Seq<
    (Seq<char>, Seq<char>),
> {
    |e: (Seq<char>, EnumView)| gather(e.1.variants, candidate(prefix, e.0))
}

/// The views of pairs of strings.
pub open spec fn pair_chars(s: Seq<(String, String)>) -> Seq<(Seq<char>, Seq<char>)> {
    s.map_values(|p: (String, String)| (p.0@, p.1@))
}

/// All variants whose names begin with the prefix, with their enums.
fn find_candidates(ir: &IR, prefix: &str) -> (r: Vec<(String, String)>)
    ensures
        pair_chars(r@) == gather(ir@.enums, candidates_in(prefix@)),
{
    let ghost enums = ir@.enums;
    let ghost f = candidates_in(prefix@);
    let mut r: Vec<(String, String)> = Vec::new();
    assert(pair_chars(r@) =~= gather(enums.take(0), f));
    let mut i: usize = 0;
    while i < ir.enums.len()
        invariant
            i <= enums.len(),
            enums == ir@.enums,
            f == candidates_in(prefix@),
            pair_chars(r@) == gather(enums.take(i as int), f),
        decreases enums.len() - i,
    {
        let name = ir.enums.key_at(i);
        let enumm = ir.enums.value_at(i);
        let ghost variants = enumm@.variants;
        let ghost g = candidate(prefix@, name@);
        let ghost before = pair_chars(r@);
        assert(before + gather(variants.take(0), g) =~= before);
        let mut k: usize = 0;
        while k < enumm.variants.len()
            invariant
                k <= variants.len(),
                variants == views(enumm.variants@),
                g == candidate(prefix@, name@),
                pair_chars(r@) == before + gather(variants.take(k as int), g),
            decreases variants.len() - k,
        {
            let ghost so_far = r@;
            let variant = &enumm.variants[k];
            assert(variants[k as int] == variant@);
            if begins_with(variant.name.as_str(), prefix) {
                r.push((name.clone(), variant.name.clone()));
            }
            proof {
                assert(pair_chars(r@) =~= pair_chars(so_far) + g(variants[k as int]));
                lemma_gather_step(variants, g, k as int);
                assert(pair_chars(r@) =~= before + gather(variants.take(k + 1), g));
            }
            k += 1;
        }
        proof {
            assert(variants.take(k as int) =~= variants);
            assert(enums[i as int] == (name@, enumm@));
            lemma_gather_step(enums, f, i as int);
        }
        i += 1;
    }
    assert(enums.take(i as int) =~= enums);
    r
}

/// The daisy setting of a variant.
pub open spec fn daisy_from(ir: IrView) -> spec_fn((Seq<char>, Seq<char>)) -> Result<
    DaisyView,
    MuxFault,
> {
    |c: (Seq<char>, Seq<char>)|
        match daisy_fieldset(ir, c.0) {
            Ok(fs_name) => Ok(DaisyView { fs_name, enumm: c.0, variant: c.1 }),
            Err(e) => Err(e),
        }
}

/// What the variants of the daisy settings of a pin begin with.
pub open spec fn daisy_prefix(gpio: Seq<char>) -> Seq<char> {
    "SELECT_"@ + gpio + "_ALT"@
}

/// The daisy settings of a pin.
pub open spec fn daisies_of(ir: IrView, gpio: Seq<char>) -> Result<Seq<DaisyView>, MuxFault> {
    collect(gather(ir.enums, candidates_in(daisy_prefix(gpio))), daisy_from(ir))
}

/// Whether `r` holds what `v` holds, or the same fault.
pub open spec fn is_list<T: View>(
    r: Result<Vec<T>, MuxFault>,
    v: Result<Seq<T::V>, MuxFault>,
) -> bool {
    match r {
        Ok(list) => v == Ok::<Seq<T::V>, MuxFault>(views(list@)),
        Err(e) => v == Err::<Seq<T::V>, MuxFault>(e),
    }
}

/// The daisy settings of a pin.
pub fn find_daisies(ir: &IR, gpio: &str) -> (r: Result<Vec<Daisy>, MuxFault>)
    ensures
        is_list(r, daisies_of(ir@, gpio@)),
{
    let prefix = "SELECT_".to_owned().concat(gpio).concat("_ALT");
    let candidates = find_candidates(ir, prefix.as_str());
    let ghost all = pair_chars(candidates@);
    let ghost f = daisy_from(ir@);
    let mut r: Vec<Daisy> = Vec::new();
    assert(views(r@) =~= Seq::<DaisyView>::empty());
    let mut i: usize = 0;
    while i < candidates.len()
        invariant
            i <= candidates@.len(),
            all == pair_chars(candidates@),
            f == daisy_from(ir@),
            daisies_of(ir@, gpio@) == collect(all, f),
            collect(all.take(i as int), f) == Ok::<Seq<DaisyView>, MuxFault>(views(r@)),
        decreases candidates@.len() - i,
    {
        let ghost before = r@;
        proof {
            assert(all[i as int] == (candidates@[i as int].0@, candidates@[i as int].1@));
            lemma_collect_step(all, f, i as int);
        }
        match find_daisy_fieldset(ir, candidates[i].0.as_str()) {
            Ok(fs_name) => {
                r.push(
                    Daisy {
                        fs_name,
                        enumm: candidates[i].0.clone(),
                        variant: candidates[i].1.clone(),
                    },
                );
            },
            Err(e) => {
                return Err(e);
            },
        }
        assert(views(r@) =~= views(before).push(r@.last()@));
        i += 1;
    }
    assert(all.take(i as int) =~= all);
    Ok(r)
}

/// A mode of a pad and the daisy setting that it needs, if any.
#[derive(Debug)]
pub struct AltMode {
    pub mux_enum: String,
    pub mux_variant: String,
    pub daisy: Option<Daisy>,
}

/// What a mode holds.
#[verifier::ext_equal]
pub struct AltModeView {
    pub mux_enum: Seq<char>,
    pub mux_variant: Seq<char>,
    pub daisy: Option<DaisyView>,
}

impl View for AltMode {
    type V = AltModeView;

    open spec fn view(&self) -> AltModeView {
        AltModeView {
            mux_enum: self.mux_enum@,
            mux_variant: self.mux_variant@,
            daisy: opt_view(self.daisy),
        }
    }
}

/// The daisy settings of this variant.
pub open spec fn of_variant(variant: Seq<char>) -> spec_fn(DaisyView) -> bool {
    |d: DaisyView| d.variant == variant
}

/// The mode of a variant: its name up to the first underscore names the daisy
/// variant that it needs.
pub open spec fn alt_mode_of(
    mux_enum: Seq<char>,
    gpio: Seq<char>,
    daisies: Seq<DaisyView>,
) -> spec_fn(EnumVariantView) -> Result<AltModeView, MuxFault> {
    |v: EnumVariantView|
        match first_occurrence(v.name, "_"@) {
            Some(i) => Ok(
                AltModeView {
                    mux_enum,
                    mux_variant: v.name,
                    daisy: first(
                        daisies,
                        of_variant("SELECT_"@ + gpio + "_"@ + v.name.take(i)),
                    ),
                },
            ),
            None => Err(MuxFault::BadModeName),
        }
}

/// A copy of the first daisy setting of this variant.
fn find_daisy(daisies: &Vec<Daisy>, variant: &str) -> (r: Option<Daisy>)
    ensures
        opt_view(r) == first(views(daisies@), of_variant(variant@)),
{
    let ghost s = views(daisies@);
    let ghost p = of_variant(variant@);
    let mut i: usize = 0;
    while i < daisies.len()
        invariant
            i <= daisies@.len(),
            s == views(daisies@),
            p == of_variant(variant@),
            forall|j: int| 0 <= j < i ==> !p(#[trigger] s[j]),
        decreases daisies@.len() - i,
    {
        assert(s[i as int] == daisies@[i as int]@);
        if same(daisies[i].variant.as_str(), variant) {
            proof {
                assert(is_first(s, p, i as int));
                lemma_first(s, p, i as int);
            }
            return Some(daisies[i].duplicate());
        }
        i += 1;
    }
    proof {
        lemma_no_first(s, p);
    }
    None
}

/// The modes of a pad.
pub fn find_alt_modes(
    mux_enum_name: &str,
    mux_enum: &Enum,
    gpio: &str,
    daisies: &Vec<Daisy>,
) -> (r: Result<Vec<AltMode>, MuxFault>)
    ensures
        is_list(
            r,
            collect(
                mux_enum@.variants,
                alt_mode_of(mux_enum_name@, gpio@, views(daisies@)),
            ),
        ),
{
    let ghost all = mux_enum@.variants;
    let ghost f = alt_mode_of(mux_enum_name@, gpio@, views(daisies@));
    let mut r: Vec<AltMode> = Vec::new();
    assert(views(r@) =~= Seq::<AltModeView>::empty());
    let mut i: usize = 0;
    while i < mux_enum.variants.len()
        invariant
            i <= all.len(),
            all == views(mux_enum.variants@),
            f == alt_mode_of(mux_enum_name@, gpio@, views(daisies@)),
            collect(all.take(i as int), f) == Ok::<Seq<AltModeView>, MuxFault>(views(r@)),
        decreases all.len() - i,
    {
        let ghost before = r@;
        let variant = &mux_enum.variants[i];
        proof {
            assert(all[i as int] == variant@);
            lemma_collect_step(all, f, i as int);
        }
        match split_once(variant.name.as_str(), "_") {
            Some((alt, _)) => {
                let wanted = "SELECT_".to_owned().concat(gpio).concat("_").concat(alt.as_str());
                r.push(
                    AltMode {
                        mux_enum: mux_enum_name.to_owned(),
                        mux_variant: variant.name.clone(),
                        daisy: find_daisy(daisies, wanted.as_str()),
                    },
                );
            },
            None => {
                return Err(MuxFault::BadModeName);
            },
        }
        assert(views(r@) =~= views(before).push(r@.last()@));
        i += 1;
    }
    assert(all.take(i as int) =~= all);
    Ok(r)
}

/// The registers that have this fieldset.
pub open spec fn with_fieldset(fs_name: Seq<char>) -> spec_fn(BlockItemView) -> bool {
    |i: BlockItemView|
        match i.inner {
            BlockItemInnerView::Register { fieldset: Some(f), .. } => f == fs_name,
            _ => false,
        }
}

/// The name of the first register of a block that has this fieldset.
pub open spec fn register_of(block: BlockView, fs_name: Seq<char>) -> Option<Seq<char>> {
    match first(block.items, with_fieldset(fs_name)) {
        Some(item) => Some(item.name),
        None => None,
    }
}

/// The name of the first register of a block that has this fieldset.
pub fn find_register(block: &Block, fs_name: &str) -> (r: Option<String>)
    ensures
        opt_chars(r) == register_of(block@, fs_name@),
{
    let ghost s = block@.items;
    let ghost p = with_fieldset(fs_name@);
    let mut i: usize = 0;
    while i < block.items.len()
        invariant
            i <= s.len(),
            s == views(block.items@),
            p == with_fieldset(fs_name@),
            s == block@.items,
            forall|j: int| 0 <= j < i ==> !p(#[trigger] s[j]),
        decreases s.len() - i,
    {
        let item = &block.items[i];
        assert(s[i as int] == item@);
        if let BlockItemInner::Register(register) = &item.inner {
            if let Some(f) = &register.fieldset {
                if same(f.as_str(), fs_name) {
                    proof {
                        assert(is_first(s, p, i as int));
                        lemma_first(s, p, i as int);
                    }
                    return Some(item.name.clone());
                }
            }
        }
        i += 1;
    }
    proof {
        lemma_no_first(s, p);
    }
    None
}

/// What a mode has to write: in which block and register, and which variant of
/// which enum.
#[derive(Debug)]
pub struct MuxArm {
    pub mux_enum: String,
    pub mux_variant: String,
    pub daisy_block: Iomux,
    pub daisy_register: String,
    pub daisy_enum: String,
    pub daisy_variant: String,
}

/// What an arm holds.
#[verifier::ext_equal]
pub struct MuxArmView {
    pub mux_enum: Seq<char>,
    pub mux_variant: Seq<char>,
    pub daisy_block: Iomux,
    pub daisy_register: Seq<char>,
    pub daisy_enum: Seq<char>,
    pub daisy_variant: Seq<char>,
}

impl View for MuxArm {
    type V = MuxArmView;

    open spec fn view(&self) -> MuxArmView {
        MuxArmView {
            mux_enum: self.mux_enum@,
            mux_variant: self.mux_variant@,
            daisy_block: self.daisy_block,
            daisy_register: self.daisy_register@,
            daisy_enum: self.daisy_enum@,
            daisy_variant: self.daisy_variant@,
        }
    }
}

/// The block and register of a daisy fieldset. Daisy registers are spread over
/// both blocks; the first block is searched first.
pub open spec fn daisy_register_of(
    iomuxc: BlockView,
    aon: BlockView,
    fs_name: Seq<char>,
) -> Option<(Iomux, Seq<char>)> {
    match register_of(iomuxc, fs_name) {
        Some(name) => Some((Iomux::Iomuxc, name)),
        None => match register_of(aon, fs_name) {
            Some(name) => Some((Iomux::IomuxcAon, name)),
            None => None,
        },
    }
}

/// The arm of a mode with its daisy setting. The enum is named without its path.
pub open spec fn arm_of(iomuxc: BlockView, aon: BlockView) -> spec_fn(
    (AltModeView, DaisyView),
) -> Result<MuxArmView, MuxFault> {
    |p: (AltModeView, DaisyView)|
        match daisy_register_of(iomuxc, aon, p.1.fs_name) {
            Some((block, register)) => Ok(
                MuxArmView {
                    mux_enum: p.0.mux_enum,
                    mux_variant: p.0.mux_variant,
                    daisy_block: block,
                    daisy_register: register,
                    daisy_enum: split(p.1.enumm, "::"@).last(),
                    daisy_variant: p.1.variant,
                },
            ),
            None => Err(MuxFault::MissingDaisyRegister),
        }
}

/// A mode with its daisy setting, if it has one.
pub open spec fn with_daisy() -> spec_fn(AltModeView) -> Seq<(AltModeView, DaisyView)> {
    |a: AltModeView|
        match a.daisy {
            Some(d) => seq![(a, d)],
            None => seq![],
        }
}

/// The arms of the modes that have a daisy setting.
pub open spec fn arms_of(
    iomuxc: BlockView,
    aon: BlockView,
    modes: Seq<AltModeView>,
) -> Result<Seq<MuxArmView>, MuxFault> {
    collect(gather(modes, with_daisy()), arm_of(iomuxc, aon))
}

/// The block and register of a daisy fieldset.
fn find_daisy_register(iomuxc: &Block, aon: &Block, fs_name: &str) -> (r: Option<(Iomux, String)>)
    ensures
        match r {
            Some((block, name)) => daisy_register_of(iomuxc@, aon@, fs_name@) == Some((block, name@)),
            None => daisy_register_of(iomuxc@, aon@, fs_name@) is None,
        },
{
    match find_register(iomuxc, fs_name) {
        Some(name) => Some((Iomux::Iomuxc, name)),
        None => match find_register(aon, fs_name) {
            Some(name) => Some((Iomux::IomuxcAon, name)),
            None => None,
        },
    }
}

/// The last part of a path.
fn last_part(path: &str) -> (r: String)
    ensures
        r@ == split(path@, "::"@).last(),
{
    proof {
        reveal_strlit("::");
    }
    let parts = split_at_each(path, "::");
    let ghost pieces = all_chars(parts@);
    assert(pieces.len() > 0);
    assert(pieces.last() == parts@[parts@.len() - 1]@);
    parts[parts.len() - 1].clone()
}

/// The arms of the modes that have a daisy setting.
pub fn find_arms(iomuxc: &Block, aon: &Block, modes: &Vec<AltMode>) -> (r: Result<
    Vec<MuxArm>,
    MuxFault,
>)
    ensures
        is_list(r, arms_of(iomuxc@, aon@, views(modes@))),
{
    let ghost all = views(modes@);
    let ghost g = with_daisy();
    let ghost f = arm_of(iomuxc@, aon@);
    let mut r: Vec<MuxArm> = Vec::new();
    assert(views(r@) =~= Seq::<MuxArmView>::empty());
    let mut i: usize = 0;
    while i < modes.len()
        invariant
            i <= all.len(),
            all == views(modes@),
            g == with_daisy(),
            f == arm_of(iomuxc@, aon@),
            collect(gather(all.take(i as int), g), f) == Ok::<Seq<MuxArmView>, MuxFault>(
                views(r@),
            ),
        decreases all.len() - i,
    {
        let mode = &modes[i];
        let ghost before = r@;
        let ghost done = gather(all.take(i as int), g);
        let ghost next = gather(all.take(i + 1), g);
        proof {
            assert(all[i as int] == mode@);
            lemma_gather_step(all, g, i as int);
        }
        if let Some(daisy) = &mode.daisy {
            assert(next =~= done.push((mode@, daisy@)));
            assert(next.drop_last() =~= done);
            match find_daisy_register(iomuxc, aon, daisy.fs_name.as_str()) {
                Some((block, register)) => {
                    r.push(
                        MuxArm {
                            mux_enum: mode.mux_enum.clone(),
                            mux_variant: mode.mux_variant.clone(),
                            daisy_block: block,
                            daisy_register: register,
                            daisy_enum: last_part(daisy.enumm.as_str()),
                            daisy_variant: daisy.variant.clone(),
                        },
                    );
                    assert(views(r@) =~= views(before).push(r@.last()@));
                },
                None => {
                    proof {
                        lemma_gather_prefix(all, g, i + 1);
                        lemma_collect_fails(
                            gather(all, g),
                            f,
                            next.len() as int,
                            MuxFault::MissingDaisyRegister,
                        );
                    }
                    return Err(MuxFault::MissingDaisyRegister);
                },
            }
        } else {
            assert(next =~= done);
        }
        i += 1;
    }
    assert(all.take(i as int) =~= all);
    Ok(r)
}

/// The code that selects the mode of a pad, in parts.
#[derive(Debug)]
pub struct Mux {
    /// The type that stands for the pad.
    pub gpio: String,
    /// The enum of the modes.
    pub mux_enum: String,
    /// The block of the register that holds the mode.
    pub iomux: Iomux,
    /// The register that holds the mode.
    pub register: String,
    /// What the modes have to write besides.
    pub arms: Vec<MuxArm>,
}

/// What the code holds.
#[verifier::ext_equal]
pub struct MuxView {
    pub gpio: Seq<char>,
    pub mux_enum: Seq<char>,
    pub iomux: Iomux,
    pub register: Seq<char>,
    pub arms: Seq<MuxArmView>,
}

impl View for Mux {
    type V = MuxView;

    open spec fn view(&self) -> MuxView {
        MuxView {
            gpio: self.gpio@,
            mux_enum: self.mux_enum@,
            iomux: self.iomux,
            register: self.register@,
            arms: views(self.arms@),
        }
    }
}

impl Mux {
    /// Whether the code has to look at the mode to set daisy registers.
    pub fn sets_daisies(&self) -> (r: bool)
        ensures
            r == (self@.arms.len() > 0),
    {
        self.arms.len() > 0
    }
}

/// The enum of the modes of a pad, without its path.
pub open spec fn mux_enum_of(pad: PadView) -> Seq<char> {
    pad.reg + "MuxMode"@
}

/// The enum of the modes of a pad, with its path.
pub open spec fn mux_enum_path(pad: PadView) -> Seq<char> {
    pad.instance + "::vals::"@ + mux_enum_of(pad)
}

/// The code for a pad whose pin is named `gpio` in full.
pub open spec fn mux_for(
    ir: IrView,
    iomuxc: BlockView,
    aon: BlockView,
    fs_name: Seq<char>,
    pad: PadView,
    iomux: Iomux,
    gpio: Seq<char>,
) -> Result<MuxView, MuxFault> {
    match lookup(ir.enums, mux_enum_path(pad)) {
        None => Err(MuxFault::MissingMuxEnum),
        Some(mux_enum) => match daisies_of(ir, gpio) {
            Err(e) => Err(e),
            Ok(daisies) => match collect(
                mux_enum.variants,
                alt_mode_of(mux_enum_of(pad), gpio, daisies),
            ) {
                Err(e) => Err(e),
                Ok(modes) => match arms_of(iomuxc, aon, modes) {
                    Err(e) => Err(e),
                    Ok(arms) => match register_of(
                        if iomux is Iomuxc {
                            iomuxc
                        } else {
                            aon
                        },
                        fs_name,
                    ) {
                        None => Err(
                            if arms.len() == 0 {
                                MuxFault::MissingMuxRegisterAndDaisies
                            } else {
                                MuxFault::MissingMuxRegister
                            },
                        ),
                        Some(register) => Ok(
                            MuxView {
                                gpio: pad.struct_name,
                                mux_enum: mux_enum_of(pad),
                                iomux,
                                register,
                                arms,
                            },
                        ),
                    },
                },
            },
        },
    }
}

/// Makes the code for a pad whose pin is named `gpio` in full.
pub fn make_mux(
    ir: &IR,
    iomuxc: &Block,
    aon: &Block,
    fs_name: &str,
    pad: &Pad,
    iomux: Iomux,
    gpio: &str,
) -> (r: Result<Mux, MuxFault>)
    ensures
        match r {
            Ok(mux) => mux_for(ir@, iomuxc@, aon@, fs_name@, pad@, iomux, gpio@) == Ok::<
                MuxView,
                MuxFault,
            >(mux@),
            Err(e) => mux_for(ir@, iomuxc@, aon@, fs_name@, pad@, iomux, gpio@) == Err::<
                MuxView,
                MuxFault,
            >(e),
        },
{
    let mux_enum_name = pad.reg.clone().concat("MuxMode");
    let mux_enum_key = pad.instance.clone().concat("::vals::").concat(mux_enum_name.as_str());
    let mux_enum = match ir.enums.get(mux_enum_key.as_str()) {
        Some(mux_enum) => mux_enum,
        None => {
            return Err(MuxFault::MissingMuxEnum);
        },
    };
    let daisies = match find_daisies(ir, gpio) {
        Ok(daisies) => daisies,
        Err(e) => {
            return Err(e);
        },
    };
    let modes = match find_alt_modes(mux_enum_name.as_str(), mux_enum, gpio, &daisies) {
        Ok(modes) => modes,
        Err(e) => {
            return Err(e);
        },
    };
    let arms = match find_arms(iomuxc, aon, &modes) {
        Ok(arms) => arms,
        Err(e) => {
            return Err(e);
        },
    };
    let home = match iomux {
        Iomux::Iomuxc => iomuxc,
        Iomux::IomuxcAon => aon,
    };
    match find_register(home, fs_name) {
        Some(register) => Ok(
            Mux {
                gpio: pad.struct_name.clone(),
                mux_enum: mux_enum_name,
                iomux,
                register,
                arms,
            },
        ),
        None => if arms.len() == 0 {
            Err(MuxFault::MissingMuxRegisterAndDaisies)
        } else {
            Err(MuxFault::MissingMuxRegister)
        },
    }
}

/// The code for the pad of a fieldset, if the fieldset is the mux fieldset of a
/// pad that is no dummy.
pub open spec fn mux_of(ir: IrView, fs_name: Seq<char>) -> Result<Option<MuxView>, MuxFault> {
    match pad_of(fs_name) {
        None => Ok(None),
        Some(pad) => match (
            lookup(ir.blocks, "iomuxc::Iomuxc"@),
            lookup(ir.blocks, "iomuxc_aon::IomuxcAon"@),
        ) {
            (Some(iomuxc), Some(aon)) => match iomux_named(lowercase(pad.instance)) {
                None => Err(MuxFault::UnknownInstance),
                Some(iomux) => match pin_of(pad.struct_name) {
                    Err(e) => Err(e),
                    Ok(None) => Ok(None),
                    Ok(Some(pin)) => match mux_for(
                        ir,
                        iomuxc,
                        aon,
                        fs_name,
                        pad,
                        iomux,
                        gpio_name(uppercase(pin.bank), pin.num),
                    ) {
                        Ok(mux) => Ok(Some(mux)),
                        Err(e) => Err(e),
                    },
                },
            },
            _ => Err(MuxFault::MissingMuxBlock),
        },
    }
}

/// Whether `r` is the code `m`, or the same fault.
pub open spec fn is_mux(
    r: Result<Option<Mux>, MuxFault>,
    m: Result<Option<MuxView>, MuxFault>,
) -> bool {
    match r {
        Ok(mux) => m == Ok::<Option<MuxView>, MuxFault>(opt_view(mux)),
        Err(e) => m == Err::<Option<MuxView>, MuxFault>(e),
    }
}

/// Makes the code for the pad of a fieldset.
pub fn for_one_mux(fs_name: &str, ir: &IR) -> (r: Result<Option<Mux>, MuxFault>)
    ensures
        is_mux(r, mux_of(ir@, fs_name@)),
{
    let pad = match read_pad(fs_name) {
        Some(pad) => pad,
        None => {
            return Ok(None);
        },
    };
    let (iomuxc, aon) = match (
        ir.blocks.get("iomuxc::Iomuxc"),
        ir.blocks.get("iomuxc_aon::IomuxcAon"),
    ) {
        (Some(iomuxc), Some(aon)) => (iomuxc, aon),
        _ => {
            return Err(MuxFault::MissingMuxBlock);
        },
    };
    let lowered = pad.instance.as_str().to_lowercase();
    let iomux = match find_iomux(lowered.as_str()) {
        Some(iomux) => iomux,
        None => {
            return Err(MuxFault::UnknownInstance);
        },
    };
    let pin = match read_pin(pad.struct_name.as_str()) {
        Ok(Some(pin)) => pin,
        Ok(None) => {
            return Ok(None);
        },
        Err(e) => {
            return Err(e);
        },
    };
    let bank = pin.bank.as_str().to_uppercase();
    let gpio = full_pin_name(bank.as_str(), pin.num.as_str());
    match make_mux(ir, iomuxc, aon, fs_name, &pad, iomux, gpio.as_str()) {
        Ok(mux) => Ok(Some(mux)),
        Err(e) => Err(e),
    }
}

} // verus!
