//! The FIX 4.4 dictionary of `fefix`, as far as this crate reads it: the name
//! of a field by its tag, the tag of a field by its name, and whether a field
//! carries a length or a repeating-group count.
use vstd::prelude::*;

verus! {

#[verifier::external_type_specification]
#[verifier::external_body]
pub struct ExDictionary(fefix::Dictionary);

/// How the tag-value decoder treats a field, according to its data type.
#[derive(Clone, Copy, Debug, PartialEq, Eq, Structural)]
pub enum FieldClass {
    /// `Length`: the value gives the byte length of the next field's value.
    Length,
    /// `NumInGroup`: the value counts the entries of a repeating group.
    NumInGroup,
    /// Any other data type, or a tag that the dictionary does not know.
    Other,
}

/// The name of the FIX 4.4 field with tag `tag`, if the dictionary has one.
pub uninterp spec fn fix44_field_name(tag: u32) -> Option<Seq<char>>;

/// The tag of the FIX 4.4 field named `name`, if the dictionary has one.
pub uninterp spec fn fix44_field_tag(name: Seq<char>) -> Option<u16>;

/// The class of the data type of the FIX 4.4 field with tag `tag`.
pub uninterp spec fn fix44_field_class(tag: u16) -> FieldClass;

/// The FIX 4.4 dictionary. Its only field is set by `new`, from
/// `fefix::Dictionary::fix44()`, and never changed: the lookups below are
/// therefore lookups in the FIX 4.4 dictionary.
pub(crate) struct Fix44Dictionary {
    dict: fefix::Dictionary,
}

impl Fix44Dictionary {
    /// Builds the dictionary with `fefix::Dictionary::fix44()`, which reads the
    /// QuickFIX specification of FIX 4.4 that `fefix` embeds. Nothing is
    /// promised of the value beyond the lookups of the methods below.
    #[verifier::external_body]
    pub(crate) fn new() -> (d: Self) {
        Fix44Dictionary { dict: fefix::Dictionary::fix44() }
    }

    /// A copy of the underlying `fefix` dictionary (it is reference counted).
    #[verifier::external_body]
    pub(crate) fn inner(&self) -> (d: fefix::Dictionary) {
        self.dict.clone()
    }

    /// Calls `fefix::Dictionary::field_by_tag` and takes the field's name:
    /// the result is the dictionary's name for `tag`, named
    /// `fix44_field_name`. Field tags and names are unique in a dictionary
    /// (as `fefix` documents), and tags are `u16`, so the field named so has
    /// this tag.
    #[verifier::external_body]
    pub(crate) fn name_of_tag(&self, tag: u32) -> (r: Option<String>)
        ensures
            match r {
                Some(s) => fix44_field_name(tag) == Some(s@),
                None => fix44_field_name(tag) is None,
            },
            r matches Some(s) ==> tag <= u16::MAX && fix44_field_tag(s@) == Some(tag as u16),
    {
        self.dict.field_by_tag(tag).map(|f| f.name().to_string())
    }

    /// Calls `fefix::Dictionary::field_by_name` and takes the field's tag: the
    /// result is the dictionary's tag for `name`, named `fix44_field_tag`. A
    /// tag is a `TagU16`, a `NonZeroU16`, so it is never 0; and since names
    /// and tags are unique, the field with this tag has this name.
    #[verifier::external_body]
    pub(crate) fn tag_of_name(&self, name: &str) -> (r: Option<u16>)
        ensures
            r == fix44_field_tag(name@),
            r matches Some(t) ==> t != 0,
            r matches Some(t) ==> fix44_field_name(t as u32) == Some(name@),
    {
        self.dict.field_by_name(name).map(|f| f.tag().get())
    }

    /// Calls `fefix::Dictionary::field_by_tag` and reads the base type of the
    /// field's data type, as the tag-value decoder of `fefix` does when it
    /// builds its table of `Length` and `NumInGroup` fields. The result is
    /// named `fix44_field_class`.
    #[verifier::external_body]
    pub(crate) fn class_of_tag(&self, tag: u16) -> (r: FieldClass)
        ensures
            r == fix44_field_class(tag),
    {
        match self.dict.field_by_tag(tag as u32).map(|f| f.data_type().basetype()) {
            Some(fefix::dict::FixDatatype::Length) => FieldClass::Length,
            Some(fefix::dict::FixDatatype::NumInGroup) => FieldClass::NumInGroup,
            _ => FieldClass::Other,
        }
    }
}

} // verus!
