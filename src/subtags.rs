//! Byte classes and the subtag kinds of a BCP-47 language tag.

use vstd::prelude::*;

verus! {

/// Errors of the language identifier parser.
#[derive(PartialEq, Eq, Structural, Clone, Copy, Debug)]
pub enum ParserError {
    /// The first subtag is missing or is not a language subtag.
    InvalidLanguage,
    /// A subtag is malformed or stands where the grammar allows no such subtag.
    InvalidSubtag,
    /// An extension subtag is malformed.
    InvalidExtension,
}

pub open spec fn is_alpha(b: u8) -> bool {
    (65 <= b && b <= 90) || (97 <= b && b <= 122)
}

pub open spec fn is_digit(b: u8) -> bool {
    48 <= b && b <= 57
}

pub open spec fn is_alnum(b: u8) -> bool {
    is_alpha(b) || is_digit(b)
}

pub open spec fn is_ascii_nonzero(b: u8) -> bool {
    1 <= b && b <= 127
}

pub open spec fn to_lower(b: u8) -> u8 {
    if 65 <= b && b <= 90 {
        (b + 32) as u8
    } else {
        b
    }
}

pub open spec fn to_upper(b: u8) -> u8 {
    if 97 <= b && b <= 122 {
        (b - 32) as u8
    } else {
        b
    }
}

pub open spec fn all_alpha(t: Seq<u8>) -> bool {
    forall|i: int| 0 <= i < t.len() ==> is_alpha(#[trigger] t[i])
}

pub open spec fn all_digit(t: Seq<u8>) -> bool {
    forall|i: int| 0 <= i < t.len() ==> is_digit(#[trigger] t[i])
}

pub open spec fn all_alnum(t: Seq<u8>) -> bool {
    forall|i: int| 0 <= i < t.len() ==> is_alnum(#[trigger] t[i])
}

pub open spec fn all_ascii(t: Seq<u8>) -> bool {
    forall|i: int| 0 <= i < t.len() ==> is_ascii_nonzero(#[trigger] t[i])
}

pub open spec fn lower_seq(t: Seq<u8>) -> Seq<u8> {
    case_seq(CaseForm::Lower, t)
}

pub open spec fn upper_seq(t: Seq<u8>) -> Seq<u8> {
    case_seq(CaseForm::Upper, t)
}

pub open spec fn title_seq(t: Seq<u8>) -> Seq<u8> {
    case_seq(CaseForm::Title, t)
}

/// A language subtag: two, three or five to eight letters.
pub open spec fn valid_language(t: Seq<u8>) -> bool {
    ((2 <= t.len() && t.len() <= 3) || (5 <= t.len() && t.len() <= 8)) && all_alpha(t)
}

/// A script subtag: four letters.
pub open spec fn valid_script(t: Seq<u8>) -> bool {
    t.len() == 4 && all_alpha(t)
}

/// A region subtag: two letters or three digits.
pub open spec fn valid_region(t: Seq<u8>) -> bool {
    (t.len() == 2 && all_alpha(t)) || (t.len() == 3 && all_digit(t))
}

/// A variant subtag: five to eight letters or digits, or four that start with a digit.
pub open spec fn valid_variant(t: Seq<u8>) -> bool {
    4 <= t.len() && t.len() <= 8 && all_alnum(t) && (t.len() != 4 || is_digit(t[0]))
}

/// A key of the Unicode extension: a letter or digit, then a letter.
pub open spec fn valid_key(t: Seq<u8>) -> bool {
    t.len() == 2 && is_alnum(t[0]) && is_alpha(t[1])
}

/// An attribute of the Unicode extension: three to eight letters or digits.
pub open spec fn valid_attribute(t: Seq<u8>) -> bool {
    3 <= t.len() && t.len() <= 8 && all_alnum(t)
}

pub open spec fn norm_language(t: Seq<u8>) -> Seq<u8> {
    lower_seq(t)
}

pub open spec fn norm_script(t: Seq<u8>) -> Seq<u8> {
    title_seq(t)
}

pub open spec fn norm_region(t: Seq<u8>) -> Seq<u8> {
    if t.len() == 2 {
        upper_seq(t)
    } else {
        t
    }
}

pub open spec fn norm_variant(t: Seq<u8>) -> Seq<u8> {
    lower_seq(t)
}

pub fn byte_is_alpha(b: u8) -> (r: bool)
    ensures
        r == is_alpha(b),
{
    (65 <= b && b <= 90) || (97 <= b && b <= 122)
}

pub fn byte_is_digit(b: u8) -> (r: bool)
    ensures
        r == is_digit(b),
{
    48 <= b && b <= 57
}

pub fn byte_is_alnum(b: u8) -> (r: bool)
    ensures
        r == is_alnum(b),
{
    byte_is_alpha(b) || byte_is_digit(b)
}

pub fn byte_to_lower(b: u8) -> (r: u8)
    ensures
        r == to_lower(b),
{
    if 65 <= b && b <= 90 {
        b + 32
    } else {
        b
    }
}

pub fn byte_to_upper(b: u8) -> (r: u8)
    ensures
        r == to_upper(b),
{
    if 97 <= b && b <= 122 {
        b - 32
    } else {
        b
    }
}

/// How the bytes of a subtag are brought to their canonical case.
#[derive(PartialEq, Eq, Structural, Clone, Copy, Debug)]
pub enum CaseForm {
    Lower,
    Upper,
    Title,
}

pub open spec fn case_byte(form: CaseForm, i: int, b: u8) -> u8 {
    match form {
        CaseForm::Lower => to_lower(b),
        CaseForm::Upper => to_upper(b),
        CaseForm::Title => if i == 0 {
            to_upper(b)
        } else {
            to_lower(b)
        },
    }
}

pub open spec fn case_seq(form: CaseForm, t: Seq<u8>) -> Seq<u8> {
    t.map(|i: int, b: u8| case_byte(form, i, b))
}

/// A copy of `bytes[start..end]` brought to the case `form`.
pub fn copy_in_case(bytes: &[u8], start: usize, end: usize, form: CaseForm) -> (r: Vec<u8>)
    requires
        start <= end <= bytes@.len(),
    ensures
        r@ == case_seq(form, bytes@.subrange(start as int, end as int)),
{
    let mut out: Vec<u8> = Vec::new();
    let mut i: usize = start;
    while i < end
        invariant
            start <= i <= end <= bytes@.len(),
            out@ == case_seq(form, bytes@.subrange(start as int, i as int)),
        decreases end - i,
    {
        let b = bytes[i];
        let c = match form {
            CaseForm::Lower => byte_to_lower(b),
            CaseForm::Upper => byte_to_upper(b),
            CaseForm::Title => if i == start {
                byte_to_upper(b)
            } else {
                byte_to_lower(b)
            },
        };
        out.push(c);
        assert(out@ =~= case_seq(form, bytes@.subrange(start as int, i + 1)));
        i = i + 1;
    }
    out
}

/// The type of a Unicode extension keyword: `None` for `true`, else the
/// value in lower case.
pub open spec fn value_spec(t: Seq<u8>) -> Result<Option<Seq<u8>>, ParserError> {
    if t.len() < 3 || t.len() > 8 {
        Err(ParserError::InvalidExtension)
    } else if !all_ascii(t) {
        Err(ParserError::InvalidSubtag)
    } else if t == seq![116u8, 114u8, 117u8, 101u8] {
        Ok(None)
    } else if all_alnum(t) {
        Ok(Some(lower_seq(t)))
    } else {
        Err(ParserError::InvalidExtension)
    }
}

/// The kind of extension that a singleton subtag opens.
#[derive(PartialEq, Eq, Structural, Clone, Copy, Debug)]
pub enum ExtensionType {
    Unicode,
    Transform,
    Private,
    Other(u8),
}

pub open spec fn extension_type_spec(t: Seq<u8>) -> Result<ExtensionType, ParserError> {
    if t.len() != 1 {
        Err(ParserError::InvalidExtension)
    } else {
        let k = to_lower(t[0]);
        if k == 117u8 {
            Ok(ExtensionType::Unicode)
        } else if k == 116u8 {
            Ok(ExtensionType::Transform)
        } else if k == 120u8 {
            Ok(ExtensionType::Private)
        } else if 97u8 <= k && k <= 122u8 {
            Ok(ExtensionType::Other(k))
        } else {
            Err(ParserError::InvalidExtension)
        }
    }
}

impl ExtensionType {
    /// Reads the singleton `bytes[start..end]`.
    pub fn try_from_bytes_manual_slice(bytes: &[u8], start: usize, end: usize) -> (r: Result<
        ExtensionType,
        ParserError,
    >)
        requires
            start <= end <= bytes@.len(),
        ensures
            r == extension_type_spec(bytes@.subrange(start as int, end as int)),
    {
        if end - start != 1 {
            return Err(ParserError::InvalidExtension);
        }
        let k = byte_to_lower(bytes[start]);
        if k == 117u8 {
            Ok(ExtensionType::Unicode)
        } else if k == 116u8 {
            Ok(ExtensionType::Transform)
        } else if k == 120u8 {
            Ok(ExtensionType::Private)
        } else if 97u8 <= k && k <= 122u8 {
            Ok(ExtensionType::Other(k))
        } else {
            Err(ParserError::InvalidExtension)
        }
    }
}

/// Whether `bytes[start..end]` is an attribute of the Unicode extension.
pub fn is_attribute(bytes: &[u8], start: usize, end: usize) -> (r: bool)
    requires
        start <= end <= bytes@.len(),
    ensures
        r == valid_attribute(bytes@.subrange(start as int, end as int)),
{
    let len = end - start;
    3 <= len && len <= 8 && range_all_alnum(bytes, start, end)
}

/// Parses the type subtag `bytes[start..end]` of a Unicode extension keyword.
pub fn parse_value_subtag(bytes: &[u8], start: usize, end: usize) -> (r: Result<
    Option<Vec<u8>>,
    ParserError,
>)
    requires
        start <= end <= bytes@.len(),
    ensures
        match value_spec(bytes@.subrange(start as int, end as int)) {
            Ok(Some(v)) => r matches Ok(Some(w)) && w@ == v,
            Ok(None) => r matches Ok(None),
            Err(e) => r == Err::<Option<Vec<u8>>, ParserError>(e),
        },
{
    let ghost t = bytes@.subrange(start as int, end as int);
    let len = end - start;
    if len < 3 || len > 8 {
        return Err(ParserError::InvalidExtension);
    }
    let mut i: usize = start;
    while i < end
        invariant
            start <= i <= end <= bytes@.len(),
            t == bytes@.subrange(start as int, end as int),
            3 <= end - start <= 8,
            forall|j: int| start <= j < i ==> is_ascii_nonzero(#[trigger] bytes@[j]),
        decreases end - i,
    {
        if bytes[i] == 0 || bytes[i] > 127 {
            assert(t[i - start] == bytes@[i as int]);
            assert(!all_ascii(t));
            return Err(ParserError::InvalidSubtag);
        }
        i = i + 1;
    }
    assert(all_ascii(t)) by {
        assert forall|j: int| 0 <= j < t.len() implies is_ascii_nonzero(#[trigger] t[j]) by {
            assert(t[j] == bytes@[start + j]);
        }
    }
    if len == 4 && bytes[start] == 116u8 && bytes[start + 1] == 114u8 && bytes[start + 2] == 117u8
        && bytes[start + 3] == 101u8 {
        assert(t =~= seq![116u8, 114u8, 117u8, 101u8]);
        return Ok(None);
    }
    assert(t != seq![116u8, 114u8, 117u8, 101u8]) by {
        if t == seq![116u8, 114u8, 117u8, 101u8] {
            assert(t[0] == bytes@[start as int]);
            assert(t[1] == bytes@[start + 1]);
            assert(t[2] == bytes@[start + 2]);
            assert(t[3] == bytes@[start + 3]);
        }
    }
    if range_all_alnum(bytes, start, end) {
        Ok(Some(copy_in_case(bytes, start, end, CaseForm::Lower)))
    } else {
        Err(ParserError::InvalidExtension)
    }
}

/// Whether every byte of `bytes[start..end]` is a letter.
pub fn range_all_alpha(bytes: &[u8], start: usize, end: usize) -> (r: bool)
    requires
        start <= end <= bytes@.len(),
    ensures
        r == all_alpha(bytes@.subrange(start as int, end as int)),
{
    let mut i: usize = start;
    while i < end
        invariant
            start <= i <= end <= bytes@.len(),
            forall|j: int| start <= j < i ==> is_alpha(#[trigger] bytes@[j]),
        decreases end - i,
    {
        if !byte_is_alpha(bytes[i]) {
            assert(!is_alpha(bytes@.subrange(start as int, end as int)[i - start]));
            return false;
        }
        i = i + 1;
    }
    assert forall|j: int| 0 <= j < end - start implies is_alpha(
        #[trigger] bytes@.subrange(start as int, end as int)[j],
    ) by {
        assert(bytes@.subrange(start as int, end as int)[j] == bytes@[start + j]);
    }
    true
}

/// Whether every byte of `bytes[start..end]` is a digit.
pub fn range_all_digit(bytes: &[u8], start: usize, end: usize) -> (r: bool)
    requires
        start <= end <= bytes@.len(),
    ensures
        r == all_digit(bytes@.subrange(start as int, end as int)),
{
    let mut i: usize = start;
    while i < end
        invariant
            start <= i <= end <= bytes@.len(),
            forall|j: int| start <= j < i ==> is_digit(#[trigger] bytes@[j]),
        decreases end - i,
    {
        if !byte_is_digit(bytes[i]) {
            assert(!is_digit(bytes@.subrange(start as int, end as int)[i - start]));
            return false;
        }
        i = i + 1;
    }
    assert forall|j: int| 0 <= j < end - start implies is_digit(
        #[trigger] bytes@.subrange(start as int, end as int)[j],
    ) by {
        assert(bytes@.subrange(start as int, end as int)[j] == bytes@[start + j]);
    }
    true
}

/// Whether every byte of `bytes[start..end]` is a letter or a digit.
pub fn range_all_alnum(bytes: &[u8], start: usize, end: usize) -> (r: bool)
    requires
        start <= end <= bytes@.len(),
    ensures
        r == all_alnum(bytes@.subrange(start as int, end as int)),
{
    let mut i: usize = start;
    while i < end
        invariant
            start <= i <= end <= bytes@.len(),
            forall|j: int| start <= j < i ==> is_alnum(#[trigger] bytes@[j]),
        decreases end - i,
    {
        if !byte_is_alnum(bytes[i]) {
            assert(!is_alnum(bytes@.subrange(start as int, end as int)[i - start]));
            return false;
        }
        i = i + 1;
    }
    assert forall|j: int| 0 <= j < end - start implies is_alnum(
        #[trigger] bytes@.subrange(start as int, end as int)[j],
    ) by {
        assert(bytes@.subrange(start as int, end as int)[j] == bytes@[start + j]);
    }
    true
}

/// A language subtag, in lower case.
#[derive(Clone, Debug, PartialEq, Eq, Hash, PartialOrd, Ord)]
pub struct Language {
    bytes: Vec<u8>,
}

impl View for Language {
    type V = Seq<u8>;

    closed spec fn view(&self) -> Seq<u8> {
        self.bytes@
    }
}

impl Language {
    /// Parses `bytes[start..end]` and brings it to its canonical case.
    pub fn try_from_bytes_manual_slice(bytes: &[u8], start: usize, end: usize) -> (r: Result<
        Language,
        ParserError,
    >)
        requires
            start <= end <= bytes@.len(),
        ensures
            r is Ok <==> valid_language(bytes@.subrange(start as int, end as int)),
            r is Ok ==> r->Ok_0@ == norm_language(bytes@.subrange(start as int, end as int)),
            r is Err ==> r->Err_0 == ParserError::InvalidLanguage,
    {
        let len = end - start;
        if ((2 <= len && len <= 3) || (5 <= len && len <= 8)) && range_all_alpha(bytes, start, end) {
            let form = CaseForm::Lower;
            Ok(Language { bytes: copy_in_case(bytes, start, end, form) })
        } else {
            Err(ParserError::InvalidLanguage)
        }
    }

    /// Parses a whole byte string.
    pub fn try_from_bytes(bytes: &[u8]) -> (r: Result<Language, ParserError>)
        ensures
            r is Ok <==> valid_language(bytes@),
            r is Ok ==> r->Ok_0@ == norm_language(bytes@),
            r is Err ==> r->Err_0 == ParserError::InvalidLanguage,
    {
        assert(bytes@.subrange(0, bytes@.len() as int) =~= bytes@);
        Language::try_from_bytes_manual_slice(bytes, 0, bytes.len())
    }

    /// The subtag's bytes in canonical case.
    pub fn as_bytes(&self) -> (r: &[u8])
        ensures
            r@ == self@,
    {
        self.bytes.as_slice()
    }
}

/// A script subtag, in title case.
#[derive(Clone, Debug, PartialEq, Eq, Hash, PartialOrd, Ord)]
pub struct Script {
    bytes: Vec<u8>,
}

impl View for Script {
    type V = Seq<u8>;

    closed spec fn view(&self) -> Seq<u8> {
        self.bytes@
    }
}

impl Script {
    /// Parses `bytes[start..end]` and brings it to its canonical case.
    pub fn try_from_bytes_manual_slice(bytes: &[u8], start: usize, end: usize) -> (r: Result<
        Script,
        ParserError,
    >)
        requires
            start <= end <= bytes@.len(),
        ensures
            r is Ok <==> valid_script(bytes@.subrange(start as int, end as int)),
            r is Ok ==> r->Ok_0@ == norm_script(bytes@.subrange(start as int, end as int)),
            r is Err ==> r->Err_0 == ParserError::InvalidSubtag,
    {
        let len = end - start;
        if len == 4 && range_all_alpha(bytes, start, end) {
            let form = CaseForm::Title;
            Ok(Script { bytes: copy_in_case(bytes, start, end, form) })
        } else {
            Err(ParserError::InvalidSubtag)
        }
    }

    /// Parses a whole byte string.
    pub fn try_from_bytes(bytes: &[u8]) -> (r: Result<Script, ParserError>)
        ensures
            r is Ok <==> valid_script(bytes@),
            r is Ok ==> r->Ok_0@ == norm_script(bytes@),
            r is Err ==> r->Err_0 == ParserError::InvalidSubtag,
    {
        assert(bytes@.subrange(0, bytes@.len() as int) =~= bytes@);
        Script::try_from_bytes_manual_slice(bytes, 0, bytes.len())
    }

    /// The subtag's bytes in canonical case.
    pub fn as_bytes(&self) -> (r: &[u8])
        ensures
            r@ == self@,
    {
        self.bytes.as_slice()
    }
}

/// A region subtag: two letters in upper case, or three digits.
#[derive(Clone, Debug, PartialEq, Eq, Hash, PartialOrd, Ord)]
pub struct Region {
    bytes: Vec<u8>,
}

impl View for Region {
    type V = Seq<u8>;

    closed spec fn view(&self) -> Seq<u8> {
        self.bytes@
    }
}

impl Region {
    /// Parses `bytes[start..end]` and brings it to its canonical case.
    pub fn try_from_bytes_manual_slice(bytes: &[u8], start: usize, end: usize) -> (r: Result<
        Region,
        ParserError,
    >)
        requires
            start <= end <= bytes@.len(),
        ensures
            r is Ok <==> valid_region(bytes@.subrange(start as int, end as int)),
            r is Ok ==> r->Ok_0@ == norm_region(bytes@.subrange(start as int, end as int)),
            r is Err ==> r->Err_0 == ParserError::InvalidSubtag,
    {
        let len = end - start;
        if (len == 2 && range_all_alpha(bytes, start, end)) || (len == 3 && range_all_digit(bytes, start, end)) {
            let form = if len == 2 {
                CaseForm::Upper
            } else {
                CaseForm::Lower
            };
            Ok(Region { bytes: copy_in_case(bytes, start, end, form) })
        } else {
            Err(ParserError::InvalidSubtag)
        }
    }

    /// Parses a whole byte string.
    pub fn try_from_bytes(bytes: &[u8]) -> (r: Result<Region, ParserError>)
        ensures
            r is Ok <==> valid_region(bytes@),
            r is Ok ==> r->Ok_0@ == norm_region(bytes@),
            r is Err ==> r->Err_0 == ParserError::InvalidSubtag,
    {
        assert(bytes@.subrange(0, bytes@.len() as int) =~= bytes@);
        Region::try_from_bytes_manual_slice(bytes, 0, bytes.len())
    }

    /// The subtag's bytes in canonical case.
    pub fn as_bytes(&self) -> (r: &[u8])
        ensures
            r@ == self@,
    {
        self.bytes.as_slice()
    }
}

/// A variant subtag, in lower case.
#[derive(Clone, Debug, PartialEq, Eq, Hash, PartialOrd, Ord)]
pub struct Variant {
    bytes: Vec<u8>,
}

impl View for Variant {
    type V = Seq<u8>;

    closed spec fn view(&self) -> Seq<u8> {
        self.bytes@
    }
}

impl Variant {
    /// Parses `bytes[start..end]` and brings it to its canonical case.
    pub fn try_from_bytes_manual_slice(bytes: &[u8], start: usize, end: usize) -> (r: Result<
        Variant,
        ParserError,
    >)
        requires
            start <= end <= bytes@.len(),
        ensures
            r is Ok <==> valid_variant(bytes@.subrange(start as int, end as int)),
            r is Ok ==> r->Ok_0@ == norm_variant(bytes@.subrange(start as int, end as int)),
            r is Err ==> r->Err_0 == ParserError::InvalidSubtag,
    {
        let len = end - start;
        if 4 <= len && len <= 8 && range_all_alnum(bytes, start, end) && (len != 4 || byte_is_digit(bytes[start])) {
            let form = CaseForm::Lower;
            Ok(Variant { bytes: copy_in_case(bytes, start, end, form) })
        } else {
            Err(ParserError::InvalidSubtag)
        }
    }

    /// Parses a whole byte string.
    pub fn try_from_bytes(bytes: &[u8]) -> (r: Result<Variant, ParserError>)
        ensures
            r is Ok <==> valid_variant(bytes@),
            r is Ok ==> r->Ok_0@ == norm_variant(bytes@),
            r is Err ==> r->Err_0 == ParserError::InvalidSubtag,
    {
        assert(bytes@.subrange(0, bytes@.len() as int) =~= bytes@);
        Variant::try_from_bytes_manual_slice(bytes, 0, bytes.len())
    }

    /// The subtag's bytes in canonical case.
    pub fn as_bytes(&self) -> (r: &[u8])
        ensures
            r@ == self@,
    {
        self.bytes.as_slice()
    }
}

/// A key of the Unicode extension, in lower case.
#[derive(Clone, Debug, PartialEq, Eq, Hash, PartialOrd, Ord)]
pub struct Key {
    bytes: Vec<u8>,
}

impl View for Key {
    type V = Seq<u8>;

    closed spec fn view(&self) -> Seq<u8> {
        self.bytes@
    }
}

impl Key {
    /// Parses `bytes[start..end]` and brings it to its canonical case.
    pub fn try_from_bytes_manual_slice(bytes: &[u8], start: usize, end: usize) -> (r: Result<
        Key,
        ParserError,
    >)
        requires
            start <= end <= bytes@.len(),
        ensures
            r is Ok <==> valid_key(bytes@.subrange(start as int, end as int)),
            r is Ok ==> r->Ok_0@ == lower_seq(bytes@.subrange(start as int, end as int)),
            r is Err ==> r->Err_0 == ParserError::InvalidExtension,
    {
        let len = end - start;
        if len == 2 && byte_is_alnum(bytes[start]) && byte_is_alpha(bytes[start + 1]) {
            let form = CaseForm::Lower;
            Ok(Key { bytes: copy_in_case(bytes, start, end, form) })
        } else {
            Err(ParserError::InvalidExtension)
        }
    }

    /// Parses a whole byte string.
    pub fn try_from_bytes(bytes: &[u8]) -> (r: Result<Key, ParserError>)
        ensures
            r is Ok <==> valid_key(bytes@),
            r is Ok ==> r->Ok_0@ == lower_seq(bytes@),
            r is Err ==> r->Err_0 == ParserError::InvalidExtension,
    {
        assert(bytes@.subrange(0, bytes@.len() as int) =~= bytes@);
        Key::try_from_bytes_manual_slice(bytes, 0, bytes.len())
    }

    /// The subtag's bytes in canonical case.
    pub fn as_bytes(&self) -> (r: &[u8])
        ensures
            r@ == self@,
    {
        self.bytes.as_slice()
    }
}

} // verus!
