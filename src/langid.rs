//! The single-pass parser of BCP-47 language identifiers.

use vstd::prelude::*;
use crate::subtag_iter::{SubtagIterator, subtags_of};
use crate::subtags::{
    ExtensionType, Key, Language, ParserError, Region, Script, Variant, extension_type_spec,
    is_attribute, lower_seq, norm_language, norm_region, norm_script, norm_variant,
    parse_value_subtag, valid_attribute, valid_key, valid_language, valid_region, valid_script,
    valid_variant, value_spec,
};
use crate::variants::{insert_variant, sorted_strict, variant_views};

verus! {

/// How much of a tag the parser reads.
#[derive(PartialEq, Eq, Structural, Clone, Copy, Debug)]
pub enum ParserMode {
    /// A language identifier alone; one-byte subtags are malformed variants.
    LanguageIdentifier,
    /// A locale: a one-byte subtag ends the language identifier.
    Locale,
    /// Like `Locale`, but the first subtag that fits nowhere ends the parse
    /// instead of failing it.
    Partial,
}

/// Which subtags may still come.
#[derive(PartialEq, Eq, Structural, Clone, Copy, Debug)]
pub enum ParserPosition {
    Script,
    Region,
    Variant,
}

/// What the parser has read after the language subtag.
pub struct ParseState {
    pub pos: ParserPosition,
    pub script: Option<Seq<u8>>,
    pub region: Option<Seq<u8>>,
    pub variants: Set<Seq<u8>>,
}

/// What one subtag does to the parse.
pub enum Step {
    Next(ParseState),
    Stop,
    Fail,
}

pub open spec fn initial_state() -> ParseState {
    ParseState { pos: ParserPosition::Script, script: None, region: None, variants: Set::empty() }
}

pub open spec fn with_script(st: ParseState, t: Seq<u8>) -> ParseState {
    ParseState { pos: ParserPosition::Region, script: Some(norm_script(t)), ..st }
}

pub open spec fn with_region(st: ParseState, t: Seq<u8>) -> ParseState {
    ParseState { pos: ParserPosition::Variant, region: Some(norm_region(t)), ..st }
}

pub open spec fn with_variant(st: ParseState, t: Seq<u8>) -> ParseState {
    ParseState {
        pos: ParserPosition::Variant,
        variants: st.variants.insert(norm_variant(t)),
        ..st
    }
}

pub open spec fn stop_or_fail(mode: ParserMode) -> Step {
    if mode == ParserMode::Partial {
        Step::Stop
    } else {
        Step::Fail
    }
}

/// The grammar after the language subtag, one subtag at a time.
pub open spec fn step(mode: ParserMode, st: ParseState, t: Seq<u8>) -> Step {
    if mode != ParserMode::LanguageIdentifier && t.len() == 1 {
        Step::Stop
    } else {
        match st.pos {
            ParserPosition::Script => if valid_script(t) {
                Step::Next(with_script(st, t))
            } else if valid_region(t) {
                Step::Next(with_region(st, t))
            } else if valid_variant(t) {
                Step::Next(with_variant(st, t))
            } else {
                stop_or_fail(mode)
            },
            ParserPosition::Region => if valid_region(t) {
                Step::Next(with_region(st, t))
            } else if valid_variant(t) {
                Step::Next(with_variant(st, t))
            } else {
                stop_or_fail(mode)
            },
            ParserPosition::Variant => if valid_variant(t) {
                if st.variants.contains(norm_variant(t)) {
                    Step::Fail
                } else {
                    Step::Next(with_variant(st, t))
                }
            } else {
                stop_or_fail(mode)
            },
        }
    }
}

/// Runs `step` over `subs`: the final state and how many subtags were
/// taken, or `None` where a subtag fails the parse.
pub open spec fn run(mode: ParserMode, st: ParseState, subs: Seq<Seq<u8>>) -> Option<
    (ParseState, nat),
>
    decreases subs.len(),
{
    if subs.len() == 0 {
        Some((st, 0))
    } else {
        match step(mode, st, subs[0]) {
            Step::Next(next) => match run(mode, next, subs.drop_first()) {
                Some((fin, n)) => Some((fin, n + 1)),
                None => None,
            },
            Step::Stop => Some((st, 0)),
            Step::Fail => None,
        }
    }
}

/// A parsed language identifier, as values.
pub struct LanguageIdentifierModel {
    pub language: Seq<u8>,
    pub script: Option<Seq<u8>>,
    pub region: Option<Seq<u8>>,
    pub variants: Seq<Seq<u8>>,
}

/// What parsing `subs` in `mode` gives: the language subtag, the state after
/// the rest, and how many subtags were taken in all.
pub open spec fn parse_spec(subs: Seq<Seq<u8>>, mode: ParserMode) -> Result<
    (Seq<u8>, ParseState, nat),
    ParserError,
> {
    if subs.len() == 0 || !valid_language(subs[0]) {
        Err(ParserError::InvalidLanguage)
    } else {
        match run(mode, initial_state(), subs.drop_first()) {
            Some((st, n)) => Ok((norm_language(subs[0]), st, n + 1)),
            None => Err(ParserError::InvalidSubtag),
        }
    }
}

/// `m` is what `parse_spec` gave: the variants come sorted, each once.
pub open spec fn model_matches(m: LanguageIdentifierModel, language: Seq<u8>, st: ParseState) -> bool {
    &&& m.language == language
    &&& m.script == st.script
    &&& m.region == st.region
    &&& sorted_strict(m.variants)
    &&& m.variants.to_set() == st.variants
}

/// A language identifier: language, optional script and region, and the
/// variants in sorted order.
#[derive(Clone, Debug, PartialEq, Eq, Hash)]
pub struct LanguageIdentifier {
    language: Language,
    script: Option<Script>,
    region: Option<Region>,
    variants: Vec<Variant>,
}

pub open spec fn opt_view<T: View>(o: Option<T>) -> Option<T::V> {
    match o {
        Some(x) => Some(x@),
        None => None,
    }
}

impl View for LanguageIdentifier {
    type V = LanguageIdentifierModel;

    closed spec fn view(&self) -> LanguageIdentifierModel {
        LanguageIdentifierModel {
            language: self.language@,
            script: opt_view(self.script),
            region: opt_view(self.region),
            variants: variant_views(self.variants@),
        }
    }
}

impl LanguageIdentifier {
    pub fn language(&self) -> (r: &Language)
        ensures
            r@ == self@.language,
    {
        &self.language
    }

    pub fn script(&self) -> (r: &Option<Script>)
        ensures
            opt_view(*r) == self@.script,
    {
        &self.script
    }

    pub fn region(&self) -> (r: &Option<Region>)
        ensures
            opt_view(*r) == self@.region,
    {
        &self.region
    }

    pub fn variants(&self) -> (r: &[Variant])
        ensures
            variant_views(r@) == self@.variants,
    {
        self.variants.as_slice()
    }
}

/// Parses a language identifier from the subtags that `iter` has left.
/// On success `iter` stands at the first subtag not taken.
pub fn parse_language_identifier_from_iter(iter: &mut SubtagIterator, mode: ParserMode) -> (r:
    Result<LanguageIdentifier, ParserError>)
    requires
        old(iter).wf(),
    ensures
        final(iter).wf(),
        final(iter).source() == old(iter).source(),
        match parse_spec(old(iter).rest(), mode) {
            Ok((language, st, n)) => r matches Ok(l) && model_matches(l@, language, st)
                && final(iter).rest() == old(iter).rest().skip(n as int),
            Err(e) => r == Err::<LanguageIdentifier, ParserError>(e),
        },
{
    let ghost subs = iter.rest();
    let bytes = iter.source_bytes();
    let language = match iter.next_manual() {
        Some((s, e)) => match Language::try_from_bytes_manual_slice(bytes, s, e) {
            Ok(l) => l,
            Err(err) => {
                return Err(err);
            },
        },
        None => {
            return Err(ParserError::InvalidLanguage);
        },
    };
    let ghost after_language = iter.rest();
    assert(subs.drop_first() == after_language);
    assert(valid_language(subs[0]));
    assert(bytes@ == old(iter).source());
    let ghost expected = run(mode, initial_state(), after_language);
    let mut script: Option<Script> = None;
    let mut region: Option<Region> = None;
    let mut variants: Vec<Variant> = Vec::new();
    let mut position = ParserPosition::Script;
    let ghost mut st = initial_state();
    let ghost mut taken: nat = 0;
    assert(variant_views(variants@).to_set() =~= Set::<Seq<u8>>::empty());
    loop
        invariant_except_break
            iter.wf(),
            iter.source() == bytes@,
            taken <= after_language.len(),
            iter.rest() == after_language.skip(taken as int),
            st.pos == position,
            st.script == opt_view(script),
            st.region == opt_view(region),
            sorted_strict(variant_views(variants@)),
            variant_views(variants@).to_set() == st.variants,
            expected == match run(mode, st, iter.rest()) {
                Some((fin, n)) => Some((fin, n + taken)),
                None => None,
            },
        invariant
            bytes@ == old(iter).source(),
            subs.len() > 0,
            valid_language(subs[0]),
            language@ == norm_language(subs[0]),
            subs.drop_first() == after_language,
            subs == old(iter).rest(),
            expected == run(mode, initial_state(), after_language),
        ensures
            iter.wf(),
            iter.source() == bytes@,
            expected == Some((st, taken)),
            taken <= after_language.len(),
            iter.rest() == after_language.skip(taken as int),
            st.script == opt_view(script),
            st.region == opt_view(region),
            sorted_strict(variant_views(variants@)),
            variant_views(variants@).to_set() == st.variants,
        decreases iter.rest().len(),
    {
        let (s, e) = match iter.peek_manual() {
            Some(p) => p,
            None => {
                break ;
            },
        };
        let ghost t = iter.rest()[0];
        let ghost next_rest = iter.rest().drop_first();
        assert(next_rest == after_language.skip(taken + 1 as int));
        if mode != ParserMode::LanguageIdentifier && e - s == 1 {
            break ;
        }
        if position == ParserPosition::Script {
            if let Ok(sc) = Script::try_from_bytes_manual_slice(bytes, s, e) {
                script = Some(sc);
                position = ParserPosition::Region;
                proof {
                    st = with_script(st, t);
                }
            } else if let Ok(rg) = Region::try_from_bytes_manual_slice(bytes, s, e) {
                region = Some(rg);
                position = ParserPosition::Variant;
                proof {
                    st = with_region(st, t);
                }
            } else if let Ok(v) = Variant::try_from_bytes_manual_slice(bytes, s, e) {
                insert_variant(&mut variants, v);
                position = ParserPosition::Variant;
                proof {
                    st = with_variant(st, t);
                }
            } else if mode == ParserMode::Partial {
                break ;
            } else {
                assert(step(mode, st, t) is Fail);
                assert(run(mode, st, iter.rest()) is None);
                return Err(ParserError::InvalidSubtag);
            }
        } else if position == ParserPosition::Region {
            if let Ok(rg) = Region::try_from_bytes_manual_slice(bytes, s, e) {
                region = Some(rg);
                position = ParserPosition::Variant;
                proof {
                    st = with_region(st, t);
                }
            } else if let Ok(v) = Variant::try_from_bytes_manual_slice(bytes, s, e) {
                insert_variant(&mut variants, v);
                position = ParserPosition::Variant;
                proof {
                    st = with_variant(st, t);
                }
            } else if mode == ParserMode::Partial {
                break ;
            } else {
                assert(step(mode, st, t) is Fail);
                assert(run(mode, st, iter.rest()) is None);
                return Err(ParserError::InvalidSubtag);
            }
        } else if let Ok(v) = Variant::try_from_bytes_manual_slice(bytes, s, e) {
            if !insert_variant(&mut variants, v) {
                return Err(ParserError::InvalidSubtag);
            }
            proof {
                st = with_variant(st, t);
            }
        } else if mode == ParserMode::Partial {
            break ;
        } else {
            assert(step(mode, st, t) is Fail);
            assert(run(mode, st, iter.rest()) is None);
            return Err(ParserError::InvalidSubtag);
        }
        iter.next_manual();
        proof {
            taken = taken + 1;
        }
    }
    let r = LanguageIdentifier { language, script, region, variants };
    assert(after_language.skip(taken as int) =~= subs.skip(taken as int + 1));
    Ok(r)
}

/// Parses a language identifier from the whole of `t`.
pub fn parse_language_identifier(t: &[u8], mode: ParserMode) -> (r: Result<
    LanguageIdentifier,
    ParserError,
>)
    ensures
        match parse_spec(subtags_of(t@), mode) {
            Ok((language, st, n)) => r matches Ok(l) && model_matches(l@, language, st),
            Err(e) => r == Err::<LanguageIdentifier, ParserError>(e),
        },
{
    let mut iter = SubtagIterator::new(t);
    parse_language_identifier_from_iter(&mut iter, mode)
}

/// What the bounded parser has read after the language subtag: at most one
/// variant.
pub struct SingleState {
    pub pos: ParserPosition,
    pub script: Option<Seq<u8>>,
    pub region: Option<Seq<u8>>,
    pub variant: Option<Seq<u8>>,
}

pub enum SingleStep {
    Next(SingleState),
    Stop,
    Fail,
}

pub open spec fn single_initial_state() -> SingleState {
    SingleState { pos: ParserPosition::Script, script: None, region: None, variant: None }
}

pub open spec fn single_stop_or_fail(mode: ParserMode) -> SingleStep {
    if mode == ParserMode::Partial {
        SingleStep::Stop
    } else {
        SingleStep::Fail
    }
}

/// The grammar of the bounded parser: as `step`, but a second variant fails.
pub open spec fn single_step(mode: ParserMode, st: SingleState, t: Seq<u8>) -> SingleStep {
    if mode != ParserMode::LanguageIdentifier && t.len() == 1 {
        SingleStep::Stop
    } else {
        match st.pos {
            ParserPosition::Script => if valid_script(t) {
                SingleStep::Next(
                    SingleState { pos: ParserPosition::Region, script: Some(norm_script(t)), ..st },
                )
            } else if valid_region(t) {
                SingleStep::Next(
                    SingleState { pos: ParserPosition::Variant, region: Some(norm_region(t)), ..st },
                )
            } else if valid_variant(t) {
                SingleStep::Next(
                    SingleState {
                        pos: ParserPosition::Variant,
                        variant: Some(norm_variant(t)),
                        ..st
                    },
                )
            } else {
                single_stop_or_fail(mode)
            },
            ParserPosition::Region => if valid_region(t) {
                SingleStep::Next(
                    SingleState { pos: ParserPosition::Variant, region: Some(norm_region(t)), ..st },
                )
            } else if valid_variant(t) {
                SingleStep::Next(
                    SingleState {
                        pos: ParserPosition::Variant,
                        variant: Some(norm_variant(t)),
                        ..st
                    },
                )
            } else {
                single_stop_or_fail(mode)
            },
            ParserPosition::Variant => if valid_variant(t) {
                if st.variant is Some {
                    SingleStep::Fail
                } else {
                    SingleStep::Next(SingleState { variant: Some(norm_variant(t)), ..st })
                }
            } else {
                single_stop_or_fail(mode)
            },
        }
    }
}

pub open spec fn run_single(mode: ParserMode, st: SingleState, subs: Seq<Seq<u8>>) -> Option<
    (SingleState, nat),
>
    decreases subs.len(),
{
    if subs.len() == 0 {
        Some((st, 0))
    } else {
        match single_step(mode, st, subs[0]) {
            SingleStep::Next(next) => match run_single(mode, next, subs.drop_first()) {
                Some((fin, n)) => Some((fin, n + 1)),
                None => None,
            },
            SingleStep::Stop => Some((st, 0)),
            SingleStep::Fail => None,
        }
    }
}

/// The keys and types of a Unicode extension: at most one key, and at most
/// one type after it.
pub open spec fn keywords_spec(
    subs: Seq<Seq<u8>>,
    key: Option<Seq<u8>>,
    ty: Option<Seq<u8>>,
) -> Result<(Option<Seq<u8>>, Option<Seq<u8>>), ParserError>
    decreases subs.len(),
{
    if subs.len() == 0 {
        Ok((key, ty))
    } else {
        let t = subs[0];
        if t.len() == 2 {
            if key is Some {
                Err(ParserError::InvalidSubtag)
            } else if valid_key(t) {
                keywords_spec(subs.drop_first(), Some(lower_seq(t)), ty)
            } else {
                Err(ParserError::InvalidExtension)
            }
        } else if key is Some {
            match value_spec(t) {
                Ok(Some(v)) => if ty is Some {
                    Err(ParserError::InvalidSubtag)
                } else {
                    keywords_spec(subs.drop_first(), key, Some(v))
                },
                Ok(None) => keywords_spec(subs.drop_first(), key, ty),
                Err(e) => Err(e),
            }
        } else {
            Ok((key, ty))
        }
    }
}

/// The one Unicode extension keyword that the bounded parser reads, in
/// `Locale` mode, from the subtags after the language identifier.
pub open spec fn extension_spec(subs: Seq<Seq<u8>>, mode: ParserMode) -> Result<
    Option<(Seq<u8>, Option<Seq<u8>>)>,
    ParserError,
> {
    if mode != ParserMode::Locale || subs.len() == 0 {
        Ok(None)
    } else {
        match extension_type_spec(subs[0]) {
            Ok(ExtensionType::Unicode) => {
                let rest = subs.drop_first();
                if rest.len() > 0 && valid_attribute(rest[0]) {
                    Err(ParserError::InvalidSubtag)
                } else {
                    match keywords_spec(rest, None, None) {
                        Ok((Some(k), ty)) => Ok(Some((k, ty))),
                        Ok((None, _)) => Ok(None),
                        Err(e) => Err(e),
                    }
                }
            },
            Ok(_) => Err(ParserError::InvalidSubtag),
            Err(e) => Err(e),
        }
    }
}

/// What the bounded parser gives for `subs` in `mode`.
pub open spec fn parse_single_spec(subs: Seq<Seq<u8>>, mode: ParserMode) -> Result<
    (Seq<u8>, SingleState, Option<(Seq<u8>, Option<Seq<u8>>)>),
    ParserError,
> {
    if subs.len() == 0 || !valid_language(subs[0]) {
        Err(ParserError::InvalidLanguage)
    } else {
        match run_single(mode, single_initial_state(), subs.drop_first()) {
            Some((st, n)) => match extension_spec(subs.drop_first().skip(n as int), mode) {
                Ok(kw) => Ok((norm_language(subs[0]), st, kw)),
                Err(e) => Err(e),
            },
            None => Err(ParserError::InvalidSubtag),
        }
    }
}

/// The parts of a locale that the bounded parser reads.
pub type LocaleParts = (
    Language,
    Option<Script>,
    Option<Region>,
    Option<Variant>,
    Option<(Key, Option<Vec<u8>>)>,
);

/// The parts of a language identifier that the bounded parser reads.
pub type LanguageIdentifierParts = (Language, Option<Script>, Option<Region>, Option<Variant>);

pub open spec fn keyword_view(k: Option<(Key, Option<Vec<u8>>)>) -> Option<
    (Seq<u8>, Option<Seq<u8>>),
> {
    match k {
        Some((key, ty)) => Some((key@, opt_view(ty))),
        None => None,
    }
}

/// Reads the keys and types of a Unicode extension from `iter`.
fn parse_keywords(iter: &mut SubtagIterator) -> (r: Result<
    (Option<Key>, Option<Vec<u8>>),
    ParserError,
>)
    requires
        old(iter).wf(),
    ensures
        match keywords_spec(old(iter).rest(), None, None) {
            Ok((k, t)) => r matches Ok((key, ty)) && opt_view(key) == k && opt_view(ty) == t,
            Err(e) => r == Err::<(Option<Key>, Option<Vec<u8>>), ParserError>(e),
        },
{
    let ghost expected = keywords_spec(iter.rest(), None, None);
    let bytes = iter.source_bytes();
    let mut key: Option<Key> = None;
    let mut current_type: Option<Vec<u8>> = None;
    loop
        invariant_except_break
            iter.wf(),
            iter.source() == bytes@,
            expected == keywords_spec(iter.rest(), opt_view(key), opt_view(current_type)),
        invariant
            expected == keywords_spec(old(iter).rest(), None, None),
        ensures
            expected == Ok::<(Option<Seq<u8>>, Option<Seq<u8>>), ParserError>(
                (opt_view(key), opt_view(current_type)),
            ),
        decreases iter.rest().len(),
    {
        let (s, e) = match iter.peek_manual() {
            Some(p) => p,
            None => {
                break ;
            },
        };
        let slen = e - s;
        if slen == 2 {
            if key.is_some() {
                return Err(ParserError::InvalidSubtag);
            }
            match Key::try_from_bytes_manual_slice(bytes, s, e) {
                Ok(k) => {
                    key = Some(k);
                },
                Err(err) => {
                    return Err(err);
                },
            }
        } else if key.is_some() {
            match parse_value_subtag(bytes, s, e) {
                Ok(Some(t)) => {
                    if current_type.is_some() {
                        return Err(ParserError::InvalidSubtag);
                    }
                    current_type = Some(t);
                },
                Ok(None) => {},
                Err(err) => {
                    return Err(err);
                },
            }
        } else {
            break ;
        }
        iter.next_manual();
    }
    Ok((key, current_type))
}

/// The bounded parser: a language identifier with at most one variant and,
/// in `Locale` mode, at most one keyword of a Unicode extension. It keeps
/// nothing on the heap but the subtags it returns.
pub fn parse_locale_with_single_variant_single_keyword_unicode_extension_from_iter(
    iter: SubtagIterator,
    mode: ParserMode,
) -> (r: Result<LocaleParts, ParserError>)
    requires
        iter.wf(),
    ensures
        match parse_single_spec(iter.rest(), mode) {
            Ok((language, st, kw)) => r matches Ok((l, sc, rg, v, k)) && l@ == language
                && opt_view(sc) == st.script && opt_view(rg) == st.region && opt_view(v)
                == st.variant && keyword_view(k) == kw,
            Err(e) => r == Err::<LocaleParts, ParserError>(e),
        },
{
    let mut it = iter;
    let ghost subs = it.rest();
    let bytes = it.source_bytes();
    let language = match it.next_manual() {
        Some((s, e)) => match Language::try_from_bytes_manual_slice(bytes, s, e) {
            Ok(l) => l,
            Err(err) => {
                return Err(err);
            },
        },
        None => {
            return Err(ParserError::InvalidLanguage);
        },
    };
    let ghost after_language = it.rest();
    assert(subs.drop_first() == after_language);
    assert(valid_language(subs[0]));
    let ghost expected = run_single(mode, single_initial_state(), after_language);
    let mut script: Option<Script> = None;
    let mut region: Option<Region> = None;
    let mut variant: Option<Variant> = None;
    let mut position = ParserPosition::Script;
    let ghost mut st = single_initial_state();
    let ghost mut taken: nat = 0;
    loop
        invariant_except_break
            it.wf(),
            it.source() == bytes@,
            taken <= after_language.len(),
            it.rest() == after_language.skip(taken as int),
            st.pos == position,
            st.script == opt_view(script),
            st.region == opt_view(region),
            st.variant == opt_view(variant),
            expected == match run_single(mode, st, it.rest()) {
                Some((fin, n)) => Some((fin, n + taken)),
                None => None,
            },
        invariant
            subs.len() > 0,
            valid_language(subs[0]),
            language@ == norm_language(subs[0]),
            subs.drop_first() == after_language,
            subs == iter.rest(),
            expected == run_single(mode, single_initial_state(), after_language),
        ensures
            it.wf(),
            it.source() == bytes@,
            expected == Some((st, taken)),
            taken <= after_language.len(),
            it.rest() == after_language.skip(taken as int),
            st.script == opt_view(script),
            st.region == opt_view(region),
            st.variant == opt_view(variant),
        decreases it.rest().len(),
    {
        let (s, e) = match it.peek_manual() {
            Some(p) => p,
            None => {
                break ;
            },
        };
        let ghost t = it.rest()[0];
        assert(it.rest().drop_first() == after_language.skip(taken + 1 as int));
        if mode != ParserMode::LanguageIdentifier && e - s == 1 {
            break ;
        }
        if position == ParserPosition::Script {
            if let Ok(sc) = Script::try_from_bytes_manual_slice(bytes, s, e) {
                script = Some(sc);
                position = ParserPosition::Region;
            } else if let Ok(rg) = Region::try_from_bytes_manual_slice(bytes, s, e) {
                region = Some(rg);
                position = ParserPosition::Variant;
            } else if let Ok(v) = Variant::try_from_bytes_manual_slice(bytes, s, e) {
                variant = Some(v);
                position = ParserPosition::Variant;
            } else if mode == ParserMode::Partial {
                break ;
            } else {
                assert(single_step(mode, st, t) is Fail);
                assert(run_single(mode, st, it.rest()) is None);
                return Err(ParserError::InvalidSubtag);
            }
        } else if position == ParserPosition::Region {
            if let Ok(rg) = Region::try_from_bytes_manual_slice(bytes, s, e) {
                region = Some(rg);
                position = ParserPosition::Variant;
            } else if let Ok(v) = Variant::try_from_bytes_manual_slice(bytes, s, e) {
                variant = Some(v);
                position = ParserPosition::Variant;
            } else if mode == ParserMode::Partial {
                break ;
            } else {
                assert(single_step(mode, st, t) is Fail);
                assert(run_single(mode, st, it.rest()) is None);
                return Err(ParserError::InvalidSubtag);
            }
        } else if let Ok(v) = Variant::try_from_bytes_manual_slice(bytes, s, e) {
            if variant.is_some() {
                assert(single_step(mode, st, t) is Fail);
                assert(run_single(mode, st, it.rest()) is None);
                return Err(ParserError::InvalidSubtag);
            }
            variant = Some(v);
        } else if mode == ParserMode::Partial {
            break ;
        } else {
            assert(single_step(mode, st, t) is Fail);
            assert(run_single(mode, st, it.rest()) is None);
            return Err(ParserError::InvalidSubtag);
        }
        proof {
            match single_step(mode, st, t) {
                SingleStep::Next(next) => {
                    st = next;
                },
                _ => {},
            }
        }
        it.next_manual();
        proof {
            taken = taken + 1;
        }
    }
    let ghost ext_subs = subs.drop_first().skip(taken as int);
    assert(it.rest() == ext_subs);
    let mut keyword: Option<(Key, Option<Vec<u8>>)> = None;
    if mode == ParserMode::Locale {
        if let Some((s, e)) = it.peek_manual() {
            match ExtensionType::try_from_bytes_manual_slice(bytes, s, e) {
                Ok(ExtensionType::Unicode) => {
                    it.next_manual();
                    if let Some((s2, e2)) = it.peek_manual() {
                        if is_attribute(bytes, s2, e2) {
                            return Err(ParserError::InvalidSubtag);
                        }
                    }
                    match parse_keywords(&mut it) {
                        Ok((Some(k), ty)) => {
                            keyword = Some((k, ty));
                        },
                        Ok((None, _)) => {},
                        Err(err) => {
                            return Err(err);
                        },
                    }
                },
                Ok(_) => {
                    return Err(ParserError::InvalidSubtag);
                },
                Err(err) => {
                    return Err(err);
                },
            }
        }
    }
    Ok((language, script, region, variant, keyword))
}

/// The bounded parser on the whole of `t`, without extensions.
pub fn parse_language_identifier_with_single_variant(t: &[u8], mode: ParserMode) -> (r: Result<
    LanguageIdentifierParts,
    ParserError,
>)
    ensures
        match parse_single_spec(subtags_of(t@), mode) {
            Ok((language, st, _)) => r matches Ok((l, sc, rg, v)) && l@ == language && opt_view(sc)
                == st.script && opt_view(rg) == st.region && opt_view(v) == st.variant,
            Err(e) => r == Err::<LanguageIdentifierParts, ParserError>(e),
        },
{
    let iter = SubtagIterator::new(t);
    match parse_locale_with_single_variant_single_keyword_unicode_extension_from_iter(iter, mode) {
        Ok((l, s, r, v, _)) => Ok((l, s, r, v)),
        Err(e) => Err(e),
    }
}

/// The subtags joined with `-`.
pub open spec fn join_subtags(parts: Seq<Seq<u8>>) -> Seq<u8>
    decreases parts.len(),
{
    if parts.len() == 0 {
        seq![]
    } else if parts.len() == 1 {
        parts[0]
    } else {
        join_subtags(parts.drop_last()) + seq![45u8] + parts.last()
    }
}

pub open spec fn opt_seq(o: Option<Seq<u8>>) -> Seq<Seq<u8>> {
    match o {
        Some(x) => seq![x],
        None => seq![],
    }
}

/// The subtags of a language identifier in canonical order.
pub open spec fn model_subtags(m: LanguageIdentifierModel) -> Seq<Seq<u8>> {
    seq![m.language] + opt_seq(m.script) + opt_seq(m.region) + m.variants
}

/// The canonical text of a language identifier.
pub open spec fn serialize_spec(m: LanguageIdentifierModel) -> Seq<u8> {
    join_subtags(model_subtags(m))
}

/// Appends `-` and `part` to `out`.
fn push_subtag(out: &mut Vec<u8>, part: &[u8])
    ensures
        final(out)@ == old(out)@ + seq![45u8] + part@,
{
    out.push(45u8);
    let ghost base = out@;
    let mut i: usize = 0;
    while i < part.len()
        invariant
            i <= part@.len(),
            out@ == base + part@.subrange(0, i as int),
        decreases part@.len() - i,
    {
        out.push(part[i]);
        assert(part@.subrange(0, i + 1) =~= part@.subrange(0, i as int).push(part@[i as int]));
        i = i + 1;
    }
    assert(part@.subrange(0, part@.len() as int) =~= part@);
}

impl LanguageIdentifier {
    /// The canonical text: the subtags joined with `-`, variants in sorted
    /// order.
    pub fn to_bytes(&self) -> (r: Vec<u8>)
        ensures
            r@ == serialize_spec(self@),
    {
        let ghost parts = model_subtags(self@);
        let mut out: Vec<u8> = Vec::new();
        let lang = self.language.as_bytes();
        let mut i: usize = 0;
        while i < lang.len()
            invariant
                i <= lang@.len(),
                out@ == lang@.subrange(0, i as int),
            decreases lang@.len() - i,
        {
            out.push(lang[i]);
            assert(lang@.subrange(0, i + 1) =~= lang@.subrange(0, i as int).push(lang@[i as int]));
            i = i + 1;
        }
        assert(lang@.subrange(0, lang@.len() as int) =~= lang@);
        let mut k: usize = 1;
        assert(parts.take(1) =~= seq![self@.language]);
        assert(out@ == join_subtags(parts.take(1)));
        if let Some(sc) = &self.script {
            push_subtag(&mut out, sc.as_bytes());
            assert(parts.take(2) =~= parts.take(1).push(sc@));
            assert(parts.take(2).drop_last() =~= parts.take(1));
            assert(out@ == join_subtags(parts.take(2)));
            k = 2;
        }
        assert(out@ == join_subtags(parts.take(k as int)));
        if let Some(rg) = &self.region {
            push_subtag(&mut out, rg.as_bytes());
            assert(parts.take(k + 1) =~= parts.take(k as int).push(rg@));
            assert(parts.take(k + 1).drop_last() =~= parts.take(k as int));
            assert(out@ == join_subtags(parts.take(k + 1)));
            k = k + 1;
        }
        let ghost head = k as int;
        assert(parts.len() == head + self.variants@.len());
        let mut j: usize = 0;
        while j < self.variants.len()
            invariant
                1 <= head <= 3,
                j <= self.variants@.len(),
                parts.len() == head + self.variants@.len(),
                forall|x: int| 0 <= x < self.variants@.len() ==> parts[head + x] == self.variants@[x]@,
                out@ == join_subtags(parts.take(head + j)),
            decreases self.variants@.len() - j,
        {
            let v = &self.variants[j];
            push_subtag(&mut out, v.as_bytes());
            assert(parts.take(head + j + 1) =~= parts.take(head + j).push(v@));
            assert(parts.take(head + j + 1).drop_last() =~= parts.take(head + j));
            j = j + 1;
        }
        assert(parts.take(head + j) =~= parts);
        out
    }
}

} // verus!
