use icu_text::langid::{
    parse_language_identifier, parse_language_identifier_from_iter,
    parse_language_identifier_with_single_variant,
    parse_locale_with_single_variant_single_keyword_unicode_extension_from_iter,
    LanguageIdentifier, ParserMode,
};
use icu_text::subtag_iter::SubtagIterator;
use icu_text::subtags::{Language, ParserError, Region, Script, Variant};

fn variants_of(l: &LanguageIdentifier) -> Vec<Vec<u8>> {
    l.variants().iter().map(|v| v.as_bytes().to_vec()).collect()
}

#[test]
fn parses_language_script_region_in_canonical_case() {
    let l = parse_language_identifier(b"EN-latn-us", ParserMode::LanguageIdentifier).unwrap();
    assert_eq!(l.language().as_bytes(), b"en");
    assert_eq!(l.script().as_ref().unwrap().as_bytes(), b"Latn");
    assert_eq!(l.region().as_ref().unwrap().as_bytes(), b"US");
    assert!(l.variants().is_empty());
}

#[test]
fn underscore_separates_subtags() {
    let l = parse_language_identifier(b"de_AT", ParserMode::LanguageIdentifier).unwrap();
    assert_eq!(l.language().as_bytes(), b"de");
    assert_eq!(l.region().as_ref().unwrap().as_bytes(), b"AT");
}

#[test]
fn numeric_region() {
    let l = parse_language_identifier(b"es-419", ParserMode::LanguageIdentifier).unwrap();
    assert_eq!(l.region().as_ref().unwrap().as_bytes(), b"419");
}

#[test]
fn variants_come_sorted() {
    let l = parse_language_identifier(b"en-fonipa-alalc97", ParserMode::LanguageIdentifier).unwrap();
    assert_eq!(variants_of(&l), vec![b"alalc97".to_vec(), b"fonipa".to_vec()]);
}

#[test]
fn duplicate_variant_is_rejected() {
    let r = parse_language_identifier(b"en-fonipa-fonipa", ParserMode::LanguageIdentifier);
    assert_eq!(r, Err(ParserError::InvalidSubtag));
}

#[test]
fn empty_input_is_invalid_language() {
    assert_eq!(
        parse_language_identifier(b"", ParserMode::LanguageIdentifier),
        Err(ParserError::InvalidLanguage)
    );
}

#[test]
fn invalid_first_subtag_is_invalid_language() {
    assert_eq!(
        parse_language_identifier(b"419-US", ParserMode::LanguageIdentifier),
        Err(ParserError::InvalidLanguage)
    );
    assert_eq!(
        parse_language_identifier(b"-en", ParserMode::Locale),
        Err(ParserError::InvalidLanguage)
    );
}

#[test]
fn misplaced_subtag_is_invalid_subtag() {
    assert_eq!(
        parse_language_identifier(b"en-US-Latn", ParserMode::LanguageIdentifier),
        Err(ParserError::InvalidSubtag)
    );
    assert_eq!(
        parse_language_identifier(b"en-", ParserMode::LanguageIdentifier),
        Err(ParserError::InvalidSubtag)
    );
}

#[test]
fn singleton_ends_locale_but_not_language_identifier() {
    let l = parse_language_identifier(b"en-US-u-ca-buddhist", ParserMode::Locale).unwrap();
    assert_eq!(l.region().as_ref().unwrap().as_bytes(), b"US");
    assert_eq!(
        parse_language_identifier(b"en-US-u-ca-buddhist", ParserMode::LanguageIdentifier),
        Err(ParserError::InvalidSubtag)
    );
}

#[test]
fn partial_mode_stops_at_unknown_subtag() {
    let l = parse_language_identifier(b"en-US-toolongsubtag", ParserMode::Partial).unwrap();
    assert_eq!(l.language().as_bytes(), b"en");
    assert_eq!(l.region().as_ref().unwrap().as_bytes(), b"US");
    assert_eq!(
        parse_language_identifier(b"en-US-toolongsubtag", ParserMode::Locale),
        Err(ParserError::InvalidSubtag)
    );
}

#[test]
fn iterator_stands_at_first_subtag_not_taken() {
    let mut iter = SubtagIterator::new(b"en-US-u-ca-buddhist");
    let l = parse_language_identifier_from_iter(&mut iter, ParserMode::Locale).unwrap();
    assert_eq!(l.language().as_bytes(), b"en");
    let (s, e) = iter.peek_manual().unwrap();
    assert_eq!(&b"en-US-u-ca-buddhist"[s..e], b"u");
}

#[test]
fn subtag_iterator_peeks_and_takes() {
    let text = b"de_at-u-ca-foobar";
    let mut si = SubtagIterator::new(text);
    let (s, e) = si.peek_manual().unwrap();
    assert_eq!(&text[s..e], b"de");
    let (s, e) = si.next_manual().unwrap();
    assert_eq!(&text[s..e], b"de");
    let (s, e) = si.next_manual().unwrap();
    assert_eq!(&text[s..e], b"at");
}

#[test]
fn subtag_iterator_yields_empty_subtags() {
    let mut si = SubtagIterator::new(b"");
    assert_eq!(si.next_manual(), Some((0, 0)));
    assert_eq!(si.next_manual(), None);
    let mut si = SubtagIterator::new(b"en-");
    assert_eq!(si.next_manual(), Some((0, 2)));
    assert_eq!(si.next_manual(), Some((3, 3)));
    assert_eq!(si.next_manual(), None);
}

#[test]
fn serialization_round_trips() {
    let l = parse_language_identifier(b"EN_latn-us-FONIPA-1996", ParserMode::LanguageIdentifier)
        .unwrap();
    let text = l.to_bytes();
    assert_eq!(text, b"en-Latn-US-1996-fonipa".to_vec());
    let again = parse_language_identifier(&text, ParserMode::LanguageIdentifier).unwrap();
    assert_eq!(again, l);
}

#[test]
fn single_variant_parse() {
    let (l, s, r, v) =
        parse_language_identifier_with_single_variant(b"de-DE-1996", ParserMode::LanguageIdentifier)
            .unwrap();
    assert_eq!(l.as_bytes(), b"de");
    assert!(s.is_none());
    assert_eq!(r.unwrap().as_bytes(), b"DE");
    assert_eq!(v.unwrap().as_bytes(), b"1996");
}

#[test]
fn single_variant_parse_rejects_second_variant() {
    assert_eq!(
        parse_language_identifier_with_single_variant(
            b"en-fonipa-alalc97",
            ParserMode::LanguageIdentifier
        ),
        Err(ParserError::InvalidSubtag)
    );
}

#[test]
fn single_keyword_locale() {
    let iter = SubtagIterator::new(b"en-US-u-CA-Buddhist");
    let (l, _, r, v, k) =
        parse_locale_with_single_variant_single_keyword_unicode_extension_from_iter(
            iter,
            ParserMode::Locale,
        )
        .unwrap();
    assert_eq!(l.as_bytes(), b"en");
    assert_eq!(r.unwrap().as_bytes(), b"US");
    assert!(v.is_none());
    let (key, ty) = k.unwrap();
    assert_eq!(key.as_bytes(), b"ca");
    assert_eq!(ty, Some(b"buddhist".to_vec()));
}

#[test]
fn single_keyword_true_value_is_empty() {
    let iter = SubtagIterator::new(b"en-u-kn-true");
    let (_, _, _, _, k) =
        parse_locale_with_single_variant_single_keyword_unicode_extension_from_iter(
            iter,
            ParserMode::Locale,
        )
        .unwrap();
    let (key, ty) = k.unwrap();
    assert_eq!(key.as_bytes(), b"kn");
    assert_eq!(ty, None);
}

#[test]
fn single_keyword_rejects_what_it_cannot_hold() {
    let cases: [&[u8]; 4] = [
        b"en-u-ca-gregory-nu-latn",
        b"en-u-foo-ca-gregory",
        b"en-t-hi",
        b"en-x-private",
    ];
    for case in cases {
        let iter = SubtagIterator::new(case);
        let r = parse_locale_with_single_variant_single_keyword_unicode_extension_from_iter(
            iter,
            ParserMode::Locale,
        );
        assert_eq!(r.err(), Some(ParserError::InvalidSubtag));
    }
}

#[test]
fn single_keyword_rejects_malformed_extension() {
    let iter = SubtagIterator::new(b"en-u-ca-x");
    let r = parse_locale_with_single_variant_single_keyword_unicode_extension_from_iter(
        iter,
        ParserMode::Locale,
    );
    assert_eq!(r.err(), Some(ParserError::InvalidExtension));
    let iter = SubtagIterator::new(b"en-u-a4");
    let r = parse_locale_with_single_variant_single_keyword_unicode_extension_from_iter(
        iter,
        ParserMode::Locale,
    );
    assert_eq!(r.err(), Some(ParserError::InvalidExtension));
}

#[test]
fn subtag_validators() {
    assert!(Language::try_from_bytes(b"german").is_ok());
    assert_eq!(Language::try_from_bytes(b"en1"), Err(ParserError::InvalidLanguage));
    assert_eq!(Script::try_from_bytes(b"latn").unwrap().as_bytes(), b"Latn");
    assert_eq!(Script::try_from_bytes(b"Latin"), Err(ParserError::InvalidSubtag));
    assert_eq!(Region::try_from_bytes(b"fr").unwrap().as_bytes(), b"FR");
    assert_eq!(Region::try_from_bytes(b"12"), Err(ParserError::InvalidSubtag));
    assert_eq!(Variant::try_from_bytes(b"POSIX").unwrap().as_bytes(), b"posix");
    assert!(Variant::try_from_bytes(b"1996").is_ok());
    assert_eq!(Variant::try_from_bytes(b"abcd"), Err(ParserError::InvalidSubtag));
}

#[test]
fn variant_order_does_not_matter() {
    let a = parse_language_identifier(b"sl-rozaj-biske-1994", ParserMode::LanguageIdentifier);
    let b = parse_language_identifier(b"sl-1994-biske-rozaj", ParserMode::LanguageIdentifier);
    assert!(a.is_ok());
    assert_eq!(a, b);
}
