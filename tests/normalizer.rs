use icu_properties::CanonicalCombiningClass;
use icu_text::normalizer::{
    CanonicalCombiningClassMap, CanonicalComposition, CanonicalDecomposition, Decomposed,
    NormalizerError,
};
use icu_text::trie::{CodePointMap32, TrieHeader};

/// A fast-type trie over the BMP holding `entries`; every other code point
/// holds `other`.
fn bmp_trie(entries: &[(u32, u32)], other: u32) -> CodePointMap32 {
    let mut index: Vec<u16> = vec![0; 1024];
    let mut data: Vec<u32> = vec![other; 64];
    let mut blocks: Vec<usize> = Vec::new();
    for &(cp, value) in entries {
        let block = (cp >> 6) as usize;
        if !blocks.contains(&block) {
            blocks.push(block);
            index[block] = data.len() as u16;
            data.extend(std::iter::repeat(other).take(64));
        }
        let at = index[block] as usize + (cp & 63) as usize;
        data[at] = value;
    }
    data.push(other);
    data.push(other);
    let header = TrieHeader {
        high_start: 0x10000,
        shifted12_high_start: 0x10,
        index3_null_offset: 0xFFFF,
        data_null_offset: 0,
        null_value: other,
        small: false,
    };
    CodePointMap32::try_new(header, index, data).unwrap()
}

fn decomposition() -> CanonicalDecomposition {
    let main = bmp_trie(
        &[
            (0x1EC7, 0x1EB9 | (0x0302 << 16)),
            (0x212B, 0x0001_0000 | 0x0001),
            (0x2126, 0x03A9),
            (0x1F71, 0x03B1 | (0x0301 << 16)),
            (0x0344, 2),
            (0x0345, 2),
            (0x0958, 1 << 16),
            (0x0959, (1 << 13 | 3) << 16),
            (0x095A, 3 << 16),
            (0x095B, (2 << 13 | 3) << 16),
            (0x0301, 0xD8E6),
        ],
        0,
    );
    let supplement = bmp_trie(&[(0x1F71, 0x03AC), (0x1F72, 1 << 16)], 0);
    CanonicalDecomposition::try_new(
        main,
        vec![0, 0x0915, 0x093C],
        vec![0x1D157, 0x1D165],
        supplement,
        vec![0x1D15F, 0x1D16E],
    )
    .unwrap()
}

#[test]
fn character_without_decomposition() {
    assert_eq!(decomposition().decompose('e'), Decomposed::Default);
}

#[test]
fn two_bmp_characters() {
    assert_eq!(decomposition().decompose('\u{1EC7}'), Decomposed::Expansion('\u{1EB9}', '\u{0302}'));
}

#[test]
fn hangul_lv_syllable() {
    assert_eq!(decomposition().decompose('\u{AC00}'), Decomposed::Expansion('\u{1100}', '\u{1161}'));
}

#[test]
fn hangul_lvt_syllable() {
    assert_eq!(decomposition().decompose('\u{AC01}'), Decomposed::Expansion('\u{AC00}', '\u{11A8}'));
    assert_eq!(decomposition().decompose('\u{D7A3}'), Decomposed::Expansion('\u{D788}', '\u{11C2}'));
}

#[test]
fn angstrom_sign() {
    assert_eq!(decomposition().decompose('\u{212B}'), Decomposed::Singleton('\u{00C5}'));
}

#[test]
fn ohm_sign() {
    assert_eq!(decomposition().decompose('\u{2126}'), Decomposed::Singleton('\u{03A9}'));
}

#[test]
fn oxia_goes_to_supplement() {
    assert_eq!(decomposition().decompose('\u{1F71}'), Decomposed::Singleton('\u{03AC}'));
}

#[test]
fn special_non_starters() {
    let d = decomposition();
    assert_eq!(d.decompose('\u{0344}'), Decomposed::Expansion('\u{0308}', '\u{0301}'));
    assert_eq!(d.decompose('\u{0345}'), Decomposed::Default);
}

#[test]
fn complex_decompositions() {
    let d = decomposition();
    assert_eq!(d.decompose('\u{0958}'), Decomposed::Expansion('\u{0915}', '\u{093C}'));
    assert_eq!(d.decompose('\u{0959}'), Decomposed::Expansion('\u{1D157}', '\u{1D165}'));
    assert_eq!(d.decompose('\u{095A}'), Decomposed::Singleton('\u{1D157}'));
    // Longer than two: left to the supplementary trie, which has nothing.
    assert_eq!(d.decompose('\u{095B}'), Decomposed::Default);
}

#[test]
fn tables_too_large_are_refused() {
    let r = CanonicalDecomposition::try_new(
        bmp_trie(&[], 0),
        vec![0; 0x800],
        vec![0; 0x800],
        bmp_trie(&[], 0),
        vec![],
    );
    assert_eq!(r.err(), Some(NormalizerError::FutureExtension));
}

fn composition() -> CanonicalComposition {
    CanonicalComposition::try_new(vec![
        ('\u{1EB9}', '\u{0302}', '\u{1EC7}'),
        ('a', '\u{0308}', '\u{00E4}'),
        ('\u{09C7}', '\u{09BE}', '\u{09CB}'),
    ])
    .unwrap()
}

#[test]
fn compose_pairs() {
    let c = composition();
    assert_eq!(c.compose('a', 'b'), None);
    assert_eq!(c.compose('a', '\u{0308}'), Some('\u{00E4}'));
    assert_eq!(c.compose('\u{1EB9}', '\u{0302}'), Some('\u{1EC7}'));
    assert_eq!(c.compose('\u{09C7}', '\u{09BE}'), Some('\u{09CB}'));
}

#[test]
fn composition_exclusion_does_not_compose() {
    assert_eq!(composition().compose('\u{1D157}', '\u{1D165}'), None);
}

#[test]
fn compose_hangul() {
    let c = composition();
    assert_eq!(c.compose('\u{1100}', '\u{1161}'), Some('\u{AC00}'));
    assert_eq!(c.compose('\u{AC00}', '\u{11A8}'), Some('\u{AC01}'));
    assert_eq!(c.compose('\u{AC01}', '\u{11A8}'), None);
    assert_eq!(c.compose('a', '\u{1161}'), None);
}

#[test]
fn hangul_round_trip() {
    let d = decomposition();
    let c = composition();
    for cp in [0xAC00u32, 0xAC01, 0xB098, 0xD7A3] {
        let ch = char::from_u32(cp).unwrap();
        match d.decompose(ch) {
            Decomposed::Expansion(a, b) => assert_eq!(c.compose(a, b), Some(ch)),
            other => panic!("{:?}", other),
        }
    }
}

#[test]
fn unsorted_composition_table_is_refused() {
    let r = CanonicalComposition::try_new(vec![('a', '\u{0308}', '\u{00E4}'), ('\u{1EB9}', '\u{0302}', '\u{1EC7}')]);
    assert_eq!(r.err(), Some(NormalizerError::InvalidData));
}

#[test]
fn combining_classes() {
    let map = CanonicalCombiningClassMap::new(bmp_trie(
        &[(0x0301, 0xD8E6), (0x0340, 2), (0x0F73, 2), (0x0316, 0xD8DC)],
        0,
    ));
    assert_eq!(map.get('a'), CanonicalCombiningClass::NotReordered);
    assert_eq!(map.get_u32(0x0301), CanonicalCombiningClass::Above);
    assert_eq!(map.get_u32(0x0316), CanonicalCombiningClass::Below);
    assert_eq!(map.get('\u{0340}'), CanonicalCombiningClass::Above);
    assert_eq!(map.get('\u{0F73}'), CanonicalCombiningClass::NotReordered);
    assert_eq!(map.get_u32(0x110000), CanonicalCombiningClass::NotReordered);
}
