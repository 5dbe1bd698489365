use icu_text::segmenter::{
    GraphemeClusterBreakSegmenter, GraphemeClusterBreakTypeLatin1, GraphemeClusterBreakTypeUtf16,
    GraphemeClusterBreakTypeUtf8, RuleBreakData, BREAK_RULE, KEEP_RULE, NOT_MATCH_RULE,
};
use icu_text::trie::{CodePointMap8, TrieHeader};

const ANY: u8 = 0;
const CR: u8 = 1;
const LF: u8 = 2;
const EXTEND: u8 = 3;
const SOT: u8 = 4;
const EOT: u8 = 5;
const LETTER_A: u8 = 6;
const LETTER_B: u8 = 7;
/// A state after "A A", waiting to see whether a "B" follows.
const AFTER_AA: u8 = 8;
const COUNT: u8 = 8;

fn property_trie(entries: &[(u32, u8)]) -> CodePointMap8 {
    let mut index: Vec<u16> = vec![0; 1024];
    let mut data: Vec<u8> = vec![ANY; 64];
    let mut blocks: Vec<usize> = Vec::new();
    for &(cp, value) in entries {
        let block = (cp >> 6) as usize;
        if !blocks.contains(&block) {
            blocks.push(block);
            index[block] = data.len() as u16;
            data.extend(std::iter::repeat(ANY).take(64));
        }
        let at = index[block] as usize + (cp & 63) as usize;
        data[at] = value;
    }
    data.push(ANY);
    data.push(ANY);
    let header = TrieHeader {
        high_start: 0x10000,
        shifted12_high_start: 0x10,
        index3_null_offset: 0xFFFF,
        data_null_offset: 0,
        null_value: 0,
        small: false,
    };
    CodePointMap8::try_new(header, index, data).unwrap()
}

fn rule_data() -> RuleBreakData {
    let rows = AFTER_AA as usize + 1;
    let mut table: Vec<i8> = vec![BREAK_RULE; rows * COUNT as usize];
    let mut set = |left: u8, right: u8, state: i8| {
        table[left as usize * COUNT as usize + right as usize] = state;
    };
    set(CR, LF, KEEP_RULE);
    for left in [ANY, EXTEND, LETTER_A, LETTER_B] {
        set(left, EXTEND, KEEP_RULE);
    }
    set(LETTER_A, LETTER_A, AFTER_AA as i8);
    for right in [ANY, CR, LF, EXTEND, LETTER_A, EOT] {
        set(AFTER_AA, right, NOT_MATCH_RULE);
    }
    set(AFTER_AA, LETTER_B, KEEP_RULE);
    let properties = property_trie(&[
        (0x0D, CR),
        (0x0A, LF),
        (0x0301, EXTEND),
        (0x41, LETTER_A),
        (0x42, LETTER_B),
    ]);
    RuleBreakData {
        property_table: properties,
        break_state_table: table,
        property_count: COUNT,
        last_codepoint_property: 7,
        sot_property: SOT,
        eot_property: EOT,
        complex_property: 127,
    }
}

fn segmenter() -> GraphemeClusterBreakSegmenter {
    GraphemeClusterBreakSegmenter::new(rule_data())
}

#[test]
fn text_breaks_at_its_start_whatever_the_start_row() {
    let mut data = rule_data();
    data.sot_property = CR;
    let s = GraphemeClusterBreakSegmenter::new(data);
    assert_eq!(s.segment_str("\nab").collect_breaks(), vec![0, 1, 2, 3]);
}

#[test]
fn ascii_breaks_alike_in_all_encodings() {
    let s = segmenter();
    let text = "a\r\nAAB AAx e";
    let utf16: Vec<u16> = text.encode_utf16().collect();
    let utf8 = s.segment_str(text).collect_breaks();
    assert_eq!(utf8, s.segment_latin1(text.as_bytes()).collect_breaks());
    assert_eq!(utf8, s.segment_utf16(&utf16).collect_breaks());
}

#[test]
fn utf8_breaks_every_character() {
    let s = segmenter();
    let breaks = s.segment_str("Hello \u{1F5FA}").collect_breaks();
    assert_eq!(breaks, vec![0, 1, 2, 3, 4, 5, 6, 10]);
}

#[test]
fn latin1_breaks_every_byte() {
    let s = segmenter();
    let breaks = s.segment_latin1(b"Hello World").collect_breaks();
    assert_eq!(breaks, (0..=11).collect::<Vec<usize>>());
}

#[test]
fn utf16_surrogate_pair_is_one_cluster() {
    let s = segmenter();
    let text: Vec<u16> = "a\u{1F600}b".encode_utf16().collect();
    assert_eq!(s.segment_utf16(&text).collect_breaks(), vec![0, 1, 3, 4]);
}

#[test]
fn utf16_lone_surrogate_stands_alone() {
    let s = segmenter();
    let text: Vec<u16> = vec![0x61, 0xD800, 0x62];
    assert_eq!(s.segment_utf16(&text).collect_breaks(), vec![0, 1, 2, 3]);
}

#[test]
fn empty_input_has_no_breaks() {
    let s = segmenter();
    assert_eq!(s.segment_str("").collect_breaks(), Vec::<usize>::new());
    let mut iter = s.segment_latin1(b"");
    assert_eq!(iter.next(), None);
}

#[test]
fn cr_lf_stays_together() {
    let s = segmenter();
    assert_eq!(s.segment_str("a\r\nb").collect_breaks(), vec![0, 1, 3, 4]);
}

#[test]
fn combining_mark_extends_cluster() {
    let s = segmenter();
    assert_eq!(s.segment_str("e\u{0301}x").collect_breaks(), vec![0, 3, 4]);
}

#[test]
fn look_ahead_keeps_whole_rule() {
    let s = segmenter();
    assert_eq!(s.segment_str("AAB").collect_breaks(), vec![0, 3]);
}

#[test]
fn look_ahead_falls_back_when_rule_fails() {
    let s = segmenter();
    assert_eq!(s.segment_str("AAx").collect_breaks(), vec![0, 1, 2, 3]);
    assert_eq!(s.segment_str("AA").collect_breaks(), vec![0, 1, 2]);
}

#[test]
fn iterator_ends_after_length() {
    let s = segmenter();
    let mut iter = s.segment_latin1(b"ab");
    assert_eq!(iter.next(), Some(0));
    assert_eq!(iter.next(), Some(1));
    assert_eq!(iter.next(), Some(2));
    assert_eq!(iter.next(), None);
    assert_eq!(iter.next(), None);
}

#[test]
fn character_lengths() {
    assert_eq!(GraphemeClusterBreakTypeUtf8::get_current_position_character_len('a'), 1);
    assert_eq!(GraphemeClusterBreakTypeUtf8::get_current_position_character_len('\u{E9}'), 2);
    assert_eq!(GraphemeClusterBreakTypeUtf8::get_current_position_character_len('\u{AC00}'), 3);
    assert_eq!(GraphemeClusterBreakTypeUtf8::get_current_position_character_len('\u{1F5FA}'), 4);
    assert_eq!(GraphemeClusterBreakTypeLatin1::get_current_position_character_len(0xE9), 1);
    assert_eq!(GraphemeClusterBreakTypeUtf16::get_current_position_character_len(0x1F5FA), 2);
    assert_eq!(GraphemeClusterBreakTypeUtf16::get_current_position_character_len(0xAC00), 1);
}
