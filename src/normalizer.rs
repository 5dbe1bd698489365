//! Canonical decomposition, canonical composition and the canonical
//! combining class, read from code point tries.

use vstd::prelude::*;
use icu_properties::CanonicalCombiningClass;
use crate::trie::{
    CodePointMap32, char_or_replacement, scalar_or_replacement, trie_values32,
};

verus! {

/// Trie values up to this one mean that a character decomposes to itself.
pub const BACKWARD_COMBINING_STARTER_MARKER: u32 = 1;

/// The trie value of a non-starter whose decomposition is written out here.
pub const SPECIAL_NON_STARTER_DECOMPOSITION_MARKER: u32 = 2;

/// The low half of `SPECIAL_NON_STARTER_DECOMPOSITION_MARKER`.
pub const SPECIAL_NON_STARTER_DECOMPOSITION_MARKER_U16: u32 = 2;

/// Low halves up to this one do not hold a character.
pub const NON_ROUND_TRIP_MARKER: u32 = 1;

pub const HANGUL_S_BASE: u32 = 0xAC00;
pub const HANGUL_L_BASE: u32 = 0x1100;
pub const HANGUL_V_BASE: u32 = 0x1161;
pub const HANGUL_T_BASE: u32 = 0x11A7;
pub const HANGUL_L_COUNT: u32 = 19;
pub const HANGUL_V_COUNT: u32 = 21;
pub const HANGUL_T_COUNT: u32 = 28;
pub const HANGUL_N_COUNT: u32 = 588;
pub const HANGUL_S_COUNT: u32 = 11172;

/// The largest number of scalars that the offsets of complex decompositions
/// can address.
pub const COMPLEX_TABLES_CAPACITY: usize = 0xFFF;

/// Errors of building the normalizer's data.
#[derive(PartialEq, Eq, Structural, Clone, Copy, Debug)]
pub enum NormalizerError {
    /// The tables are larger than the bit fields of the trie values can address.
    FutureExtension,
    /// The data is malformed: an empty trie, or a composition table that is
    /// not sorted by its keys.
    InvalidData,
}

/// The outcome of non-recursive canonical decomposition of a character.
#[derive(PartialEq, Eq, Structural, Clone, Copy, Debug)]
pub enum Decomposed {
    /// The character is its own canonical decomposition.
    Default,
    /// The character decomposes to a single different character.
    Singleton(char),
    /// The character decomposes to two characters.
    Expansion(char, char),
}

/// A decomposition as code points.
pub enum DecompositionModel {
    Default,
    Singleton(u32),
    Expansion(u32, u32),
}

pub open spec fn decomposed_model(d: Decomposed) -> DecompositionModel {
    match d {
        Decomposed::Default => DecompositionModel::Default,
        Decomposed::Singleton(a) => DecompositionModel::Singleton(a as u32),
        Decomposed::Expansion(a, b) => DecompositionModel::Expansion(a as u32, b as u32),
    }
}

pub open spec fn is_hangul_syllable(c: u32) -> bool {
    HANGUL_S_BASE <= c && c < HANGUL_S_BASE + HANGUL_S_COUNT
}

/// The closed form of a Hangul syllable's decomposition: leading consonant
/// and vowel for an LV syllable, LV syllable and trailing consonant for an
/// LVT syllable.
pub open spec fn hangul_decomposition(c: u32) -> DecompositionModel {
    let lvt = c - HANGUL_S_BASE;
    let t = lvt % HANGUL_T_COUNT as int;
    if t == 0 {
        DecompositionModel::Expansion(
            (HANGUL_L_BASE + lvt / HANGUL_N_COUNT as int) as u32,
            (HANGUL_V_BASE + (lvt % HANGUL_N_COUNT as int) / HANGUL_T_COUNT as int) as u32,
        )
    } else {
        DecompositionModel::Expansion(
            (HANGUL_S_BASE + lvt - t) as u32,
            (HANGUL_T_BASE + t) as u32,
        )
    }
}

/// What the main trie value alone leaves open: where its decomposition
/// is, or that the supplementary trie holds it.
pub enum MainLookup {
    Done(DecompositionModel),
    Supplement,
}

pub open spec fn low16(v: u32) -> u32 {
    v % 0x10000
}

pub open spec fn high16(v: u32) -> u32 {
    v / 0x10000
}

/// The written-out decompositions of the special non-starters.
pub open spec fn special_non_starter(c: u32) -> DecompositionModel {
    if c == 0x0340 {
        DecompositionModel::Singleton(0x0300)
    } else if c == 0x0341 {
        DecompositionModel::Singleton(0x0301)
    } else if c == 0x0343 {
        DecompositionModel::Singleton(0x0313)
    } else if c == 0x0344 {
        DecompositionModel::Expansion(0x0308, 0x0301)
    } else if c == 0x0F73 {
        DecompositionModel::Expansion(0x0F71, 0x0F72)
    } else if c == 0x0F75 {
        DecompositionModel::Expansion(0x0F71, 0x0F74)
    } else if c == 0x0F81 {
        DecompositionModel::Expansion(0x0F71, 0x0F80)
    } else {
        DecompositionModel::Default
    }
}

/// Decodes the main trie value `v` of the character `c` against the tables
/// of complex decompositions.
pub open spec fn decode_main(c: u32, v: u32, scalars16: Seq<u16>, scalars24: Seq<u32>) -> MainLookup {
    let trail = high16(v);
    let lead = low16(v);
    if v <= BACKWARD_COMBINING_STARTER_MARKER {
        MainLookup::Done(DecompositionModel::Default)
    } else if lead > NON_ROUND_TRIP_MARKER && trail != 0 {
        if 0x1F71 <= c && c <= 0x1FFB {
            MainLookup::Supplement
        } else {
            MainLookup::Done(
                DecompositionModel::Expansion(
                    scalar_or_replacement(lead),
                    scalar_or_replacement(trail),
                ),
            )
        }
    } else if lead > NON_ROUND_TRIP_MARKER {
        if lead == SPECIAL_NON_STARTER_DECOMPOSITION_MARKER_U16 {
            MainLookup::Done(special_non_starter(c))
        } else {
            MainLookup::Done(DecompositionModel::Singleton(scalar_or_replacement(lead)))
        }
    } else if c == 0x212B {
        MainLookup::Done(DecompositionModel::Singleton(0x00C5))
    } else {
        let offset = trail % 0x1000;
        let len_bits = trail / 0x2000;
        if offset < scalars16.len() {
            if len_bits != 0 {
                MainLookup::Supplement
            } else if offset + 1 < scalars16.len() {
                MainLookup::Done(
                    DecompositionModel::Expansion(
                        scalar_or_replacement(scalars16[offset as int] as u32),
                        scalar_or_replacement(scalars16[offset + 1] as u32),
                    ),
                )
            } else {
                MainLookup::Done(DecompositionModel::Default)
            }
        } else if len_bits + 1 > 2 {
            MainLookup::Supplement
        } else {
            let offset24 = offset - scalars16.len();
            if offset24 < scalars24.len() {
                if len_bits == 0 {
                    MainLookup::Done(
                        DecompositionModel::Singleton(
                            scalar_or_replacement(scalars24[offset24 as int]),
                        ),
                    )
                } else if offset24 + 1 < scalars24.len() {
                    MainLookup::Done(
                        DecompositionModel::Expansion(
                            scalar_or_replacement(scalars24[offset24 as int]),
                            scalar_or_replacement(scalars24[offset24 + 1]),
                        ),
                    )
                } else {
                    MainLookup::Done(DecompositionModel::Default)
                }
            } else {
                MainLookup::Done(DecompositionModel::Default)
            }
        }
    }
}

/// Decodes the value `v` of the supplementary trie against its table of
/// non-BMP scalars.
pub open spec fn decode_supplement(v: u32, scalars24: Seq<u32>) -> DecompositionModel {
    let trail = high16(v);
    let lead = low16(v);
    if v == 0 {
        DecompositionModel::Default
    } else if lead != 0 && trail != 0 {
        DecompositionModel::Expansion(scalar_or_replacement(lead), scalar_or_replacement(trail))
    } else if lead != 0 {
        DecompositionModel::Singleton(scalar_or_replacement(lead))
    } else if trail >= 1 && trail - 1 + 1 < scalars24.len() {
        DecompositionModel::Expansion(
            scalar_or_replacement(scalars24[trail - 1]),
            scalar_or_replacement(scalars24[trail as int]),
        )
    } else {
        DecompositionModel::Default
    }
}

/// Splits a Hangul syllable into its parts.
pub fn decompose_hangul(c: char) -> (r: Decomposed)
    requires
        is_hangul_syllable(c as u32),
    ensures
        decomposed_model(r) == hangul_decomposition(c as u32),
{
    let lvt = (c as u32) - HANGUL_S_BASE;
    let t = lvt % HANGUL_T_COUNT;
    if t == 0 {
        let l = lvt / HANGUL_N_COUNT;
        let v = (lvt % HANGUL_N_COUNT) / HANGUL_T_COUNT;
        assert(l < HANGUL_L_COUNT);
        assert(v < HANGUL_V_COUNT);
        return Decomposed::Expansion(
            char_or_replacement(HANGUL_L_BASE + l),
            char_or_replacement(HANGUL_V_BASE + v),
        );
    }
    let lv = lvt - t;
    Decomposed::Expansion(
        char_or_replacement(HANGUL_S_BASE + lv),
        char_or_replacement(HANGUL_T_BASE + t),
    )
}

/// The written-out decompositions of the special non-starters.
fn special_non_starter_decomposition(c: char) -> (r: Decomposed)
    ensures
        decomposed_model(r) == special_non_starter(c as u32),
{
    let v = c as u32;
    if v == 0x0340 {
        Decomposed::Singleton(char_or_replacement(0x0300))
    } else if v == 0x0341 {
        Decomposed::Singleton(char_or_replacement(0x0301))
    } else if v == 0x0343 {
        Decomposed::Singleton(char_or_replacement(0x0313))
    } else if v == 0x0344 {
        Decomposed::Expansion(char_or_replacement(0x0308), char_or_replacement(0x0301))
    } else if v == 0x0F73 {
        Decomposed::Expansion(char_or_replacement(0x0F71), char_or_replacement(0x0F72))
    } else if v == 0x0F75 {
        Decomposed::Expansion(char_or_replacement(0x0F71), char_or_replacement(0x0F74))
    } else if v == 0x0F81 {
        Decomposed::Expansion(char_or_replacement(0x0F71), char_or_replacement(0x0F80))
    } else {
        Decomposed::Default
    }
}

/// Decodes the main trie value `v` of `c`: `None` where the supplementary
/// trie holds the decomposition.
pub fn decode_main_value(c: char, v: u32, scalars16: &[u16], scalars24: &[u32]) -> (r: Option<
    Decomposed,
>)
    ensures
        match decode_main(c as u32, v, scalars16@, scalars24@) {
            MainLookup::Done(m) => r matches Some(d) && decomposed_model(d) == m,
            MainLookup::Supplement => r is None,
        },
{
    if v <= BACKWARD_COMBINING_STARTER_MARKER {
        return Some(Decomposed::Default);
    }
    let trail = v / 0x10000;
    let lead = v % 0x10000;
    let cp = c as u32;
    if lead > NON_ROUND_TRIP_MARKER && trail != 0 {
        if 0x1F71 <= cp && cp <= 0x1FFB {
            // The oxia characters map to their tonos forms in the supplementary trie.
            return None;
        }
        return Some(Decomposed::Expansion(char_or_replacement(lead), char_or_replacement(trail)));
    }
    if lead > NON_ROUND_TRIP_MARKER {
        if lead == SPECIAL_NON_STARTER_DECOMPOSITION_MARKER_U16 {
            return Some(special_non_starter_decomposition(c));
        }
        return Some(Decomposed::Singleton(char_or_replacement(lead)));
    }
    if cp == 0x212B {
        // ANGSTROM SIGN
        return Some(Decomposed::Singleton(char_or_replacement(0x00C5)));
    }
    let offset = (trail % 0x1000) as usize;
    let len_bits = (trail / 0x2000) as usize;
    if offset < scalars16.len() {
        if len_bits != 0 {
            return None;
        }
        if offset + 1 < scalars16.len() {
            return Some(
                Decomposed::Expansion(
                    char_or_replacement(scalars16[offset] as u32),
                    char_or_replacement(scalars16[offset + 1] as u32),
                ),
            );
        }
        // Malformed data.
        return Some(Decomposed::Default);
    }
    if len_bits + 1 > 2 {
        return None;
    }
    let offset24 = offset - scalars16.len();
    if offset24 < scalars24.len() {
        let first = char_or_replacement(scalars24[offset24]);
        if len_bits == 0 {
            return Some(Decomposed::Singleton(first));
        }
        if offset24 + 1 < scalars24.len() {
            return Some(Decomposed::Expansion(first, char_or_replacement(scalars24[offset24 + 1])));
        }
    }
    // Malformed data.
    Some(Decomposed::Default)
}

/// Decodes the value `v` of the supplementary trie.
pub fn decode_supplement_value(v: u32, scalars24: &[u32]) -> (r: Decomposed)
    ensures
        decomposed_model(r) == decode_supplement(v, scalars24@),
{
    if v == 0 {
        // Malformed data.
        return Decomposed::Default;
    }
    let trail = v / 0x10000;
    let lead = v % 0x10000;
    if lead != 0 && trail != 0 {
        return Decomposed::Expansion(char_or_replacement(lead), char_or_replacement(trail));
    }
    if lead != 0 {
        return Decomposed::Singleton(char_or_replacement(lead));
    }
    // The trail is an offset into the table, plus one.
    if trail >= 1 && ((trail - 1) as usize) + 1 < scalars24.len() {
        let offset = (trail - 1) as usize;
        return Decomposed::Expansion(
            char_or_replacement(scalars24[offset]),
            char_or_replacement(scalars24[offset + 1]),
        );
    }
    // Malformed data.
    Decomposed::Default
}

/// Non-recursive canonical decomposition: a main trie and its tables of
/// complex decompositions, and a supplementary trie with its table of
/// non-BMP scalars.
pub struct CanonicalDecomposition {
    decompositions: CodePointMap32,
    scalars16: Vec<u16>,
    scalars24: Vec<u32>,
    non_recursive: CodePointMap32,
    non_recursive_scalars24: Vec<u32>,
}

impl CanonicalDecomposition {
    pub closed spec fn main_trie(&self) -> CodePointMap32 {
        self.decompositions
    }

    pub closed spec fn scalars16_view(&self) -> Seq<u16> {
        self.scalars16@
    }

    pub closed spec fn scalars24_view(&self) -> Seq<u32> {
        self.scalars24@
    }

    pub closed spec fn supplement_trie(&self) -> CodePointMap32 {
        self.non_recursive
    }

    pub closed spec fn supplement_scalars24_view(&self) -> Seq<u32> {
        self.non_recursive_scalars24@
    }

    /// The offsets of complex decompositions address both tables.
    pub open spec fn wf(&self) -> bool {
        self.scalars16_view().len() + self.scalars24_view().len() <= COMPLEX_TABLES_CAPACITY
    }

    /// The decomposition of `c` that this data gives.
    pub open spec fn decomposition_of(&self, c: u32) -> DecompositionModel {
        if is_hangul_syllable(c) {
            hangul_decomposition(c)
        } else {
            self.trie_decomposition_of(c)
        }
    }

    /// The decomposition of `c` that the tries give; for Hangul syllables,
    /// which the data maps to nothing, this is `Default`.
    pub open spec fn trie_decomposition_of(&self, c: u32) -> DecompositionModel {
        match decode_main(c, trie_values32(self.main_trie())[c], self.scalars16_view(), self.scalars24_view()) {
            MainLookup::Done(m) => m,
            MainLookup::Supplement => decode_supplement(
                trie_values32(self.supplement_trie())[c],
                self.supplement_scalars24_view(),
            ),
        }
    }

    /// Builds the decomposition data; fails with `FutureExtension` where the
    /// two tables of complex decompositions hold more than the offsets can
    /// address.
    pub fn try_new(
        decompositions: CodePointMap32,
        scalars16: Vec<u16>,
        scalars24: Vec<u32>,
        non_recursive: CodePointMap32,
        non_recursive_scalars24: Vec<u32>,
    ) -> (r: Result<CanonicalDecomposition, NormalizerError>)
        ensures
            r is Err <==> scalars16@.len() + scalars24@.len() > COMPLEX_TABLES_CAPACITY,
            r is Err ==> r->Err_0 == NormalizerError::FutureExtension,
            r matches Ok(d) ==> d.wf() && d.main_trie() == decompositions && d.scalars16_view()
                == scalars16@ && d.scalars24_view() == scalars24@ && d.supplement_trie()
                == non_recursive && d.supplement_scalars24_view() == non_recursive_scalars24@,
    {
        if scalars16.len() > COMPLEX_TABLES_CAPACITY || scalars24.len() > COMPLEX_TABLES_CAPACITY
            - scalars16.len() {
            return Err(NormalizerError::FutureExtension);
        }
        Ok(CanonicalDecomposition {
            decompositions,
            scalars16,
            scalars24,
            non_recursive,
            non_recursive_scalars24,
        })
    }

    /// Performs non-recursive canonical decomposition (Hangul included).
    pub fn decompose(&self, c: char) -> (r: Decomposed)
        ensures
            decomposed_model(r) == self.decomposition_of(c as u32),
    {
        let lvt = (c as u32).wrapping_sub(HANGUL_S_BASE);
        if (c as u32) < HANGUL_S_BASE || lvt >= HANGUL_S_COUNT {
            return self.decompose_non_hangul(c);
        }
        decompose_hangul(c)
    }

    /// Performs non-recursive canonical decomposition from the tries alone:
    /// Hangul syllables, which the data leaves out, come back as `Default`.
    fn decompose_non_hangul(&self, c: char) -> (r: Decomposed)
        ensures
            decomposed_model(r) == self.trie_decomposition_of(c as u32),
    {
        let value = self.decompositions.get32(c as u32);
        match decode_main_value(c, value, self.scalars16.as_slice(), self.scalars24.as_slice()) {
            Some(d) => d,
            None => {
                let supplement = self.non_recursive.get32(c as u32);
                decode_supplement_value(supplement, self.non_recursive_scalars24.as_slice())
            },
        }
    }
}

/// One entry of the composition table: `starter` and `second` compose to
/// `composed`.
pub type CompositionEntry = (char, char, char);

/// The table's order: by second character, then by starter.
pub open spec fn key_lt(a: CompositionEntry, b: CompositionEntry) -> bool {
    a.1 < b.1 || (a.1 == b.1 && a.0 < b.0)
}

pub open spec fn entries_sorted(entries: Seq<CompositionEntry>) -> bool {
    forall|i: int, j: int|
        0 <= i < j < entries.len() ==> key_lt(#[trigger] entries[i], #[trigger] entries[j])
}

pub open spec fn has_pair(entries: Seq<CompositionEntry>, starter: char, second: char) -> bool {
    exists|i: int|
        0 <= i < entries.len() && (#[trigger] entries[i]).0 == starter && entries[i].1 == second
}

/// What the table composes `starter` and `second` to.
pub open spec fn table_lookup(entries: Seq<CompositionEntry>, starter: char, second: char) -> Option<
    u32,
> {
    if has_pair(entries, starter, second) {
        let i = choose|i: int|
            0 <= i < entries.len() && (#[trigger] entries[i]).0 == starter && entries[i].1 == second;
        Some(entries[i].2 as u32)
    } else {
        None
    }
}

pub open spec fn is_hangul_jamo_second(second: u32) -> bool {
    HANGUL_V_BASE <= second && second < 0x1200
}

/// Canonical composition of `starter` and `second`: the closed form for
/// Hangul, else the table.
pub open spec fn composition_of(entries: Seq<CompositionEntry>, starter_char: char, second_char: char) -> Option<
    u32,
> {
    let starter = starter_char as u32;
    let second = second_char as u32;
    if !is_hangul_jamo_second(second) {
        table_lookup(entries, starter_char, second_char)
    } else if second < HANGUL_V_BASE + HANGUL_V_COUNT {
        if HANGUL_L_BASE <= starter && starter < HANGUL_L_BASE + HANGUL_L_COUNT {
            Some(
                (HANGUL_S_BASE + (starter - HANGUL_L_BASE) * HANGUL_N_COUNT + (second
                    - HANGUL_V_BASE) * HANGUL_T_COUNT) as u32,
            )
        } else {
            None
        }
    } else if 0x11A8 <= second && second <= 0x11C2 && is_hangul_syllable(starter) && (starter
        - HANGUL_S_BASE) % HANGUL_T_COUNT as int == 0 {
        Some((starter + (second - HANGUL_T_BASE)) as u32)
    } else {
        None
    }
}

pub open spec fn option_char_model(r: Option<char>) -> Option<u32> {
    match r {
        Some(c) => Some(c as u32),
        None => None,
    }
}

/// The raw canonical composition operation, over a table of the pairs that
/// compose, composition exclusions left out.
pub struct CanonicalComposition {
    entries: Vec<CompositionEntry>,
}

impl CanonicalComposition {
    pub closed spec fn entries_view(&self) -> Seq<CompositionEntry> {
        self.entries@
    }

    pub open spec fn wf(&self) -> bool {
        entries_sorted(self.entries_view())
    }

    /// Builds the composition data from its table, which must be sorted by
    /// second character, then starter, each pair once.
    pub fn try_new(entries: Vec<CompositionEntry>) -> (r: Result<CanonicalComposition, NormalizerError>)
        ensures
            r is Ok <==> entries_sorted(entries@),
            r matches Ok(c) ==> c.wf() && c.entries_view() == entries@,
            r is Err ==> r->Err_0 == NormalizerError::InvalidData,
    {
        let mut i: usize = 1;
        while i < entries.len()
            invariant
                1 <= i,
                forall|a: int, b: int|
                    0 <= a < b < i && b < entries@.len() ==> key_lt(
                        #[trigger] entries@[a],
                        #[trigger] entries@[b],
                    ),
            decreases entries@.len() - i,
        {
            let (s0, t0, _) = entries[i - 1];
            let (s1, t1, _) = entries[i];
            if !(t0 < t1 || (t0 == t1 && s0 < s1)) {
                assert(!key_lt(entries@[i - 1], entries@[i as int]));
                return Err(NormalizerError::InvalidData);
            }
            assert forall|a: int, b: int|
                0 <= a < b < i + 1 && b < entries@.len() implies key_lt(
                #[trigger] entries@[a],
                #[trigger] entries@[b],
            ) by {
                if b == i && a < i - 1 {
                    assert(key_lt(entries@[a], entries@[i - 1]));
                }
            }
            i = i + 1;
        }
        Ok(CanonicalComposition { entries })
    }

    /// Looks up the pair in the table.
    fn lookup(&self, starter: char, second: char) -> (r: Option<char>)
        requires
            self.wf(),
        ensures
            option_char_model(r) == table_lookup(self.entries_view(), starter, second),
    {
        let ghost e = self.entries@;
        let mut lo: usize = 0;
        let mut hi: usize = self.entries.len();
        while lo < hi
            invariant
                e == self.entries@,
                entries_sorted(e),
                lo <= hi <= e.len(),
                forall|j: int|
                    0 <= j < lo ==> key_lt(#[trigger] e[j], (starter, second, starter)),
                forall|j: int|
                    hi <= j < e.len() ==> key_lt((starter, second, starter), #[trigger] e[j]),
            decreases hi - lo,
        {
            let mid = lo + (hi - lo) / 2;
            let entry = self.entries[mid];
            assert(entry == e[mid as int]);
            let es = entry.0;
            let et = entry.1;
            if et == second && es == starter {
                proof {
                    let k = choose|k: int|
                        0 <= k < e.len() && (#[trigger] e[k]).0 == starter && e[k].1 == second;
                    if k < mid {
                        assert(key_lt(e[k], e[mid as int]));
                    } else if k > mid {
                        assert(key_lt(e[mid as int], e[k]));
                    }
                }
                return Some(entry.2);
            } else if et < second || (et == second && es < starter) {
                assert forall|j: int| 0 <= j < mid + 1 implies key_lt(
                    #[trigger] e[j],
                    (starter, second, starter),
                ) by {
                    if j < mid {
                        assert(key_lt(e[j], e[mid as int]));
                    }
                }
                lo = mid + 1;
            } else {
                assert forall|j: int| mid <= j < e.len() implies key_lt(
                    (starter, second, starter),
                    #[trigger] e[j],
                ) by {
                    if j > mid {
                        assert(key_lt(e[mid as int], e[j]));
                    }
                }
                hi = mid;
            }
        }
        assert(!has_pair(e, starter, second)) by {
            if has_pair(e, starter, second) {
                let k = choose|k: int|
                    0 <= k < e.len() && (#[trigger] e[k]).0 == starter && e[k].1 == second;
                if k < lo {
                    assert(key_lt(e[k], (starter, second, starter)));
                } else {
                    assert(key_lt((starter, second, starter), e[k]));
                }
            }
        }
        None
    }

    /// Performs canonical composition (Hangul included) of a pair of
    /// characters, or returns `None` where they do not compose.
    pub fn compose(&self, starter: char, second: char) -> (r: Option<char>)
        requires
            self.wf(),
        ensures
            option_char_model(r) == composition_of(self.entries_view(), starter, second),
    {
        let s = starter as u32;
        let t = second as u32;
        if t < HANGUL_V_BASE || t >= 0x1200 {
            return self.lookup(starter, second);
        }
        if t < HANGUL_V_BASE + HANGUL_V_COUNT {
            if HANGUL_L_BASE <= s && s < HANGUL_L_BASE + HANGUL_L_COUNT {
                let l = s - HANGUL_L_BASE;
                let v = t - HANGUL_V_BASE;
                let lv = l * HANGUL_N_COUNT + v * HANGUL_T_COUNT;
                return Some(char_or_replacement(HANGUL_S_BASE + lv));
            }
            return None;
        }
        if 0x11A8 <= t && t <= 0x11C2 && HANGUL_S_BASE <= s && s < HANGUL_S_BASE + HANGUL_S_COUNT
            && (s - HANGUL_S_BASE) % HANGUL_T_COUNT == 0 {
            return Some(char_or_replacement(s + (t - HANGUL_T_BASE)));
        }
        None
    }
}

/// Every Hangul syllable composes back from its decomposition, whatever
/// the table.
pub proof fn lemma_hangul_round_trip(entries: Seq<CompositionEntry>, c: u32)
    requires
        is_hangul_syllable(c),
    ensures
        hangul_decomposition(c) matches DecompositionModel::Expansion(a, b) && forall|ca: char, cb: char|
            ca as u32 == a && cb as u32 == b ==> composition_of(entries, ca, cb) == Some(c),
{
    let lvt = c - HANGUL_S_BASE;
    let t = lvt % 28;
    assert(0 <= lvt < 11172);
    if t == 0 {
        let l = lvt / 588;
        let v = (lvt % 588) / 28;
        assert(l < 19) by (nonlinear_arith)
            requires
                0 <= lvt < 11172,
                l == lvt / 588,
        ;
        assert(0 <= v < 21) by (nonlinear_arith)
            requires
                v == (lvt % 588) / 28,
        ;
        assert(l * 588 + v * 28 == lvt) by (nonlinear_arith)
            requires
                0 <= lvt,
                l == lvt / 588,
                v == (lvt % 588) / 28,
                lvt % 28 == 0,
        ;
    } else {
        assert((lvt - t) % 28 == 0) by (nonlinear_arith)
            requires
                t == lvt % 28,
                0 <= lvt,
        ;
    }
}

/// Every entry of a well-formed table composes its pair, unless the second
/// character is a Hangul jamo, which compose in closed form.
pub proof fn lemma_table_entry_composes(entries: Seq<CompositionEntry>, i: int)
    requires
        entries_sorted(entries),
        0 <= i < entries.len(),
        !is_hangul_jamo_second(entries[i].1 as u32),
    ensures
        composition_of(entries, entries[i].0, entries[i].1) == Some(entries[i].2 as u32),
{
    let s = entries[i].0;
    let t = entries[i].1;
    assert(has_pair(entries, s, t));
    let k = choose|k: int| 0 <= k < entries.len() && (#[trigger] entries[k]).0 == s && entries[k].1 == t;
    if k < i {
        assert(key_lt(entries[k], entries[i]));
    } else if k > i {
        assert(key_lt(entries[i], entries[k]));
    }
}

/// `icu_properties::CanonicalCombiningClass` is a newtype over a public
/// `u8`, the class's number; Verus reads that field as it stands.
#[verifier::external_type_specification]
pub struct ExCanonicalCombiningClass(CanonicalCombiningClass);

/// Whether a trie value holds a non-zero canonical combining class in its
/// low byte.
pub open spec fn trie_value_has_ccc(v: u32) -> bool {
    v / 0x100 == 0xD8
}

/// The canonical combining class that the decomposition trie value `v` of
/// the code point `c` gives.
pub open spec fn combining_class_from_value(c: u32, v: u32) -> u8 {
    if trie_value_has_ccc(v) {
        (v % 0x100) as u8
    } else if v == SPECIAL_NON_STARTER_DECOMPOSITION_MARKER {
        if c == 0x0340 || c == 0x0341 || c == 0x0343 || c == 0x0344 {
            230
        } else {
            0
        }
    } else {
        0
    }
}

/// The canonical combining class that a decomposition trie value gives.
pub fn combining_class_of_value(c: u32, v: u32) -> (r: CanonicalCombiningClass)
    ensures
        r.0 == combining_class_from_value(c, v),
{
    if v / 0x100 == 0xD8 {
        CanonicalCombiningClass((v % 0x100) as u8)
    } else if v == SPECIAL_NON_STARTER_DECOMPOSITION_MARKER {
        if c == 0x0340 || c == 0x0341 || c == 0x0343 || c == 0x0344 {
            CanonicalCombiningClass(230)
        } else {
            CanonicalCombiningClass(0)
        }
    } else {
        CanonicalCombiningClass(0)
    }
}

/// Lookup of the Canonical_Combining_Class property in the decomposition trie.
pub struct CanonicalCombiningClassMap {
    decompositions: CodePointMap32,
}

impl CanonicalCombiningClassMap {
    pub closed spec fn trie(&self) -> CodePointMap32 {
        self.decompositions
    }

    /// The combining class of the code point `c` in this data.
    pub open spec fn class_of(&self, c: u32) -> u8 {
        combining_class_from_value(c, trie_values32(self.trie())[c])
    }

    pub fn new(decompositions: CodePointMap32) -> (r: CanonicalCombiningClassMap)
        ensures
            r.trie() == decompositions,
    {
        CanonicalCombiningClassMap { decompositions }
    }

    /// The canonical combining class of a scalar value.
    pub fn get(&self, c: char) -> (r: CanonicalCombiningClass)
        ensures
            r.0 == self.class_of(c as u32),
    {
        self.get_u32(c as u32)
    }

    /// The canonical combining class of a code point given as `u32`; beyond
    /// the scalar values the trie's error value decides.
    pub fn get_u32(&self, c: u32) -> (r: CanonicalCombiningClass)
        ensures
            r.0 == self.class_of(c),
    {
        let value = self.decompositions.get32(c);
        combining_class_of_value(c, value)
    }
}

} // verus!
