//! Laws of the language identifier parser: serializing a parsed identifier
//! and parsing the text again gives the same identifier, and the order in
//! which variants are written does not matter.

use vstd::prelude::*;
use crate::langid::{
    LanguageIdentifierModel, ParseState, ParserMode, ParserPosition, initial_state,
    join_subtags, model_matches, model_subtags, opt_seq, parse_spec, run, serialize_spec, step,
    with_region, with_script, with_variant,
};
use crate::subtag_iter::{is_separator, split_from, subtags_of};
use crate::subtags::{
    all_alnum, all_alpha, all_digit, is_alnum, norm_language, norm_region, norm_script,
    norm_variant, valid_language, valid_region, valid_script, valid_variant, case_seq, CaseForm,
};
use crate::variants::{lemma_lex_irreflexive, sorted_strict};

verus! {

pub open spec fn no_separator(p: Seq<u8>) -> bool {
    forall|j: int| 0 <= j < p.len() ==> !is_separator(#[trigger] p[j])
}

/// Every subtag that a parse keeps is valid and in canonical case.
pub open spec fn canonical_state(st: ParseState) -> bool {
    &&& (st.script matches Some(x) ==> valid_script(x) && norm_script(x) == x)
    &&& (st.region matches Some(x) ==> valid_region(x) && norm_region(x) == x)
    &&& forall|v: Seq<u8>| #[trigger] st.variants.contains(v) ==> valid_variant(v) && norm_variant(v) == v
}

proof fn lemma_case_keeps_classes(form: CaseForm, t: Seq<u8>)
    ensures
        case_seq(form, t).len() == t.len(),
        all_alpha(t) ==> all_alpha(case_seq(form, t)),
        all_digit(t) ==> case_seq(form, t) == t,
        all_alnum(t) ==> all_alnum(case_seq(form, t)),
        forall|i: int| 0 <= i < t.len() ==> (crate::subtags::is_digit(#[trigger] case_seq(form, t)[i]) <==> crate::subtags::is_digit(t[i])),
{
    if all_digit(t) {
        assert(case_seq(form, t) =~= t);
    }
}

proof fn lemma_case_idempotent(form: CaseForm, t: Seq<u8>)
    ensures
        case_seq(form, case_seq(form, t)) == case_seq(form, t),
{
    assert(case_seq(form, case_seq(form, t)) =~= case_seq(form, t));
}

proof fn lemma_language_canonical(t: Seq<u8>)
    requires
        valid_language(t),
    ensures
        valid_language(norm_language(t)),
        norm_language(norm_language(t)) == norm_language(t),
{
    lemma_case_keeps_classes(CaseForm::Lower, t);
    lemma_case_idempotent(CaseForm::Lower, t);
}

proof fn lemma_script_canonical(t: Seq<u8>)
    requires
        valid_script(t),
    ensures
        valid_script(norm_script(t)),
        norm_script(norm_script(t)) == norm_script(t),
{
    lemma_case_keeps_classes(CaseForm::Title, t);
    lemma_case_idempotent(CaseForm::Title, t);
}

proof fn lemma_region_canonical(t: Seq<u8>)
    requires
        valid_region(t),
    ensures
        valid_region(norm_region(t)),
        norm_region(norm_region(t)) == norm_region(t),
{
    lemma_case_keeps_classes(CaseForm::Upper, t);
    lemma_case_idempotent(CaseForm::Upper, t);
}

proof fn lemma_variant_canonical(t: Seq<u8>)
    requires
        valid_variant(t),
    ensures
        valid_variant(norm_variant(t)),
        norm_variant(norm_variant(t)) == norm_variant(t),
{
    lemma_case_keeps_classes(CaseForm::Lower, t);
    lemma_case_idempotent(CaseForm::Lower, t);
}

/// A run of the grammar keeps only canonical subtags.
proof fn lemma_run_canonical(mode: ParserMode, st: ParseState, subs: Seq<Seq<u8>>)
    requires
        canonical_state(st),
    ensures
        run(mode, st, subs) matches Some((fin, _)) ==> canonical_state(fin),
    decreases subs.len(),
{
    if subs.len() > 0 {
        let t = subs[0];
        if valid_script(t) {
            lemma_script_canonical(t);
        }
        if valid_region(t) {
            lemma_region_canonical(t);
        }
        if valid_variant(t) {
            lemma_variant_canonical(t);
        }
        match step(mode, st, t) {
            crate::langid::Step::Next(next) => {
                assert(canonical_state(next));
                lemma_run_canonical(mode, next, subs.drop_first());
            },
            _ => {},
        }
    }
}

/// Splitting after a prefix `a` is splitting the rest.
proof fn lemma_split_shift(a: Seq<u8>, b: Seq<u8>, st: int, i: int)
    requires
        0 <= st <= i <= b.len(),
    ensures
        split_from(a + b, a.len() + st, a.len() + i) == split_from(b, st, i),
    decreases b.len() - i,
{
    let x = a + b;
    assert(x.len() == a.len() + b.len());
    if i >= b.len() {
        assert(x.subrange(a.len() + st, x.len() as int) =~= b.subrange(st, b.len() as int));
    } else {
        assert(x[a.len() + i] == b[i]);
        if is_separator(b[i]) {
            assert(x.subrange(a.len() + st, a.len() + i) =~= b.subrange(st, i));
            lemma_split_shift(a, b, i + 1, i + 1);
        } else {
            lemma_split_shift(a, b, st, i + 1);
        }
    }
}

/// A subtag without separators, then a separator: the first subtag is `p`.
proof fn lemma_split_first(p: Seq<u8>, r: Seq<u8>, i: int)
    requires
        no_separator(p),
        0 <= i <= p.len(),
    ensures
        split_from(p + seq![45u8] + r, 0, i) == seq![p] + split_from(
            p + seq![45u8] + r,
            p.len() + 1 as int,
            p.len() + 1 as int,
        ),
    decreases p.len() - i,
{
    let x = p + seq![45u8] + r;
    if i < p.len() {
        assert(x[i] == p[i]);
        lemma_split_first(p, r, i + 1);
    } else {
        assert(x[i] == 45u8);
        assert(x.subrange(0, i) =~= p);
    }
}

/// A subtag without separators splits to itself.
proof fn lemma_split_single(p: Seq<u8>, i: int)
    requires
        no_separator(p),
        0 <= i <= p.len(),
    ensures
        split_from(p, 0, i) == seq![p],
    decreases p.len() - i,
{
    if i < p.len() {
        lemma_split_single(p, i + 1);
    } else {
        assert(p.subrange(0, p.len() as int) =~= p);
    }
}

proof fn lemma_join_cons(parts: Seq<Seq<u8>>)
    requires
        parts.len() >= 2,
    ensures
        join_subtags(parts) == parts[0] + seq![45u8] + join_subtags(parts.drop_first()),
    decreases parts.len(),
{
    let init = parts.drop_last();
    let rest = parts.drop_first();
    if parts.len() == 2 {
        assert(init =~= seq![parts[0]]);
        assert(rest =~= seq![parts[1]]);
        assert(join_subtags(init) == parts[0]);
        assert(join_subtags(rest) == parts[1]);
        assert(join_subtags(parts) == join_subtags(init) + seq![45u8] + parts.last());
    } else {
        lemma_join_cons(init);
        assert(rest.drop_last() =~= init.drop_first());
        assert(rest.last() == parts.last());
        assert(join_subtags(rest) == join_subtags(rest.drop_last()) + seq![45u8] + rest.last());
        assert(join_subtags(parts) == join_subtags(init) + seq![45u8] + parts.last());
        assert(join_subtags(parts) =~= parts[0] + seq![45u8] + join_subtags(rest));
    }
}

/// Joining subtags without separators and splitting again gives them back.
proof fn lemma_split_join(parts: Seq<Seq<u8>>)
    requires
        parts.len() >= 1,
        forall|k: int| 0 <= k < parts.len() ==> no_separator(#[trigger] parts[k]),
    ensures
        subtags_of(join_subtags(parts)) == parts,
    decreases parts.len(),
{
    if parts.len() == 1 {
        lemma_split_single(parts[0], 0);
        assert(seq![parts[0]] =~= parts);
    } else {
        let rest = parts.drop_first();
        let r = join_subtags(rest);
        lemma_join_cons(parts);
        lemma_split_first(parts[0], r, 0);
        lemma_split_shift(parts[0] + seq![45u8], r, 0, 0);
        assert((parts[0] + seq![45u8]) + r =~= parts[0] + seq![45u8] + r);
        lemma_split_join(rest);
        assert(seq![parts[0]] + rest =~= parts);
    }
}

pub open spec fn canonical_variants(vs: Seq<Seq<u8>>) -> bool {
    forall|k: int| 0 <= k < vs.len() ==> valid_variant(#[trigger] vs[k]) && norm_variant(vs[k]) == vs[k]
}

/// Sorted, distinct, canonical variants that are new to the state are each
/// taken in turn.
proof fn lemma_run_variants(mode: ParserMode, st: ParseState, vs: Seq<Seq<u8>>)
    requires
        canonical_variants(vs),
        sorted_strict(vs),
        forall|k: int| 0 <= k < vs.len() ==> !st.variants.contains(#[trigger] vs[k]),
    ensures
        run(mode, st, vs) matches Some((fin, n)) && n == vs.len() && fin.script == st.script
            && fin.region == st.region && fin.variants == st.variants.union(vs.to_set()),
    decreases vs.len(),
{
    if vs.len() == 0 {
        assert(st.variants.union(vs.to_set()) =~= st.variants);
    } else {
        let v = vs[0];
        assert(valid_variant(v) && norm_variant(v) == v);
        assert(!valid_script(v));
        assert(!valid_region(v));
        assert(!st.variants.contains(v));
        let next = with_variant(st, v);
        assert(step(mode, st, v) == crate::langid::Step::Next(next));
        let rest = vs.drop_first();
        assert forall|k: int| 0 <= k < rest.len() implies !next.variants.contains(#[trigger] rest[k]) by {
            assert(rest[k] == vs[k + 1]);
            assert(crate::variants::lex_lt(vs[0], vs[k + 1]));
            lemma_lex_irreflexive(vs[0]);
        }
        assert(canonical_variants(rest)) by {
            assert forall|k: int| 0 <= k < rest.len() implies valid_variant(#[trigger] rest[k]) && norm_variant(rest[k]) == rest[k] by {
                assert(rest[k] == vs[k + 1]);
            }
        }
        assert(sorted_strict(rest)) by {
            assert forall|i: int, j: int| 0 <= i < j < rest.len() implies crate::variants::lex_lt(
                #[trigger] rest[i],
                #[trigger] rest[j],
            ) by {
                assert(rest[i] == vs[i + 1]);
                assert(rest[j] == vs[j + 1]);
            }
        }
        lemma_run_variants(mode, next, rest);
        assert(next.variants.union(rest.to_set()) =~= st.variants.union(vs.to_set())) by {
            assert forall|x: Seq<u8>| st.variants.union(vs.to_set()).contains(x) implies next.variants.union(rest.to_set()).contains(x) by {
                if vs.to_set().contains(x) && !st.variants.contains(x) && x != v {
                    let k = choose|k: int| 0 <= k < vs.len() && vs[k] == x;
                    assert(rest[k - 1] == x);
                }
            }
            assert forall|x: Seq<u8>| next.variants.union(rest.to_set()).contains(x) implies st.variants.union(vs.to_set()).contains(x) by {
                if x == v {
                    assert(vs[0] == x);
                } else if rest.to_set().contains(x) {
                    let k = choose|k: int| 0 <= k < rest.len() && rest[k] == x;
                    assert(vs[k + 1] == x);
                }
            }
        }
    }
}

proof fn lemma_alnum_no_separator(t: Seq<u8>)
    requires
        all_alnum(t) || all_alpha(t) || all_digit(t),
    ensures
        no_separator(t),
{
    assert forall|j: int| 0 <= j < t.len() implies !is_separator(#[trigger] t[j]) by {
        if all_alpha(t) {
            assert(crate::subtags::is_alpha(t[j]));
        } else if all_digit(t) {
            assert(crate::subtags::is_digit(t[j]));
        } else {
            assert(is_alnum(t[j]));
        }
    }
}

/// Parsing, serializing and parsing again gives an identifier equal to the
/// first: same language, script and region, and the same variants in the
/// same sorted order. The second parse takes every subtag of the text.
pub proof fn lemma_parse_serialize_parse(s: Seq<u8>, mode: ParserMode, m: LanguageIdentifierModel)
    requires
        parse_spec(subtags_of(s), mode) matches Ok((language, st, _)) && model_matches(
            m,
            language,
            st,
        ),
    ensures
        parse_spec(subtags_of(serialize_spec(m)), mode) matches Ok((language2, st2, n2))
            && model_matches(m, language2, st2) && n2 == model_subtags(m).len(),
{
    let subs = subtags_of(s);
    let (language, st, _) = parse_spec(subs, mode)->Ok_0;
    lemma_language_canonical(subs[0]);
    lemma_run_canonical(mode, initial_state(), subs.drop_first());
    assert(canonical_state(st));
    assert(canonical_variants(m.variants)) by {
        assert forall|k: int| 0 <= k < m.variants.len() implies valid_variant(#[trigger] m.variants[k])
            && norm_variant(m.variants[k]) == m.variants[k] by {
            assert(m.variants.to_set().contains(m.variants[k]));
        }
    }
    let parts = model_subtags(m);
    assert forall|k: int| 0 <= k < parts.len() implies no_separator(#[trigger] parts[k]) by {
        let p = parts[k];
        if valid_variant(p) {
            lemma_alnum_no_separator(p);
        } else if valid_script(p) || valid_language(p) || valid_region(p) {
            lemma_alnum_no_separator(p);
        }
        if k == 0 {
            assert(p == m.language);
        } else if k < parts.len() - m.variants.len() {
            if m.script is Some && k == 1 {
                assert(p == m.script->0);
            } else {
                assert(p == m.region->0);
            }
        } else {
            assert(p == m.variants[k - (parts.len() - m.variants.len())]);
        }
    }
    lemma_split_join(parts);
    let tail1 = opt_seq(m.region) + m.variants;
    let st1 = match m.script {
        Some(x) => with_script(initial_state(), x),
        None => initial_state(),
    };
    let st2 = match m.region {
        Some(y) => with_region(st1, y),
        None => st1,
    };
    lemma_run_variants(mode, st2, m.variants);
    let (fin, nv) = run(mode, st2, m.variants)->Some_0;
    assert(fin.variants =~= m.variants.to_set());
    let n1 = match m.region {
        Some(y) => {
            assert(!valid_script(y));
            assert(step(mode, st1, y) == crate::langid::Step::Next(st2));
            assert(tail1.drop_first() =~= m.variants);
            assert(tail1[0] == y);
            nv + 1
        },
        None => {
            assert(tail1 =~= m.variants);
            nv
        },
    };
    assert(run(mode, st1, tail1) == Some((fin, n1)));
    let after_language = parts.drop_first();
    let n0 = match m.script {
        Some(x) => {
            assert(step(mode, initial_state(), x) == crate::langid::Step::Next(st1));
            assert(after_language == seq![x] + tail1);
            assert(after_language.drop_first() =~= tail1);
            n1 + 1
        },
        None => {
            assert(after_language =~= tail1);
            n1
        },
    };
    assert(run(mode, initial_state(), after_language) == Some((fin, n0)));
    assert(parts[0] == m.language);
}

/// Running over `a` then `b` is running over `a + b`, unless the run stops
/// inside `a`.
proof fn lemma_run_concat(mode: ParserMode, st: ParseState, a: Seq<Seq<u8>>, b: Seq<Seq<u8>>)
    ensures
        run(mode, st, a + b) == match run(mode, st, a) {
            None => None,
            Some((s1, n)) => if n < a.len() {
                Some((s1, n))
            } else {
                match run(mode, s1, b) {
                    Some((s2, m)) => Some((s2, n + m)),
                    None => None,
                }
            },
        },
    decreases a.len(),
{
    if a.len() == 0 {
        assert(a + b =~= b);
        match run(mode, st, b) {
            Some((s2, m)) => {},
            None => {},
        }
    } else {
        assert((a + b)[0] == a[0]);
        assert((a + b).drop_first() =~= a.drop_first() + b);
        match step(mode, st, a[0]) {
            crate::langid::Step::Next(next) => {
                lemma_run_concat(mode, next, a.drop_first(), b);
            },
            _ => {},
        }
    }
}

/// The canonical forms of `vs` are pairwise distinct.
pub open spec fn distinct_variants(vs: Seq<Seq<u8>>) -> bool {
    forall|i: int, j: int|
        0 <= i < j < vs.len() ==> norm_variant(#[trigger] vs[i]) != norm_variant(#[trigger] vs[j])
}

pub open spec fn norms(vs: Seq<Seq<u8>>) -> Seq<Seq<u8>> {
    vs.map_values(|v: Seq<u8>| norm_variant(v))
}

pub open spec fn variant_set(vs: Seq<Seq<u8>>) -> Set<Seq<u8>> {
    norms(vs).to_set()
}

pub open spec fn all_variants(vs: Seq<Seq<u8>>) -> bool {
    forall|k: int| 0 <= k < vs.len() ==> valid_variant(#[trigger] vs[k])
}

/// Over variant subtags alone, a run takes them all exactly when their
/// canonical forms are distinct and new, and collects their set.
proof fn lemma_run_all_variants(mode: ParserMode, st: ParseState, vs: Seq<Seq<u8>>)
    requires
        all_variants(vs),
        st.pos != ParserPosition::Variant ==> st.variants == Set::<Seq<u8>>::empty(),
    ensures
        run(mode, st, vs) == if distinct_variants(vs) && variant_set(vs).disjoint(st.variants) {
            Some(
                (
                    ParseState {
                        pos: if vs.len() > 0 {
                            ParserPosition::Variant
                        } else {
                            st.pos
                        },
                        variants: st.variants.union(variant_set(vs)),
                        ..st
                    },
                    vs.len(),
                ),
            )
        } else {
            None
        },
    decreases vs.len(),
{
    if vs.len() == 0 {
        assert(variant_set(vs) =~= Set::<Seq<u8>>::empty());
        assert(st.variants.union(variant_set(vs)) =~= st.variants);
    } else {
        let v = vs[0];
        let rest = vs.drop_first();
        let nv = norm_variant(v);
        assert(valid_variant(v));
        assert(!valid_script(v));
        assert(!valid_region(v));
        assert(variant_set(vs) =~= variant_set(rest).insert(nv)) by {
            assert(norms(vs) =~= seq![nv] + norms(rest));
            assert forall|x: Seq<u8>| variant_set(vs).contains(x) <==> variant_set(rest).insert(nv).contains(x) by {
                if variant_set(vs).contains(x) && x != nv {
                    let k = choose|k: int| 0 <= k < vs.len() && #[trigger] norms(vs)[k] == x;
                    assert(norms(rest)[k - 1] == x);
                }
                if variant_set(rest).contains(x) {
                    let k = choose|k: int| 0 <= k < rest.len() && #[trigger] norms(rest)[k] == x;
                    assert(norms(vs)[k + 1] == x);
                }
                if x == nv {
                    assert(norms(vs)[0] == x);
                }
            }
        }
        assert(all_variants(rest)) by {
            assert forall|k: int| 0 <= k < rest.len() implies valid_variant(#[trigger] rest[k]) by {
                assert(rest[k] == vs[k + 1]);
            }
        }
        let dup = st.pos == ParserPosition::Variant && st.variants.contains(nv);
        if dup {
            assert(step(mode, st, v) is Fail);
            assert(!variant_set(vs).disjoint(st.variants)) by {
                assert(variant_set(vs).contains(nv));
            }
        } else {
            let next = with_variant(st, v);
            assert(step(mode, st, v) == crate::langid::Step::Next(next));
            lemma_run_all_variants(mode, next, rest);
            let good = distinct_variants(vs) && variant_set(vs).disjoint(st.variants);
            let good_rest = distinct_variants(rest) && variant_set(rest).disjoint(next.variants);
            assert(good == good_rest) by {
                if good {
                    assert forall|i: int, j: int| 0 <= i < j < rest.len() implies norm_variant(#[trigger] rest[i]) != norm_variant(#[trigger] rest[j]) by {
                        assert(rest[i] == vs[i + 1] && rest[j] == vs[j + 1]);
                    }
                    assert forall|x: Seq<u8>| variant_set(rest).contains(x) implies !next.variants.contains(x) by {
                        let k = choose|k: int| 0 <= k < rest.len() && #[trigger] norms(rest)[k] == x;
                        assert(rest[k] == vs[k + 1]);
                        assert(norm_variant(vs[0]) != norm_variant(vs[k + 1]));
                        assert(variant_set(vs).contains(x));
                    }
                }
                if good_rest {
                    assert(!st.variants.contains(nv));
                    assert forall|i: int, j: int| 0 <= i < j < vs.len() implies norm_variant(#[trigger] vs[i]) != norm_variant(#[trigger] vs[j]) by {
                        if i == 0 {
                            assert(vs[j] == rest[j - 1]);
                            assert(variant_set(rest).contains(norm_variant(rest[j - 1]))) by {
                                assert(norms(rest)[j - 1] == norm_variant(rest[j - 1]));
                            }
                        } else {
                            assert(vs[i] == rest[i - 1] && vs[j] == rest[j - 1]);
                        }
                    }
                    assert forall|x: Seq<u8>| variant_set(vs).contains(x) implies !st.variants.contains(x) by {
                        if x != nv {
                            assert(variant_set(rest).contains(x));
                        }
                    }
                }
            }
            assert(next.variants.union(variant_set(rest)) =~= st.variants.union(variant_set(vs)));
        }
    }
}

/// Some index of `perm` holds `k`.
pub open spec fn hits(perm: Seq<int>, k: int) -> bool {
    exists|i: int| 0 <= i < perm.len() && #[trigger] perm[i] == k
}

/// `perm` reorders the indices `0..n`.
pub open spec fn is_permutation(perm: Seq<int>, n: int) -> bool {
    &&& perm.len() == n
    &&& forall|i: int| 0 <= i < n ==> 0 <= #[trigger] perm[i] < n
    &&& forall|i: int, j: int| 0 <= i < j < n ==> #[trigger] perm[i] != #[trigger] perm[j]
    &&& forall|k: int| 0 <= k < n ==> #[trigger] hits(perm, k)
}

/// The order in which the variants of a tag are written does not matter:
/// a non-empty `prefix` (its first subtag the language) followed by the
/// variant subtags `vs`, or by the same subtags in any other order, parses
/// to the same result.
pub proof fn lemma_variant_order_irrelevant(
    prefix: Seq<Seq<u8>>,
    vs: Seq<Seq<u8>>,
    perm: Seq<int>,
    mode: ParserMode,
)
    requires
        prefix.len() > 0,
        all_variants(vs),
        is_permutation(perm, vs.len() as int),
    ensures
        parse_spec(prefix + vs, mode) == parse_spec(
            prefix + Seq::new(vs.len(), |i: int| vs[perm[i]]),
            mode,
        ),
{
    let ws = Seq::new(vs.len(), |i: int| vs[perm[i]]);
    assert(all_variants(ws)) by {
        assert forall|k: int| 0 <= k < ws.len() implies valid_variant(#[trigger] ws[k]) by {
            assert(ws[k] == vs[perm[k]]);
        }
    }
    assert(variant_set(ws) =~= variant_set(vs)) by {
        assert forall|x: Seq<u8>| variant_set(ws).contains(x) <==> variant_set(vs).contains(x) by {
            if variant_set(ws).contains(x) {
                let k = choose|k: int| 0 <= k < ws.len() && #[trigger] norms(ws)[k] == x;
                assert(norms(vs)[perm[k]] == x);
            }
            if variant_set(vs).contains(x) {
                let k = choose|k: int| 0 <= k < vs.len() && #[trigger] norms(vs)[k] == x;
                assert(hits(perm, k));
                let i = choose|i: int| 0 <= i < perm.len() && #[trigger] perm[i] == k;
                assert(norms(ws)[i] == x);
            }
        }
    }
    assert(distinct_variants(ws) == distinct_variants(vs)) by {
        if distinct_variants(vs) {
            assert forall|i: int, j: int| 0 <= i < j < ws.len() implies norm_variant(#[trigger] ws[i]) != norm_variant(#[trigger] ws[j]) by {
                let (a, b) = (perm[i], perm[j]);
                if a < b {
                } else {
                    assert(a != b);
                }
            }
        }
        if distinct_variants(ws) {
            assert forall|a: int, b: int| 0 <= a < b < vs.len() implies norm_variant(#[trigger] vs[a]) != norm_variant(#[trigger] vs[b]) by {
                assert(hits(perm, a) && hits(perm, b));
                let i = choose|i: int| 0 <= i < perm.len() && #[trigger] perm[i] == a;
                let j = choose|j: int| 0 <= j < perm.len() && #[trigger] perm[j] == b;
                assert(ws[i] == vs[a] && ws[j] == vs[b]);
                if i > j {
                    assert(norm_variant(ws[j]) != norm_variant(ws[i]));
                }
            }
        }
    }
    let tail = prefix.drop_first();
    assert((prefix + vs).drop_first() =~= tail + vs);
    assert((prefix + ws).drop_first() =~= tail + ws);
    assert((prefix + vs)[0] == prefix[0] && (prefix + ws)[0] == prefix[0]);
    lemma_run_concat(mode, initial_state(), tail, vs);
    lemma_run_concat(mode, initial_state(), tail, ws);
    lemma_run_reachable_state(mode, initial_state(), tail);
    match run(mode, initial_state(), tail) {
        Some((s1, n)) => {
            if n >= tail.len() {
                lemma_run_all_variants(mode, s1, vs);
                lemma_run_all_variants(mode, s1, ws);
            }
        },
        None => {},
    }
}

/// States that a run reaches hold variants only in the variant position.
proof fn lemma_run_reachable_state(mode: ParserMode, st: ParseState, subs: Seq<Seq<u8>>)
    requires
        st.pos != ParserPosition::Variant ==> st.variants == Set::<Seq<u8>>::empty(),
    ensures
        run(mode, st, subs) matches Some((fin, _)) ==> (fin.pos != ParserPosition::Variant
            ==> fin.variants == Set::<Seq<u8>>::empty()),
    decreases subs.len(),
{
    if subs.len() > 0 {
        match step(mode, st, subs[0]) {
            crate::langid::Step::Next(next) => {
                lemma_run_reachable_state(mode, next, subs.drop_first());
            },
            _ => {},
        }
    }
}

} // verus!
