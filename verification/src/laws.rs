use vstd::prelude::*;
use crate::aggregate::{
    EntryView, TokenView, VariantAccView, aggregate, find_reading, find_reading_from,
    find_variant, insert_sent, lemma_find_reading_from, lemma_find_variant_from, sent_pos_from,
    step_variants,
};
use crate::analyze::analyze_spec;
use crate::builder::{
    CategoryGroupView, VariantView, WordGroupView, cat_find_from, cat_pos_from, category_of_entry,
    desc_pos_from, group_of_entry, grouped_of_entries, insert_desc,
    insert_group_sorted, lemma_desc_pos_range, lemma_sort_desc_len, reading_pos_from, sort_desc,
    sum_counts,
};
use crate::chars::{
    all_space, is_terminal_char, lex_lt, lex_lt_from, newline_count, terminal_count,
    terminal_count_from,
};
use crate::classify::{keep_feature, reading_of};
use crate::locate::{locate_spec, lemma_locate_from_range};
use crate::segment::{
    kept_spans, sentence_bounds, sentence_spans, sentence_views, span_view, spans_from,
};

verus! {

/// How many tokens of the stream survive filtering and carry reading
/// `r`: the number of occurrences a finished group for `r` accounts for.
pub open spec fn count_matching(tokens: Seq<TokenView>, r: Seq<char>) -> int
    decreases tokens.len(),
{
    if tokens.len() == 0 {
        0
    } else {
        count_matching(tokens.drop_last(), r) + (if keep_feature(tokens.last().feature)
            && reading_of(tokens.last().feature) == r {
            1int
        } else {
            0int
        })
    }
}

pub proof fn lemma_count_matching_le(tokens: Seq<TokenView>, r: Seq<char>)
    ensures
        0 <= count_matching(tokens, r) <= tokens.len(),
    decreases tokens.len(),
{
    if tokens.len() > 0 {
        lemma_count_matching_le(tokens.drop_last(), r);
    }
}

pub proof fn lemma_find_reading_none(entries: Seq<EntryView>, r: Seq<char>, i: int)
    requires
        0 <= i,
        find_reading_from(entries, r, i) == -1,
    ensures
        forall|k: int| i <= k < entries.len() ==> (#[trigger] entries[k]).reading != r,
    decreases entries.len() - i,
{
    if i < entries.len() {
        lemma_find_reading_none(entries, r, i + 1);
    }
}

pub proof fn lemma_sum_push(vs: Seq<VariantAccView>, x: VariantAccView)
    ensures
        sum_counts(vs.push(x)) == sum_counts(vs) + x.count,
{
    assert(vs.push(x).drop_last() =~= vs);
    assert(vs.push(x).last() == x);
}

pub proof fn lemma_sum_update(vs: Seq<VariantAccView>, k: int, x: VariantAccView)
    requires
        0 <= k < vs.len(),
    ensures
        sum_counts(vs.update(k, x)) == sum_counts(vs) - vs[k].count + x.count,
    decreases vs.len(),
{
    let u = vs.update(k, x);
    if k == vs.len() - 1 {
        assert(u.drop_last() =~= vs.drop_last());
        assert(u.last() == x);
    } else {
        assert(u.drop_last() =~= vs.drop_last().update(k, x));
        assert(u.last() == vs.last());
        lemma_sum_update(vs.drop_last(), k, x);
    }
}

/// The well-formedness the aggregator guarantees: every entry holds at
/// least one variant; an entry's counts sum to exactly the number of
/// surviving tokens with its reading; readings are pairwise distinct;
/// and a reading without an entry has no surviving token.
pub open spec fn entries_wf(tokens: Seq<TokenView>, entries: Seq<EntryView>) -> bool {
    &&& forall|j: int| 0 <= j < entries.len() ==> (#[trigger] entries[j]).variants.len() >= 1
    &&& forall|j: int|
        0 <= j < entries.len() ==> sum_counts((#[trigger] entries[j]).variants) == count_matching(
            tokens,
            entries[j].reading,
        )
    &&& forall|j1: int, j2: int|
        #![trigger entries[j1].reading, entries[j2].reading]
        0 <= j1 < j2 < entries.len() ==> entries[j1].reading != entries[j2].reading
    &&& forall|r: Seq<char>|
        find_reading(entries, r) == -1 ==> #[trigger] count_matching(tokens, r) == 0
}

/// Variant count conservation: what the aggregator accumulates is
/// exactly accounted for, reading by reading.
pub proof fn lemma_aggregate_wf(tokens: Seq<TokenView>, bounds: Seq<int>)
    ensures
        entries_wf(tokens, aggregate(tokens, bounds)),
    decreases tokens.len(),
{
    if tokens.len() == 0 {
    } else {
        let prefix = tokens.drop_last();
        lemma_aggregate_wf(prefix, bounds);
        let pre = aggregate(prefix, bounds);
        let cur = aggregate(tokens, bounds);
        let t = tokens.last();
        if !keep_feature(t.feature) {
            assert(cur == pre);
            assert forall|j: int| 0 <= j < cur.len() implies sum_counts(
                (#[trigger] cur[j]).variants,
            ) == count_matching(tokens, cur[j].reading) by {
                assert(count_matching(tokens, cur[j].reading) == count_matching(
                    prefix,
                    cur[j].reading,
                ));
            }
            assert forall|r: Seq<char>| find_reading(cur, r) == -1 implies #[trigger] count_matching(
                tokens,
                r,
            ) == 0 by {
                assert(count_matching(tokens, r) == count_matching(prefix, r));
            }
        } else {
            let r0 = reading_of(t.feature);
            let idx = locate_spec(bounds, t.char_start);
            let j0 = find_reading(pre, r0);
            lemma_find_reading_from(pre, r0, 0);
            if j0 == -1 {
                lemma_find_reading_none(pre, r0, 0);
                let newe = EntryView {
                    reading: r0,
                    variants: seq![
                        (VariantAccView { word: t.surface, count: 1, feature: t.feature }),
                    ],
                    sents: seq![idx],
                };
                assert(cur == pre.push(newe));
                assert forall|j: int| 0 <= j < cur.len() implies (#[trigger] cur[j])
                    .variants.len() >= 1 by {
                    if j < pre.len() {
                        assert(cur[j] == pre[j]);
                    } else {
                        assert(cur[j] == newe);
                    }
                }
                assert forall|j: int| 0 <= j < cur.len() implies sum_counts(
                    (#[trigger] cur[j]).variants,
                ) == count_matching(tokens, cur[j].reading) by {
                    if j < pre.len() {
                        assert(cur[j] == pre[j]);
                        assert(pre[j].reading != r0);
                        assert(count_matching(tokens, pre[j].reading) == count_matching(
                            prefix,
                            pre[j].reading,
                        ));
                    } else {
                        assert(cur[j] == newe);
                        assert(sum_counts(newe.variants) == 1) by {
                            assert(newe.variants.drop_last() =~= Seq::<VariantAccView>::empty());
                            assert(sum_counts(Seq::<VariantAccView>::empty()) == 0);
                            assert(newe.variants.len() == 1);
                            assert(newe.variants.last().count == 1);
                        }
                        assert(count_matching(prefix, r0) == 0);
                        assert(count_matching(tokens, r0) == 1);
                    }
                }
                assert forall|j1: int, j2: int|
                    #![trigger cur[j1].reading, cur[j2].reading]
                    0 <= j1 < j2 < cur.len() implies cur[j1].reading != cur[j2].reading by {
                    if j2 < pre.len() {
                        assert(cur[j1] == pre[j1] && cur[j2] == pre[j2]);
                    } else {
                        assert(cur[j1] == pre[j1] && cur[j2] == newe);
                        assert(pre[j1].reading != r0);
                    }
                }
                assert forall|r: Seq<char>| find_reading(cur, r) == -1
                    implies #[trigger] count_matching(tokens, r) == 0 by {
                    lemma_find_reading_none(cur, r, 0);
                    assert(cur[pre.len() as int].reading == r0);
                    assert(r != r0);
                    if find_reading(pre, r) != -1 {
                        lemma_find_reading_from(pre, r, 0);
                        let jr = find_reading(pre, r);
                        assert(cur[jr] == pre[jr]);
                        assert(false);
                    }
                    assert(count_matching(prefix, r) == 0);
                    assert(count_matching(tokens, r) == 0);
                }
            } else {
                let olde = pre[j0];
                let newe = EntryView {
                    reading: olde.reading,
                    variants: step_variants(olde.variants, t),
                    sents: insert_sent(olde.sents, idx),
                };
                assert(cur == pre.update(j0, newe));
                assert(olde.reading == r0);
                let k = find_variant(olde.variants, t.surface);
                lemma_find_variant_from(olde.variants, t.surface, 0);
                assert(sum_counts(newe.variants) == sum_counts(olde.variants) + 1) by {
                    if k == -1 {
                        lemma_sum_push(
                            olde.variants,
                            VariantAccView { word: t.surface, count: 1, feature: t.feature },
                        );
                    } else {
                        lemma_sum_update(
                            olde.variants,
                            k,
                            VariantAccView {
                                word: olde.variants[k].word,
                                count: olde.variants[k].count + 1,
                                feature: olde.variants[k].feature,
                            },
                        );
                    }
                }
                assert(newe.variants.len() >= 1);
                assert forall|j: int| 0 <= j < cur.len() implies (#[trigger] cur[j])
                    .variants.len() >= 1 by {
                    if j != j0 {
                        assert(cur[j] == pre[j]);
                    } else {
                        assert(cur[j] == newe);
                    }
                }
                assert forall|j: int| 0 <= j < cur.len() implies sum_counts(
                    (#[trigger] cur[j]).variants,
                ) == count_matching(tokens, cur[j].reading) by {
                    if j != j0 {
                        assert(cur[j] == pre[j]);
                        assert(pre[j].reading != r0) by {
                            assert(pre[j0].reading == r0);
                            if j < j0 {
                                assert(pre[j].reading != pre[j0].reading);
                            } else {
                                assert(pre[j0].reading != pre[j].reading);
                            }
                        }
                        assert(count_matching(tokens, pre[j].reading) == count_matching(
                            prefix,
                            pre[j].reading,
                        ));
                    } else {
                        assert(cur[j] == newe);
                        assert(count_matching(tokens, r0) == count_matching(prefix, r0) + 1);
                    }
                }
                assert forall|j1: int, j2: int|
                    #![trigger cur[j1].reading, cur[j2].reading]
                    0 <= j1 < j2 < cur.len() implies cur[j1].reading != cur[j2].reading by {
                    assert(cur[j1].reading == pre[j1].reading);
                    assert(cur[j2].reading == pre[j2].reading);
                }
                assert forall|r: Seq<char>| find_reading(cur, r) == -1
                    implies #[trigger] count_matching(tokens, r) == 0 by {
                    lemma_find_reading_none(cur, r, 0);
                    assert(cur[j0].reading == r0);
                    assert(r != r0);
                    if find_reading(pre, r) != -1 {
                        lemma_find_reading_from(pre, r, 0);
                        let jr = find_reading(pre, r);
                        assert(cur[jr].reading == pre[jr].reading);
                        assert(false);
                    }
                    assert(count_matching(prefix, r) == 0);
                    assert(count_matching(tokens, r) == 0);
                }
            }
        }
    }
}

proof fn lemma_spans_count_bound(text: Seq<char>, start: int, i: int)
    ensures
        spans_from(text, start, i).len() <= terminal_count_from(text, i) + 1,
    decreases text.len() - i,
{
    if i >= text.len() {
    } else if is_terminal_char(text[i]) {
        lemma_spans_count_bound(text, i + 1, i + 1);
    } else {
        lemma_spans_count_bound(text, start, i + 1);
    }
}

proof fn lemma_spans_count_exact(text: Seq<char>, start: int, i: int)
    requires
        0 <= start <= i <= text.len(),
        text.len() > 0,
        !is_terminal_char(text[text.len() - 1]),
        i < text.len() || start < text.len(),
    ensures
        spans_from(text, start, i).len() == terminal_count_from(text, i) + 1,
    decreases text.len() - i,
{
    if i >= text.len() {
    } else if is_terminal_char(text[i]) {
        lemma_spans_count_exact(text, i + 1, i + 1);
    } else {
        lemma_spans_count_exact(text, start, i + 1);
    }
}

proof fn lemma_kept_le(text: Seq<char>, spans: Seq<(int, int)>)
    ensures
        kept_spans(text, spans).len() <= spans.len(),
    decreases spans.len(),
{
    if spans.len() > 0 {
        lemma_kept_le(text, spans.drop_last());
    }
}

proof fn lemma_kept_exact(text: Seq<char>, spans: Seq<(int, int)>)
    requires
        forall|k: int|
            0 <= k < spans.len() ==> !all_space(
                text.subrange((#[trigger] spans[k]).0, spans[k].1),
            ),
    ensures
        kept_spans(text, spans).len() == spans.len(),
    decreases spans.len(),
{
    if spans.len() > 0 {
        assert forall|k: int| 0 <= k < spans.drop_last().len() implies !all_space(
            text.subrange((#[trigger] spans.drop_last()[k]).0, spans.drop_last()[k].1),
        ) by {
            assert(spans.drop_last()[k] == spans[k]);
        }
        lemma_kept_exact(text, spans.drop_last());
        assert(!all_space(text.subrange(spans.last().0, spans.last().1))) by {
            assert(spans.last() == spans[spans.len() - 1]);
        }
    }
}

/// Sentence count monotonicity, upper half: a text with k terminal
/// markers yields at most k + 1 sentences.
pub proof fn lemma_sentence_count_bound(text: Seq<char>)
    ensures
        sentence_views(text).len() <= terminal_count(text) + 1,
{
    lemma_spans_count_bound(text, 0, 0);
    lemma_kept_le(text, sentence_spans(text));
}

/// Sentence count monotonicity, exact half: with k markers, none of
/// them last, and no blank candidate span, exactly k + 1 sentences.
pub proof fn lemma_sentence_count_exact(text: Seq<char>)
    requires
        text.len() > 0,
        !is_terminal_char(text[text.len() - 1]),
        forall|k: int|
            0 <= k < sentence_spans(text).len() ==> !all_space(
                text.subrange((#[trigger] sentence_spans(text)[k]).0, sentence_spans(text)[k].1),
            ),
    ensures
        sentence_views(text).len() == terminal_count(text) + 1,
{
    lemma_spans_count_exact(text, 0, 0);
    lemma_kept_exact(text, sentence_spans(text));
}

/// Line numbering: a sentence starting after n newline characters
/// carries line number n + 1.
pub proof fn lemma_line_numbering(text: Seq<char>)
    ensures
        forall|k: int|
            0 <= k < sentence_views(text).len() ==> (#[trigger] sentence_views(text)[k]).line_num
                == newline_count(
                text.take(kept_spans(text, sentence_spans(text))[k].0),
            ) as int + 1,
{
    let kept = kept_spans(text, sentence_spans(text));
    assert forall|k: int| 0 <= k < sentence_views(text).len() implies (#[trigger] sentence_views(
        text,
    )[k]).line_num == newline_count(text.take(kept[k].0)) as int + 1 by {
        assert(sentence_views(text)[k] == span_view(text, kept[k]));
        assert(text.take(kept[k].0) =~= text.subrange(0, kept[k].0));
    }
}

proof fn lemma_sent_pos_range(s: Seq<int>, x: int, i: int)
    requires
        0 <= i <= s.len(),
    ensures
        i <= sent_pos_from(s, x, i) <= s.len(),
    decreases s.len() - i,
{
    if i < s.len() && !(x <= s[i]) {
        lemma_sent_pos_range(s, x, i + 1);
    }
}

proof fn lemma_insert_sent_range(s: Seq<int>, x: int, n: int)
    requires
        forall|m: int| 0 <= m < s.len() ==> 0 <= #[trigger] s[m] < n,
        0 <= x < n,
    ensures
        forall|m: int|
            0 <= m < insert_sent(s, x).len() ==> 0 <= #[trigger] insert_sent(s, x)[m] < n,
{
    let p = sent_pos_from(s, x, 0);
    lemma_sent_pos_range(s, x, 0);
    if p < s.len() && s[p] == x {
    } else {
        s.insert_ensures(p, x);
        assert forall|m: int| 0 <= m < insert_sent(s, x).len() implies 0 <= #[trigger] insert_sent(
            s,
            x,
        )[m] < n by {
            if m < p {
                assert(insert_sent(s, x)[m] == s[m]);
            } else if m == p {
                assert(insert_sent(s, x)[m] == x);
            } else {
                assert(insert_sent(s, x)[m] == s[m - 1]);
            }
        }
    }
}

/// Every recorded sentence index lies below `n`.
pub open spec fn sents_in_range(entries: Seq<EntryView>, n: int) -> bool {
    forall|j: int, m: int|
        0 <= j < entries.len() && 0 <= m < entries[j].sents.len() ==> 0 <= (#[trigger] entries[j]
            .sents[m]) < n
}

pub proof fn lemma_aggregate_sents_in_range(tokens: Seq<TokenView>, bounds: Seq<int>)
    requires
        bounds.len() > 0,
    ensures
        sents_in_range(aggregate(tokens, bounds), bounds.len() as int),
    decreases tokens.len(),
{
    if tokens.len() > 0 {
        let prefix = tokens.drop_last();
        lemma_aggregate_sents_in_range(prefix, bounds);
        let pre = aggregate(prefix, bounds);
        let cur = aggregate(tokens, bounds);
        let t = tokens.last();
        if keep_feature(t.feature) {
            let r0 = reading_of(t.feature);
            let idx = locate_spec(bounds, t.char_start);
            lemma_locate_from_range(bounds, t.char_start, 0);
            let j0 = find_reading(pre, r0);
            if j0 == -1 {
                assert forall|j: int, m: int|
                    0 <= j < cur.len() && 0 <= m < cur[j].sents.len() implies 0 <= (
                #[trigger] cur[j].sents[m]) < bounds.len() by {
                    if j < pre.len() {
                        assert(cur[j] == pre[j]);
                    } else {
                        assert(cur[j].sents == seq![idx]);
                    }
                }
            } else {
                lemma_find_reading_from(pre, r0, 0);
                lemma_insert_sent_range(pre[j0].sents, idx, bounds.len() as int);
                assert forall|j: int, m: int|
                    0 <= j < cur.len() && 0 <= m < cur[j].sents.len() implies 0 <= (
                #[trigger] cur[j].sents[m]) < bounds.len() by {
                    if j != j0 {
                        assert(cur[j] == pre[j]);
                    } else {
                        assert(cur[j].sents == insert_sent(pre[j0].sents, idx));
                    }
                }
            }
        }
    }
}

/// Sentence index validity: every index in the sentence map addresses
/// an existing sentence. (The one exception is excluded by the
/// precondition: over a text with no sentences at all, a stray
/// surviving token still records the fallback index 0, which then
/// addresses nothing.)
pub proof fn lemma_sentence_indices_valid(text: Seq<char>, tokens: Seq<TokenView>)
    requires
        analyze_spec(text, tokens).sentences.len() > 0 || analyze_spec(
            text,
            tokens,
        ).sentence_map.len() == 0,
    ensures
        forall|j: int, m: int|
            0 <= j < analyze_spec(text, tokens).sentence_map.len() && 0 <= m < analyze_spec(
                text,
                tokens,
            ).sentence_map[j].indices.len() ==> 0 <= (#[trigger] analyze_spec(
                text,
                tokens,
            ).sentence_map[j].indices[m]) < analyze_spec(text, tokens).sentences.len(),
{
    let res = analyze_spec(text, tokens);
    let bounds = sentence_bounds(text);
    let entries = aggregate(tokens, bounds);
    assert(res.sentences.len() == kept_spans(text, sentence_spans(text)).len());
    assert(bounds.len() == kept_spans(text, sentence_spans(text)).len());
    if res.sentences.len() > 0 {
        lemma_aggregate_sents_in_range(tokens, bounds);
        assert forall|j: int, m: int|
            0 <= j < res.sentence_map.len() && 0 <= m
                < res.sentence_map[j].indices.len() implies 0 <= (#[trigger] res.sentence_map[
        j].indices[m]) < res.sentences.len() by {
            assert(res.sentence_map[j].indices == entries[j].sents);
            assert(0 <= entries[j].sents[m] < bounds.len());
        }
    }
}

proof fn lemma_lex_asym_from(a: Seq<char>, b: Seq<char>, i: int)
    requires
        0 <= i,
    ensures
        !(lex_lt_from(a, b, i) && lex_lt_from(b, a, i)),
    decreases b.len() - i,
{
    if i >= b.len() {
    } else if i >= a.len() {
    } else if a[i] == b[i] {
        lemma_lex_asym_from(a, b, i + 1);
    }
}

/// Strict lexicographic order is asymmetric.
pub proof fn lemma_lex_asym(a: Seq<char>, b: Seq<char>)
    ensures
        !(lex_lt(a, b) && lex_lt(b, a)),
{
    lemma_lex_asym_from(a, b, 0);
}

proof fn lemma_lex_total_from(a: Seq<char>, b: Seq<char>, i: int)
    requires
        0 <= i <= a.len(),
        i <= b.len(),
        forall|j: int| 0 <= j < i ==> a[j] == b[j],
    ensures
        a == b || lex_lt_from(a, b, i) || lex_lt_from(b, a, i),
    decreases a.len() - i,
{
    if i >= b.len() {
        if i >= a.len() {
            assert(a =~= b);
        }
    } else if i >= a.len() {
    } else if a[i] == b[i] {
        lemma_lex_total_from(a, b, i + 1);
    } else {
        if (a[i] as u32) == (b[i] as u32) {
            vstd::utf8::char_u32_cast(a[i], a[i] as u32);
            vstd::utf8::char_u32_cast(b[i], b[i] as u32);
        }
    }
}

/// Two distinct strings are ordered one way or the other.
pub proof fn lemma_lex_total(a: Seq<char>, b: Seq<char>)
    ensures
        a == b || lex_lt(a, b) || lex_lt(b, a),
{
    lemma_lex_total_from(a, b, 0);
}

proof fn lemma_desc_pos_props(vs: Seq<VariantAccView>, c: int, i: int)
    requires
        0 <= i <= vs.len(),
    ensures
        forall|m: int| i <= m < desc_pos_from(vs, c, i) ==> (#[trigger] vs[m]).count >= c,
        desc_pos_from(vs, c, i) < vs.len() ==> vs[desc_pos_from(vs, c, i)].count < c,
    decreases vs.len() - i,
{
    if i < vs.len() && !(vs[i].count < c) {
        lemma_desc_pos_props(vs, c, i + 1);
    }
}

proof fn lemma_reading_pos_props(gs: Seq<WordGroupView>, r: Seq<char>, i: int)
    requires
        0 <= i <= gs.len(),
    ensures
        i <= reading_pos_from(gs, r, i) <= gs.len(),
        forall|m: int|
            i <= m < reading_pos_from(gs, r, i) ==> !lex_lt(r, (#[trigger] gs[m]).reading),
        reading_pos_from(gs, r, i) < gs.len() ==> lex_lt(r, gs[reading_pos_from(gs, r, i)].reading),
    decreases gs.len() - i,
{
    if i < gs.len() && !lex_lt(r, gs[i].reading) {
        lemma_reading_pos_props(gs, r, i + 1);
    }
}

proof fn lemma_cat_pos_props(cs: Seq<CategoryGroupView>, cat: Seq<char>, i: int)
    requires
        0 <= i <= cs.len(),
    ensures
        i <= cat_pos_from(cs, cat, i) <= cs.len(),
        forall|m: int|
            i <= m < cat_pos_from(cs, cat, i) ==> !lex_lt(cat, (#[trigger] cs[m]).category),
        cat_pos_from(cs, cat, i) < cs.len() ==> lex_lt(cat, cs[cat_pos_from(cs, cat, i)].category),
    decreases cs.len() - i,
{
    if i < cs.len() && !lex_lt(cat, cs[i].category) {
        lemma_cat_pos_props(cs, cat, i + 1);
    }
}

proof fn lemma_cat_find_props(cs: Seq<CategoryGroupView>, cat: Seq<char>, i: int)
    requires
        0 <= i,
    ensures
        cat_find_from(cs, cat, i) == -1 ==> forall|k: int|
            i <= k < cs.len() ==> (#[trigger] cs[k]).category != cat,
        cat_find_from(cs, cat, i) != -1 ==> i <= cat_find_from(cs, cat, i) < cs.len() && cs[
            cat_find_from(cs, cat, i)
        ].category == cat,
    decreases cs.len() - i,
{
    if i < cs.len() && cs[i].category != cat {
        lemma_cat_find_props(cs, cat, i + 1);
    }
}

/// Variant lists are non-increasing by count.
pub open spec fn accs_sorted(vs: Seq<VariantAccView>) -> bool {
    forall|m: int| 0 <= m && m + 1 < vs.len() ==> (#[trigger] vs[m]).count >= vs[m + 1].count
}

pub open spec fn variants_sorted(vs: Seq<VariantView>) -> bool {
    forall|m: int| 0 <= m && m + 1 < vs.len() ==> (#[trigger] vs[m]).count >= vs[m + 1].count
}

/// Word groups ascend by reading.
pub open spec fn groups_sorted(gs: Seq<WordGroupView>) -> bool {
    forall|m: int|
        0 <= m && m + 1 < gs.len() ==> !lex_lt((#[trigger] gs[m + 1]).reading, gs[m].reading)
}

/// Category labels ascend strictly.
pub open spec fn cats_sorted(cs: Seq<CategoryGroupView>) -> bool {
    forall|m: int|
        0 <= m && m + 1 < cs.len() ==> lex_lt((#[trigger] cs[m]).category, cs[m + 1].category)
}

proof fn lemma_insert_desc_sorted(vs: Seq<VariantAccView>, x: VariantAccView)
    requires
        accs_sorted(vs),
    ensures
        accs_sorted(insert_desc(vs, x)),
{
    let p = desc_pos_from(vs, x.count, 0);
    lemma_desc_pos_range(vs, x.count, 0);
    lemma_desc_pos_props(vs, x.count, 0);
    vs.insert_ensures(p, x);
    let r = insert_desc(vs, x);
    assert forall|m: int| 0 <= m && m + 1 < r.len() implies (#[trigger] r[m]).count >= r[m
        + 1].count by {
        if m + 1 < p {
            assert(r[m] == vs[m] && r[m + 1] == vs[m + 1]);
        } else if m + 1 == p {
            assert(r[m] == vs[m] && r[p] == x);
        } else if m == p {
            assert(r[m] == x && r[m + 1] == vs[m]);
        } else {
            assert(r[m] == vs[m - 1] && r[m + 1] == vs[m]);
        }
    }
}

proof fn lemma_sort_desc_sorted(vs: Seq<VariantAccView>)
    ensures
        accs_sorted(sort_desc(vs)),
    decreases vs.len(),
{
    if vs.len() > 0 {
        lemma_sort_desc_sorted(vs.drop_last());
        lemma_insert_desc_sorted(sort_desc(vs.drop_last()), vs.last());
    }
}

/// The variants of a finished group are sorted non-increasingly.
pub proof fn lemma_group_variants_sorted(e: EntryView)
    ensures
        variants_sorted(group_of_entry(e).variants),
{
    lemma_sort_desc_sorted(e.variants);
    let sorted = sort_desc(e.variants);
    let mapped = group_of_entry(e).variants;
    assert forall|m: int| 0 <= m && m + 1 < mapped.len() implies (#[trigger] mapped[m]).count
        >= mapped[m + 1].count by {
        assert(mapped[m].count == sorted[m].count);
        assert(mapped[m + 1].count == sorted[m + 1].count);
    }
}

proof fn lemma_insert_group_keeps_sorted(gs: Seq<WordGroupView>, g: WordGroupView)
    requires
        groups_sorted(gs),
    ensures
        groups_sorted(insert_group_sorted(gs, g)),
{
    let p = reading_pos_from(gs, g.reading, 0);
    lemma_reading_pos_props(gs, g.reading, 0);
    gs.insert_ensures(p, g);
    let r = insert_group_sorted(gs, g);
    assert forall|m: int| 0 <= m && m + 1 < r.len() implies !lex_lt(
        (#[trigger] r[m + 1]).reading,
        r[m].reading,
    ) by {
        if m + 1 < p {
            assert(r[m] == gs[m] && r[m + 1] == gs[m + 1]);
        } else if m + 1 == p {
            assert(r[m] == gs[m] && r[p] == g);
            assert(!lex_lt(g.reading, gs[m].reading));
        } else if m == p {
            assert(r[m] == g && r[m + 1] == gs[m]);
            assert(lex_lt(g.reading, gs[p].reading));
            lemma_lex_asym(gs[p].reading, g.reading);
        } else {
            assert(r[m] == gs[m - 1] && r[m + 1] == gs[m]);
        }
    }
}

/// A group drawn from the aggregator's entries, with its category.
pub open spec fn group_from_entries(
    entries: Seq<EntryView>,
    cat: Seq<char>,
    g: WordGroupView,
) -> bool {
    exists|j: int|
        0 <= j < entries.len() && g == group_of_entry(#[trigger] entries[j]) && cat
            == category_of_entry(entries[j])
}

/// The grouped result is fully sorted, and every group in it comes
/// from one of the aggregator's entries.
pub proof fn lemma_grouped_wf(entries: Seq<EntryView>)
    ensures
        cats_sorted(grouped_of_entries(entries)),
        forall|c: int|
            0 <= c < grouped_of_entries(entries).len() ==> groups_sorted(
                (#[trigger] grouped_of_entries(entries)[c]).groups,
            ),
        forall|c: int, k: int|
            0 <= c < grouped_of_entries(entries).len() && 0 <= k < grouped_of_entries(
                entries,
            )[c].groups.len() ==> group_from_entries(
                entries,
                grouped_of_entries(entries)[c].category,
                #[trigger] grouped_of_entries(entries)[c].groups[k],
            ),
    decreases entries.len(),
{
    if entries.len() > 0 {
        let prefix = entries.drop_last();
        lemma_grouped_wf(prefix);
        let cs = grouped_of_entries(prefix);
        let cur = grouped_of_entries(entries);
        let e = entries.last();
        let cat = category_of_entry(e);
        let g = group_of_entry(e);
        let j0 = cat_find_from(cs, cat, 0);
        lemma_cat_find_props(cs, cat, 0);
        assert(group_from_entries(entries, cat, g)) by {
            assert(entries[entries.len() - 1] == e);
        }
        assert forall|c: int, k: int|
            0 <= c < cs.len() && 0 <= k < cs[c].groups.len() implies group_from_entries(
            entries,
            cs[c].category,
            #[trigger] cs[c].groups[k],
        ) by {
            assert(group_from_entries(prefix, cs[c].category, cs[c].groups[k]));
            let jw = choose|j: int|
                0 <= j < prefix.len() && cs[c].groups[k] == group_of_entry(#[trigger] prefix[j])
                    && cs[c].category == category_of_entry(prefix[j]);
            assert(prefix[jw] == entries[jw]);
        }
        if j0 == -1 {
            let p = cat_pos_from(cs, cat, 0);
            lemma_cat_pos_props(cs, cat, 0);
            let slot = CategoryGroupView { category: cat, groups: seq![g] };
            cs.insert_ensures(p, slot);
            assert(cur == cs.insert(p, slot));
            assert forall|m: int| 0 <= m && m + 1 < cur.len() implies lex_lt(
                (#[trigger] cur[m]).category,
                cur[m + 1].category,
            ) by {
                if m + 1 < p {
                    assert(cur[m] == cs[m] && cur[m + 1] == cs[m + 1]);
                } else if m + 1 == p {
                    assert(cur[m] == cs[m] && cur[p] == slot);
                    assert(!lex_lt(cat, cs[m].category));
                    assert(cs[m].category != cat);
                    lemma_lex_total(cs[m].category, cat);
                } else if m == p {
                    assert(cur[m] == slot && cur[m + 1] == cs[m]);
                    assert(lex_lt(cat, cs[p].category));
                } else {
                    assert(cur[m] == cs[m - 1] && cur[m + 1] == cs[m]);
                }
            }
            assert forall|c: int| 0 <= c < cur.len() implies groups_sorted(
                (#[trigger] cur[c]).groups,
            ) by {
                if c < p {
                    assert(cur[c] == cs[c]);
                } else if c == p {
                    assert(cur[c] == slot);
                } else {
                    assert(cur[c] == cs[c - 1]);
                }
            }
            assert forall|c: int, k: int|
                0 <= c < cur.len() && 0 <= k < cur[c].groups.len() implies group_from_entries(
                entries,
                cur[c].category,
                #[trigger] cur[c].groups[k],
            ) by {
                if c < p {
                    assert(cur[c] == cs[c]);
                } else if c == p {
                    assert(cur[c] == slot);
                    assert(cur[c].groups[k] == g);
                } else {
                    assert(cur[c] == cs[c - 1]);
                }
            }
        } else {
            let olds = cs[j0];
            let news = CategoryGroupView {
                category: olds.category,
                groups: insert_group_sorted(olds.groups, g),
            };
            assert(cur == cs.update(j0, news));
            assert forall|m: int| 0 <= m && m + 1 < cur.len() implies lex_lt(
                (#[trigger] cur[m]).category,
                cur[m + 1].category,
            ) by {
                assert(cur[m].category == cs[m].category);
                assert(cur[m + 1].category == cs[m + 1].category);
            }
            let p = reading_pos_from(olds.groups, g.reading, 0);
            lemma_reading_pos_props(olds.groups, g.reading, 0);
            olds.groups.insert_ensures(p, g);
            assert forall|c: int| 0 <= c < cur.len() implies groups_sorted(
                (#[trigger] cur[c]).groups,
            ) by {
                if c != j0 {
                    assert(cur[c] == cs[c]);
                } else {
                    assert(cur[c] == news);
                    lemma_insert_group_keeps_sorted(olds.groups, g);
                }
            }
            assert forall|c: int, k: int|
                0 <= c < cur.len() && 0 <= k < cur[c].groups.len() implies group_from_entries(
                entries,
                cur[c].category,
                #[trigger] cur[c].groups[k],
            ) by {
                if c != j0 {
                    assert(cur[c] == cs[c]);
                } else {
                    assert(cur[c] == news);
                    if k < p {
                        assert(cur[c].groups[k] == olds.groups[k]);
                    } else if k == p {
                        assert(cur[c].groups[k] == g);
                    } else {
                        assert(cur[c].groups[k] == olds.groups[k - 1]);
                    }
                }
            }
        }
    }
}

/// Sort order: categories ascend strictly, groups within a category
/// ascend by reading, and variants within a group are non-increasing
/// by count.
pub proof fn lemma_sort_order(text: Seq<char>, tokens: Seq<TokenView>)
    ensures
        cats_sorted(analyze_spec(text, tokens).grouped_tokens),
        forall|c: int|
            0 <= c < analyze_spec(text, tokens).grouped_tokens.len() ==> groups_sorted(
                (#[trigger] analyze_spec(text, tokens).grouped_tokens[c]).groups,
            ),
        forall|c: int, k: int|
            0 <= c < analyze_spec(text, tokens).grouped_tokens.len() && 0 <= k < analyze_spec(
                text,
                tokens,
            ).grouped_tokens[c].groups.len() ==> variants_sorted(
                (#[trigger] analyze_spec(text, tokens).grouped_tokens[c].groups[k]).variants,
            ),
{
    let entries = aggregate(tokens, sentence_bounds(text));
    let grouped = grouped_of_entries(entries);
    lemma_grouped_wf(entries);
    assert forall|c: int, k: int|
        0 <= c < grouped.len() && 0 <= k < grouped[c].groups.len() implies variants_sorted(
        (#[trigger] grouped[c].groups[k]).variants,
    ) by {
        let jw = choose|j: int|
            0 <= j < entries.len() && grouped[c].groups[k] == group_of_entry(#[trigger] entries[j])
                && grouped[c].category == category_of_entry(entries[j]);
        lemma_group_variants_sorted(entries[jw]);
    }
}

/// The sum of the counts of a group's finished variants.
pub open spec fn sum_variant_counts(vs: Seq<VariantView>) -> int
    decreases vs.len(),
{
    if vs.len() == 0 {
        0
    } else {
        sum_variant_counts(vs.drop_last()) + vs.last().count
    }
}

proof fn lemma_sum_insert(vs: Seq<VariantAccView>, p: int, x: VariantAccView)
    requires
        0 <= p <= vs.len(),
    ensures
        sum_counts(vs.insert(p, x)) == sum_counts(vs) + x.count,
    decreases vs.len(),
{
    if p == vs.len() {
        assert(vs.insert(p, x) =~= vs.push(x));
        lemma_sum_push(vs, x);
    } else {
        vs.insert_ensures(p, x);
        assert(vs.insert(p, x).drop_last() =~= vs.drop_last().insert(p, x));
        assert(vs.insert(p, x).last() == vs.last());
        lemma_sum_insert(vs.drop_last(), p, x);
    }
}

proof fn lemma_sum_sort_desc(vs: Seq<VariantAccView>)
    ensures
        sum_counts(sort_desc(vs)) == sum_counts(vs),
    decreases vs.len(),
{
    if vs.len() > 0 {
        lemma_sum_sort_desc(vs.drop_last());
        let s = sort_desc(vs.drop_last());
        lemma_desc_pos_range(s, vs.last().count, 0);
        lemma_sum_insert(s, desc_pos_from(s, vs.last().count, 0), vs.last());
    }
}

proof fn lemma_sum_counts_pointwise(sorted: Seq<VariantAccView>, mapped: Seq<VariantView>)
    requires
        mapped.len() == sorted.len(),
        forall|k: int| 0 <= k < mapped.len() ==> (#[trigger] mapped[k]).count == sorted[k].count,
    ensures
        sum_variant_counts(mapped) == sum_counts(sorted),
    decreases sorted.len(),
{
    if sorted.len() > 0 {
        assert forall|k: int| 0 <= k < mapped.drop_last().len() implies (#[trigger] mapped
            .drop_last()[k]).count == sorted.drop_last()[k].count by {
            assert(mapped.drop_last()[k] == mapped[k]);
            assert(sorted.drop_last()[k] == sorted[k]);
        }
        lemma_sum_counts_pointwise(sorted.drop_last(), mapped.drop_last());
        assert(mapped.last().count == sorted.last().count);
    }
}

/// A finished group's total is the sum of its own variants' counts.
pub proof fn lemma_group_total(e: EntryView)
    ensures
        group_of_entry(e).total_count == sum_variant_counts(group_of_entry(e).variants),
{
    lemma_sum_sort_desc(e.variants);
    lemma_sort_desc_len(e.variants);
    let sorted = sort_desc(e.variants);
    let mapped = group_of_entry(e).variants;
    assert forall|k: int| 0 <= k < mapped.len() implies (#[trigger] mapped[k]).count
        == sorted[k].count by {}
    lemma_sum_counts_pointwise(sorted, mapped);
}

/// Variant count conservation: for every group of the result, the
/// total equals the exact sum of its variants' counts, and equals the
/// number of surviving tokens that share the group's reading.
pub proof fn lemma_variant_count_conservation(text: Seq<char>, tokens: Seq<TokenView>)
    ensures
        forall|c: int, k: int|
            0 <= c < analyze_spec(text, tokens).grouped_tokens.len() && 0 <= k < analyze_spec(
                text,
                tokens,
            ).grouped_tokens[c].groups.len() ==> {
                let g = (#[trigger] analyze_spec(text, tokens).grouped_tokens[c].groups[k]);
                g.total_count == sum_variant_counts(g.variants) && g.total_count == count_matching(
                    tokens,
                    g.reading,
                )
            },
{
    let bounds = sentence_bounds(text);
    let entries = aggregate(tokens, bounds);
    let grouped = grouped_of_entries(entries);
    lemma_grouped_wf(entries);
    lemma_aggregate_wf(tokens, bounds);
    assert forall|c: int, k: int|
        0 <= c < grouped.len() && 0 <= k < grouped[c].groups.len() implies {
        let g = (#[trigger] grouped[c].groups[k]);
        g.total_count == sum_variant_counts(g.variants) && g.total_count == count_matching(
            tokens,
            g.reading,
        )
    } by {
        let jw = choose|j: int|
            0 <= j < entries.len() && grouped[c].groups[k] == group_of_entry(#[trigger] entries[j])
                && grouped[c].category == category_of_entry(entries[j]);
        lemma_group_total(entries[jw]);
        assert(sum_counts(entries[jw].variants) == count_matching(tokens, entries[jw].reading));
    }
}

proof fn lemma_sort_desc_membership(vs: Seq<VariantAccView>)
    ensures
        forall|b: int|
            #![trigger sort_desc(vs)[b]]
            0 <= b < sort_desc(vs).len() ==> exists|b0: int|
                0 <= b0 < vs.len() && sort_desc(vs)[b] == #[trigger] vs[b0],
    decreases vs.len(),
{
    if vs.len() > 0 {
        lemma_sort_desc_membership(vs.drop_last());
        let s = sort_desc(vs.drop_last());
        let x = vs.last();
        let p = desc_pos_from(s, x.count, 0);
        lemma_desc_pos_range(s, x.count, 0);
        s.insert_ensures(p, x);
        assert forall|b: int| #![trigger sort_desc(vs)[b]] 0 <= b < sort_desc(vs).len() implies exists|b0: int|
            0 <= b0 < vs.len() && sort_desc(vs)[b] == #[trigger] vs[b0] by {
            if b == p {
                assert(sort_desc(vs)[b] == x);
                assert(sort_desc(vs)[b] == vs[vs.len() - 1]);
            } else {
                let bs = if b < p {
                    b
                } else {
                    b - 1
                };
                assert(sort_desc(vs)[b] == s[bs]);
                let b0 = choose|b0: int|
                    0 <= b0 < vs.drop_last().len() && s[bs] == #[trigger] vs.drop_last()[b0];
                assert(vs.drop_last()[b0] == vs[b0]);
            }
        }
    }
}

/// A surviving token with this reading and surface form exists in the
/// stream: the only way a variant can arise.
pub open spec fn variant_witnessed(
    tokens: Seq<TokenView>,
    reading: Seq<char>,
    word: Seq<char>,
) -> bool {
    exists|idx: int|
        0 <= idx < tokens.len() && keep_feature((#[trigger] tokens[idx]).feature) && reading_of(
            tokens[idx].feature,
        ) == reading && tokens[idx].surface == word
}

proof fn lemma_aggregate_variants_witnessed(tokens: Seq<TokenView>, bounds: Seq<int>)
    ensures
        forall|j: int, b: int|
            0 <= j < aggregate(tokens, bounds).len() && 0 <= b < aggregate(
                tokens,
                bounds,
            )[j].variants.len() ==> variant_witnessed(
                tokens,
                aggregate(tokens, bounds)[j].reading,
                (#[trigger] aggregate(tokens, bounds)[j].variants[b]).word,
            ),
    decreases tokens.len(),
{
    if tokens.len() > 0 {
        let prefix = tokens.drop_last();
        lemma_aggregate_variants_witnessed(prefix, bounds);
        let pre = aggregate(prefix, bounds);
        let cur = aggregate(tokens, bounds);
        let t = tokens.last();
        assert(tokens[tokens.len() - 1] == t);
        assert forall|r: Seq<char>, w: Seq<char>| variant_witnessed(prefix, r, w) implies (
        #[trigger] variant_witnessed(tokens, r, w)) by {
            let idx = choose|idx: int|
                0 <= idx < prefix.len() && keep_feature((#[trigger] prefix[idx]).feature)
                    && reading_of(prefix[idx].feature) == r && prefix[idx].surface == w;
            assert(tokens[idx] == prefix[idx]);
        }
        if !keep_feature(t.feature) {
            assert forall|j: int, b: int|
                0 <= j < cur.len() && 0 <= b < cur[j].variants.len() implies variant_witnessed(
                tokens,
                cur[j].reading,
                (#[trigger] cur[j].variants[b]).word,
            ) by {
                assert(cur[j] == pre[j]);
                assert(variant_witnessed(prefix, pre[j].reading, pre[j].variants[b].word));
            }
        } else {
            let r0 = reading_of(t.feature);
            let j0 = find_reading(pre, r0);
            assert(variant_witnessed(tokens, r0, t.surface));
            if j0 == -1 {
                assert forall|j: int, b: int|
                    0 <= j < cur.len() && 0 <= b < cur[j].variants.len() implies variant_witnessed(
                    tokens,
                    cur[j].reading,
                    (#[trigger] cur[j].variants[b]).word,
                ) by {
                    if j < pre.len() {
                        assert(cur[j] == pre[j]);
                        assert(variant_witnessed(prefix, pre[j].reading, pre[j].variants[b].word));
                    } else {
                        assert(cur[j].variants[b].word == t.surface);
                        assert(cur[j].reading == r0);
                    }
                }
            } else {
                lemma_find_reading_from(pre, r0, 0);
                let k = find_variant(pre[j0].variants, t.surface);
                lemma_find_variant_from(pre[j0].variants, t.surface, 0);
                assert forall|j: int, b: int|
                    0 <= j < cur.len() && 0 <= b < cur[j].variants.len() implies variant_witnessed(
                    tokens,
                    cur[j].reading,
                    (#[trigger] cur[j].variants[b]).word,
                ) by {
                    if j != j0 {
                        assert(cur[j] == pre[j]);
                        assert(variant_witnessed(prefix, pre[j].reading, pre[j].variants[b].word));
                    } else {
                        assert(cur[j].reading == r0);
                        if k == -1 {
                            if b < pre[j0].variants.len() {
                                assert(cur[j].variants[b] == pre[j0].variants[b]);
                                assert(variant_witnessed(prefix, r0, pre[j0].variants[b].word));
                            } else {
                                assert(cur[j].variants[b].word == t.surface);
                            }
                        } else {
                            if b == k {
                                assert(cur[j].variants[b].word == pre[j0].variants[k].word);
                            } else {
                                assert(cur[j].variants[b] == pre[j0].variants[b]);
                            }
                            assert(variant_witnessed(prefix, r0, pre[j0].variants[b].word));
                        }
                    }
                }
            }
        }
    }
}

/// Filtering correctness: every variant of every group in the result
/// is backed by a surviving token bearing the group's reading and the
/// variant's surface form — never by a filtered-out token.
pub proof fn lemma_filtering(text: Seq<char>, tokens: Seq<TokenView>)
    ensures
        forall|c: int, k: int, b: int|
            0 <= c < analyze_spec(text, tokens).grouped_tokens.len() && 0 <= k < analyze_spec(
                text,
                tokens,
            ).grouped_tokens[c].groups.len() && 0 <= b < analyze_spec(
                text,
                tokens,
            ).grouped_tokens[c].groups[k].variants.len() ==> variant_witnessed(
                tokens,
                analyze_spec(text, tokens).grouped_tokens[c].groups[k].reading,
                (#[trigger] analyze_spec(text, tokens).grouped_tokens[c].groups[k].variants[b]).word,
            ),
{
    let bounds = sentence_bounds(text);
    let entries = aggregate(tokens, bounds);
    let grouped = grouped_of_entries(entries);
    lemma_grouped_wf(entries);
    lemma_aggregate_variants_witnessed(tokens, bounds);
    assert forall|c: int, k: int, b: int|
        0 <= c < grouped.len() && 0 <= k < grouped[c].groups.len() && 0 <= b < grouped[c].groups[
        k].variants.len() implies variant_witnessed(
        tokens,
        grouped[c].groups[k].reading,
        (#[trigger] grouped[c].groups[k].variants[b]).word,
    ) by {
        let jw = choose|j: int|
            0 <= j < entries.len() && grouped[c].groups[k] == group_of_entry(#[trigger] entries[j])
                && grouped[c].category == category_of_entry(entries[j]);
        let e = entries[jw];
        lemma_sort_desc_len(e.variants);
        lemma_sort_desc_membership(e.variants);
        assert(grouped[c].groups[k].variants[b].word == sort_desc(e.variants)[b].word);
        let b0 = choose|b0: int|
            0 <= b0 < e.variants.len() && sort_desc(e.variants)[b] == #[trigger] e.variants[b0];
        assert(variant_witnessed(tokens, e.reading, e.variants[b0].word));
    }
}

} // verus!
