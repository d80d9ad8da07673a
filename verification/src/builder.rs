use vstd::prelude::*;
use crate::chars::{ints_of, lex_lt, str_eq, str_lt};
use crate::classify::{display_category_spec, get_display_category};
use crate::aggregate::{
    EntryView, ReadingEntry, VariantAcc, VariantAccView, entry_views, variant_acc_views,
};
use crate::segment::{Sentence, SentenceView};

verus! {

/// One spelling of a word, with how often it occurred.
pub struct Variant {
    pub word: String,
    pub count: usize,
}

pub struct VariantView {
    pub word: Seq<char>,
    pub count: int,
}

impl View for Variant {
    type V = VariantView;

    open spec fn view(&self) -> VariantView {
        VariantView { word: self.word@, count: self.count as int }
    }
}

/// All spellings sharing one reading: the most frequent one first as
/// the primary word, every variant with its count, and the total.
pub struct WordGroup {
    pub reading: String,
    pub primary_word: String,
    pub total_count: usize,
    pub variants: Vec<Variant>,
}

pub struct WordGroupView {
    pub reading: Seq<char>,
    pub primary_word: Seq<char>,
    pub total_count: int,
    pub variants: Seq<VariantView>,
}

pub open spec fn variant_views(vs: Seq<Variant>) -> Seq<VariantView> {
    vs.map_values(|v: Variant| v@)
}

impl View for WordGroup {
    type V = WordGroupView;

    open spec fn view(&self) -> WordGroupView {
        WordGroupView {
            reading: self.reading@,
            primary_word: self.primary_word@,
            total_count: self.total_count as int,
            variants: variant_views(self.variants@),
        }
    }
}

/// One display category with its word groups, ascending by reading.
pub struct CategoryGroup {
    pub category: String,
    pub groups: Vec<WordGroup>,
}

pub struct CategoryGroupView {
    pub category: Seq<char>,
    pub groups: Seq<WordGroupView>,
}

pub open spec fn group_views(gs: Seq<WordGroup>) -> Seq<WordGroupView> {
    gs.map_values(|g: WordGroup| g@)
}

impl View for CategoryGroup {
    type V = CategoryGroupView;

    open spec fn view(&self) -> CategoryGroupView {
        CategoryGroupView { category: self.category@, groups: group_views(self.groups@) }
    }
}

/// The sentence indices (ascending) in which a reading occurs.
pub struct ReadingSentences {
    pub reading: String,
    pub sentence_indices: Vec<usize>,
}

pub struct ReadingSentencesView {
    pub reading: Seq<char>,
    pub indices: Seq<int>,
}

impl View for ReadingSentences {
    type V = ReadingSentencesView;

    open spec fn view(&self) -> ReadingSentencesView {
        ReadingSentencesView { reading: self.reading@, indices: ints_of(self.sentence_indices@) }
    }
}

/// The complete result of one analysis: the word groups filed under
/// their sorted categories, the sentences, and the reading-to-sentence
/// map.
pub struct AnalyzedData {
    pub grouped_tokens: Vec<CategoryGroup>,
    pub sentences: Vec<Sentence>,
    pub sentence_map: Vec<ReadingSentences>,
}

pub struct AnalyzedView {
    pub grouped_tokens: Seq<CategoryGroupView>,
    pub sentences: Seq<SentenceView>,
    pub sentence_map: Seq<ReadingSentencesView>,
}

pub open spec fn category_views(cs: Seq<CategoryGroup>) -> Seq<CategoryGroupView> {
    cs.map_values(|c: CategoryGroup| c@)
}

pub open spec fn map_slot_views(ms: Seq<ReadingSentences>) -> Seq<ReadingSentencesView> {
    ms.map_values(|m: ReadingSentences| m@)
}

impl View for AnalyzedData {
    type V = AnalyzedView;

    open spec fn view(&self) -> AnalyzedView {
        AnalyzedView {
            grouped_tokens: category_views(self.grouped_tokens@),
            sentences: crate::segment::sentence_seq_views(self.sentences@),
            sentence_map: map_slot_views(self.sentence_map@),
        }
    }
}

/// The sum of the occurrence counts of a reading's variants.
pub open spec fn sum_counts(vs: Seq<VariantAccView>) -> int
    decreases vs.len(),
{
    if vs.len() == 0 {
        0
    } else {
        sum_counts(vs.drop_last()) + vs.last().count
    }
}

pub open spec fn counts_nonneg(vs: Seq<VariantAccView>) -> bool {
    forall|b: int| 0 <= b < vs.len() ==> (#[trigger] vs[b]).count >= 0
}

pub proof fn lemma_sum_take_succ(vs: Seq<VariantAccView>, k: int)
    requires
        0 <= k < vs.len(),
    ensures
        sum_counts(vs.take(k + 1)) == sum_counts(vs.take(k)) + vs[k].count,
{
    assert(vs.take(k + 1).drop_last() =~= vs.take(k));
    assert(vs.take(k + 1).last() == vs[k]);
}

pub proof fn lemma_sum_take_le(vs: Seq<VariantAccView>, k: int)
    requires
        0 <= k <= vs.len(),
        counts_nonneg(vs),
    ensures
        sum_counts(vs.take(k)) <= sum_counts(vs),
    decreases vs.len() - k,
{
    if k == vs.len() {
        assert(vs.take(k) =~= vs);
    } else {
        lemma_sum_take_succ(vs, k);
        lemma_sum_take_le(vs, k + 1);
    }
}

/// Where a variant of count `c` belongs in the descending sequence
/// `vs`, probing from `i`: before the first strictly smaller count,
/// after every equal one, which keeps first-seen order among ties.
pub open spec fn desc_pos_from(vs: Seq<VariantAccView>, c: int, i: int) -> int
    decreases vs.len() - i,
{
    if i >= vs.len() {
        vs.len() as int
    } else if vs[i].count < c {
        i
    } else {
        desc_pos_from(vs, c, i + 1)
    }
}

/// Stable insertion into a count-descending sequence.
pub open spec fn insert_desc(vs: Seq<VariantAccView>, x: VariantAccView) -> Seq<VariantAccView> {
    vs.insert(desc_pos_from(vs, x.count, 0), x)
}

/// Stable sort of a reading's variants, descending by count.
pub open spec fn sort_desc(vs: Seq<VariantAccView>) -> Seq<VariantAccView>
    decreases vs.len(),
{
    if vs.len() == 0 {
        Seq::empty()
    } else {
        insert_desc(sort_desc(vs.drop_last()), vs.last())
    }
}

pub proof fn lemma_desc_pos_range(vs: Seq<VariantAccView>, c: int, i: int)
    requires
        0 <= i <= vs.len(),
    ensures
        i <= desc_pos_from(vs, c, i) <= vs.len(),
    decreases vs.len() - i,
{
    if i < vs.len() && !(vs[i].count < c) {
        lemma_desc_pos_range(vs, c, i + 1);
    }
}

pub proof fn lemma_sort_desc_len(vs: Seq<VariantAccView>)
    ensures
        sort_desc(vs).len() == vs.len(),
    decreases vs.len(),
{
    if vs.len() > 0 {
        lemma_sort_desc_len(vs.drop_last());
        let s = sort_desc(vs.drop_last());
        let p = desc_pos_from(s, vs.last().count, 0);
        lemma_desc_pos_range(s, vs.last().count, 0);
        s.insert_ensures(p, vs.last());
    }
}

/// The group a finished entry yields: variants sorted descending by
/// count (stably), the first of them primary, and the counts' sum.
pub open spec fn group_of_entry(e: EntryView) -> WordGroupView {
    let sorted = sort_desc(e.variants);
    WordGroupView {
        reading: e.reading,
        primary_word: sorted[0].word,
        total_count: sum_counts(e.variants),
        variants: sorted.map_values(|v: VariantAccView| VariantView { word: v.word, count: v.count }),
    }
}

/// The category a finished entry is filed under: derived from the
/// feature tuple retained for its primary variant.
pub open spec fn category_of_entry(e: EntryView) -> Seq<char> {
    display_category_spec(sort_desc(e.variants)[0].feature)
}

/// Where a group belongs among reading-ascending groups, probing from
/// `i`: before the first strictly greater reading.
pub open spec fn reading_pos_from(gs: Seq<WordGroupView>, r: Seq<char>, i: int) -> int
    decreases gs.len() - i,
{
    if i >= gs.len() {
        gs.len() as int
    } else if lex_lt(r, gs[i].reading) {
        i
    } else {
        reading_pos_from(gs, r, i + 1)
    }
}

pub open spec fn insert_group_sorted(gs: Seq<WordGroupView>, g: WordGroupView) -> Seq<
    WordGroupView,
> {
    gs.insert(reading_pos_from(gs, g.reading, 0), g)
}

/// The first category slot labelled `cat`, from `i` on, or -1.
pub open spec fn cat_find_from(cs: Seq<CategoryGroupView>, cat: Seq<char>, i: int) -> int
    decreases cs.len() - i,
{
    if i >= cs.len() {
        -1
    } else if cs[i].category == cat {
        i
    } else {
        cat_find_from(cs, cat, i + 1)
    }
}

/// Where a new category belongs among ascending category labels.
pub open spec fn cat_pos_from(cs: Seq<CategoryGroupView>, cat: Seq<char>, i: int) -> int
    decreases cs.len() - i,
{
    if i >= cs.len() {
        cs.len() as int
    } else if lex_lt(cat, cs[i].category) {
        i
    } else {
        cat_pos_from(cs, cat, i + 1)
    }
}

/// Files one group under its category, keeping categories ascending
/// and the groups within a category ascending by reading.
pub open spec fn insert_categorized(
    cs: Seq<CategoryGroupView>,
    cat: Seq<char>,
    g: WordGroupView,
) -> Seq<CategoryGroupView> {
    let j = cat_find_from(cs, cat, 0);
    if j == -1 {
        cs.insert(cat_pos_from(cs, cat, 0), CategoryGroupView { category: cat, groups: seq![g] })
    } else {
        cs.update(
            j,
            CategoryGroupView {
                category: cs[j].category,
                groups: insert_group_sorted(cs[j].groups, g),
            },
        )
    }
}

/// The fully sorted category structure the finished entries yield.
pub open spec fn grouped_of_entries(entries: Seq<EntryView>) -> Seq<CategoryGroupView>
    decreases entries.len(),
{
    if entries.len() == 0 {
        Seq::empty()
    } else {
        insert_categorized(
            grouped_of_entries(entries.drop_last()),
            category_of_entry(entries.last()),
            group_of_entry(entries.last()),
        )
    }
}

/// The reading-to-sentence-indices map, one slot per entry in
/// first-seen order.
pub open spec fn sentence_map_of_entries(entries: Seq<EntryView>) -> Seq<ReadingSentencesView> {
    entries.map_values(|e: EntryView| (ReadingSentencesView { reading: e.reading, indices: e.sents }))
}

/// Copies a vector of sentence indices.
fn copy_usizes(xs: &Vec<usize>) -> (r: Vec<usize>)
    ensures
        r@ == xs@,
{
    let mut r: Vec<usize> = Vec::new();
    let n = xs.len();
    let mut i: usize = 0;
    while i < n
        invariant
            n == xs@.len(),
            i <= n,
            r@ == xs@.take(i as int),
        decreases n - i,
    {
        r.push(xs[i]);
        proof {
            assert(r@ =~= xs@.take(i as int + 1));
        }
        i += 1;
    }
    proof {
        assert(xs@.take(n as int) =~= xs@);
    }
    r
}

/// Sorts a reading's variants descending by count, stably, as
/// `sort_desc` states.
fn sort_variants(vs: &Vec<VariantAcc>) -> (r: Vec<VariantAcc>)
    ensures
        variant_acc_views(r@) == sort_desc(variant_acc_views(vs@)),
{
    let ghost vv = variant_acc_views(vs@);
    let mut out: Vec<VariantAcc> = Vec::new();
    let n = vs.len();
    let mut i: usize = 0;
    while i < n
        invariant
            n == vs@.len(),
            i <= n,
            vv == variant_acc_views(vs@),
            vv.len() == n,
            variant_acc_views(out@) == sort_desc(vv.take(i as int)),
        decreases n - i,
    {
        let ghost sorted = variant_acc_views(out@);
        proof {
            assert(vv.take(i as int + 1).drop_last() =~= vv.take(i as int));
            assert(vv.take(i as int + 1).last() == vv[i as int]);
            assert(vv[i as int] == vs@[i as int]@);
        }
        let x = VariantAcc {
            word: vs[i].word.clone(),
            count: vs[i].count,
            feature: vs[i].feature.clone(),
        };
        let c = x.count;
        let m = out.len();
        let mut p: usize = 0;
        while p < m && out[p].count >= c
            invariant
                m == out@.len(),
                p <= m,
                sorted == variant_acc_views(out@),
                sorted.len() == m,
                desc_pos_from(sorted, c as int, 0) == desc_pos_from(sorted, c as int, p as int),
            decreases m - p,
        {
            proof {
                assert(sorted[p as int] == out@[p as int]@);
            }
            p += 1;
        }
        proof {
            if p < m {
                assert(sorted[p as int] == out@[p as int]@);
            }
            assert(desc_pos_from(sorted, c as int, p as int) == p as int);
        }
        out.insert(p, x);
        proof {
            assert(variant_acc_views(out@) =~= insert_desc(sorted, vv[i as int]));
        }
        i += 1;
    }
    proof {
        assert(vv.take(n as int) =~= vv);
    }
    out
}

/// Builds the final result from the sentences and the aggregator's
/// entries: per entry one WordGroup (variants sorted, primary and
/// total derived) filed under its category, and one sentence-map slot.
pub fn build_result(sentences: Vec<Sentence>, entries: &Vec<ReadingEntry>) -> (r: AnalyzedData)
    requires
        forall|j: int|
            0 <= j < entry_views(entries@).len() ==> (#[trigger] entry_views(entries@)[j])
                .variants.len() >= 1,
        forall|j: int|
            0 <= j < entry_views(entries@).len() ==> sum_counts(
                (#[trigger] entry_views(entries@)[j]).variants,
            ) <= usize::MAX,
    ensures
        r@.sentences == crate::segment::sentence_seq_views(sentences@),
        r@.grouped_tokens == grouped_of_entries(entry_views(entries@)),
        r@.sentence_map == sentence_map_of_entries(entry_views(entries@)),
{
    let ghost ev = entry_views(entries@);
    let mut grouped: Vec<CategoryGroup> = Vec::new();
    let mut sentence_map: Vec<ReadingSentences> = Vec::new();
    let n = entries.len();
    let mut i: usize = 0;
    while i < n
        invariant
            n == entries@.len(),
            i <= n,
            ev == entry_views(entries@),
            ev.len() == n,
            forall|j: int|
                0 <= j < ev.len() ==> (#[trigger] ev[j]).variants.len() >= 1,
            forall|j: int|
                0 <= j < ev.len() ==> sum_counts((#[trigger] ev[j]).variants) <= usize::MAX,
            category_views(grouped@) == grouped_of_entries(ev.take(i as int)),
            map_slot_views(sentence_map@) == sentence_map_of_entries(
                ev.take(i as int),
            ),
        decreases n - i,
    {
        let ghost pre = category_views(grouped@);
        proof {
            assert(ev.take(i as int + 1).drop_last() =~= ev.take(i as int));
            assert(ev.take(i as int + 1).last() == ev[i as int]);
            assert(ev[i as int] == entries@[i as int]@);
        }
        let e = &entries[i];
        let ghost eview = e@;
        let sorted = sort_variants(&e.variants);
        proof {
            lemma_sort_desc_len(eview.variants);
            assert(variant_acc_views(sorted@).len() == sort_desc(
                eview.variants,
            ).len());
        }
        // Total count: the sum of the (unsorted) variant counts.
        let mut total: usize = 0;
        let m = e.variants.len();
        let mut k: usize = 0;
        proof {
            assert forall|b: int| 0 <= b < eview.variants.len() implies (#[trigger] eview
                .variants[b]).count >= 0 by {
                assert(eview.variants[b] == e.variants@[b]@);
            }
            assert(eview.variants.take(0) =~= Seq::<VariantAccView>::empty());
        }
        while k < m
            invariant
                m == e.variants@.len(),
                k <= m,
                eview == e@,
                eview.variants.len() == m,
                counts_nonneg(eview.variants),
                sum_counts(eview.variants) <= usize::MAX,
                total as int == sum_counts(eview.variants.take(k as int)),
            decreases m - k,
        {
            proof {
                lemma_sum_take_succ(eview.variants, k as int);
                lemma_sum_take_le(eview.variants, k as int + 1);
                assert(eview.variants[k as int] == e.variants@[k as int]@);
            }
            total = total + e.variants[k].count;
            k += 1;
        }
        proof {
            assert(eview.variants.take(m as int) =~= eview.variants);
        }
        // Category from the primary variant's retained feature tuple.
        let category = get_display_category(sorted[0].feature.as_str());
        proof {
            assert(variant_acc_views(sorted@)[0] == sorted@[0]@);
            assert(category@ == category_of_entry(eview));
        }
        // The finished word group.
        let mut wvars: Vec<Variant> = Vec::new();
        let sn = sorted.len();
        let mut k2: usize = 0;
        while k2 < sn
            invariant
                sn == sorted@.len(),
                k2 <= sn,
                forall|b: int|
                    0 <= b < k2 ==> (#[trigger] wvars@[b])@ == (VariantView {
                        word: sorted@[b]@.word,
                        count: sorted@[b]@.count,
                    }),
                wvars@.len() == k2,
            decreases sn - k2,
        {
            wvars.push(Variant { word: sorted[k2].word.clone(), count: sorted[k2].count });
            k2 += 1;
        }
        let wg = WordGroup {
            reading: e.reading.clone(),
            primary_word: sorted[0].word.clone(),
            total_count: total,
            variants: wvars,
        };
        proof {
            assert(sorted@[0]@ == sort_desc(eview.variants)[0]);
            assert(wg@.variants =~= group_of_entry(eview).variants);
            assert(wg@ == group_of_entry(eview));
        }
        // File the group under its category.
        let gn = grouped.len();
        let mut j: usize = 0;
        let mut found = false;
        while j < gn && !found
            invariant
                gn == grouped@.len(),
                pre == category_views(grouped@),
                pre.len() == gn,
                j <= gn,
                !found ==> cat_find_from(pre, category@, 0) == cat_find_from(
                    pre,
                    category@,
                    j as int,
                ),
                found ==> j < gn && cat_find_from(pre, category@, 0) == j as int,
            decreases gn - j + (if found { 0int } else { 1int }),
        {
            proof {
                assert(pre[j as int] == grouped@[j as int]@);
            }
            if str_eq(grouped[j].category.as_str(), category.as_str()) {
                found = true;
            } else {
                j += 1;
            }
        }
        if found {
            let mut cg = grouped.remove(j);
            let ghost cgview = cg@;
            proof {
                assert(pre[j as int] == cgview);
            }
            let ghost gs = cgview.groups;
            let rn = cg.groups.len();
            let mut p: usize = 0;
            while p < rn && !str_lt(wg.reading.as_str(), cg.groups[p].reading.as_str())
                invariant
                    rn == cg.groups@.len(),
                    gs == group_views(cg.groups@),
                    gs.len() == rn,
                    p <= rn,
                    wg@.reading == eview.reading,
                    reading_pos_from(gs, eview.reading, 0) == reading_pos_from(
                        gs,
                        eview.reading,
                        p as int,
                    ),
                decreases rn - p,
            {
                proof {
                    assert(gs[p as int] == cg.groups@[p as int]@);
                }
                p += 1;
            }
            proof {
                if p < rn {
                    assert(gs[p as int] == cg.groups@[p as int]@);
                }
                assert(reading_pos_from(gs, eview.reading, p as int) == p as int);
            }
            cg.groups.insert(p, wg);
            proof {
                assert(cg@.groups =~= insert_group_sorted(gs, group_of_entry(eview)));
                assert(cg@ == insert_categorized(pre, category_of_entry(eview), group_of_entry(eview))[j as int]);
            }
            grouped.insert(j, cg);
            proof {
                assert(category_views(grouped@) =~= insert_categorized(
                    pre,
                    category_of_entry(eview),
                    group_of_entry(eview),
                ));
            }
        } else {
            let gn2 = grouped.len();
            let mut p: usize = 0;
            while p < gn2 && !str_lt(category.as_str(), grouped[p].category.as_str())
                invariant
                    gn2 == grouped@.len(),
                    pre == category_views(grouped@),
                    pre.len() == gn2,
                    p <= gn2,
                    cat_pos_from(pre, category@, 0) == cat_pos_from(pre, category@, p as int),
                decreases gn2 - p,
            {
                proof {
                    assert(pre[p as int] == grouped@[p as int]@);
                }
                p += 1;
            }
            proof {
                if p < gn2 {
                    assert(pre[p as int] == grouped@[p as int]@);
                }
                assert(cat_pos_from(pre, category@, p as int) == p as int);
            }
            let cg = CategoryGroup { category, groups: vec![wg] };
            proof {
                assert(cg@.groups =~= seq![group_of_entry(eview)]);
            }
            grouped.insert(p, cg);
            proof {
                assert(category_views(grouped@) =~= insert_categorized(
                    pre,
                    category_of_entry(eview),
                    group_of_entry(eview),
                ));
            }
        }
        // The sentence-map slot for this reading.
        let slot = ReadingSentences {
            reading: e.reading.clone(),
            sentence_indices: copy_usizes(&e.sents),
        };
        proof {
            assert(slot@ == (ReadingSentencesView { reading: eview.reading, indices: eview.sents }));
        }
        let ghost old_map = sentence_map@;
        sentence_map.push(slot);
        proof {
            assert(map_slot_views(old_map).len() == i as int);
            assert(sentence_map@ == old_map.push(slot));
            assert forall|b: int| 0 <= b < sentence_map@.len() implies map_slot_views(
                sentence_map@,
            )[b] == sentence_map_of_entries(ev.take(i as int + 1))[b] by {
                assert(map_slot_views(sentence_map@)[b] == sentence_map@[b]@);
                if b < i as int {
                    assert(sentence_map@[b] == old_map[b]);
                    assert(map_slot_views(old_map)[b] == old_map[b]@);
                    assert(map_slot_views(old_map)[b] == sentence_map_of_entries(
                        ev.take(i as int),
                    )[b]);
                    assert(ev.take(i as int)[b] == ev.take(i as int + 1)[b]);
                } else {
                    assert(sentence_map@[b] == slot);
                    assert(ev.take(i as int + 1)[b] == ev[i as int]);
                }
            }
            assert(map_slot_views(sentence_map@) =~= sentence_map_of_entries(
                ev.take(i as int + 1),
            ));
        }
        i += 1;
    }
    proof {
        assert(ev.take(n as int) =~= ev);
    }
    let r = AnalyzedData { grouped_tokens: grouped, sentences, sentence_map };
    r
}

} // verus!
