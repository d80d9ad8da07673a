use vstd::prelude::*;
use crate::chars::ints_of;
use crate::classify::{keep_feature, keep_token, reading_of, token_reading};
use crate::locate::{locate_spec, locate_sentence};

verus! {

/// A token as the external tokenizer reports it: its literal surface
/// substring, its comma-joined grammatical feature tuple, and the
/// character (not byte) offset at which it starts in the text.
pub struct Token {
    pub surface: String,
    pub feature: String,
    pub char_start: usize,
}

pub struct TokenView {
    pub surface: Seq<char>,
    pub feature: Seq<char>,
    pub char_start: int,
}

impl View for Token {
    type V = TokenView;

    open spec fn view(&self) -> TokenView {
        TokenView {
            surface: self.surface@,
            feature: self.feature@,
            char_start: self.char_start as int,
        }
    }
}

pub open spec fn token_views(ts: Seq<Token>) -> Seq<TokenView> {
    ts.map_values(|t: Token| t@)
}

/// One distinct surface form under a reading, with its running count
/// and the feature tuple of its first occurrence.
pub struct VariantAcc {
    pub word: String,
    pub count: usize,
    pub feature: String,
}

pub struct VariantAccView {
    pub word: Seq<char>,
    pub count: int,
    pub feature: Seq<char>,
}

impl View for VariantAcc {
    type V = VariantAccView;

    open spec fn view(&self) -> VariantAccView {
        VariantAccView { word: self.word@, count: self.count as int, feature: self.feature@ }
    }
}

/// The per-reading state the aggregator accumulates: the variants in
/// first-seen order and the ascending set of sentence indices.
pub struct ReadingEntry {
    pub reading: String,
    pub variants: Vec<VariantAcc>,
    pub sents: Vec<usize>,
}

pub struct EntryView {
    pub reading: Seq<char>,
    pub variants: Seq<VariantAccView>,
    pub sents: Seq<int>,
}

pub open spec fn variant_acc_views(vs: Seq<VariantAcc>) -> Seq<VariantAccView> {
    vs.map_values(|v: VariantAcc| v@)
}

impl View for ReadingEntry {
    type V = EntryView;

    open spec fn view(&self) -> EntryView {
        EntryView {
            reading: self.reading@,
            variants: variant_acc_views(self.variants@),
            sents: ints_of(self.sents@),
        }
    }
}

pub open spec fn entry_views(es: Seq<ReadingEntry>) -> Seq<EntryView> {
    es.map_values(|e: ReadingEntry| e@)
}

/// The first entry keyed by reading `r`, from position `i` on, or -1.
pub open spec fn find_reading_from(entries: Seq<EntryView>, r: Seq<char>, i: int) -> int
    decreases entries.len() - i,
{
    if i >= entries.len() {
        -1
    } else if entries[i].reading == r {
        i
    } else {
        find_reading_from(entries, r, i + 1)
    }
}

pub open spec fn find_reading(entries: Seq<EntryView>, r: Seq<char>) -> int {
    find_reading_from(entries, r, 0)
}

/// The first variant with surface form `w`, from position `i` on, or -1.
pub open spec fn find_variant_from(vs: Seq<VariantAccView>, w: Seq<char>, i: int) -> int
    decreases vs.len() - i,
{
    if i >= vs.len() {
        -1
    } else if vs[i].word == w {
        i
    } else {
        find_variant_from(vs, w, i + 1)
    }
}

pub open spec fn find_variant(vs: Seq<VariantAccView>, w: Seq<char>) -> int {
    find_variant_from(vs, w, 0)
}

/// Where `x` belongs in the ascending sequence `s`, from `i` on: the
/// first position whose element is at least `x`.
pub open spec fn sent_pos_from(s: Seq<int>, x: int, i: int) -> int
    decreases s.len() - i,
{
    if i >= s.len() {
        s.len() as int
    } else if x <= s[i] {
        i
    } else {
        sent_pos_from(s, x, i + 1)
    }
}

/// Set insertion into an ascending sequence: a present value changes
/// nothing, a new one enters at its sorted position.
pub open spec fn insert_sent(s: Seq<int>, x: int) -> Seq<int> {
    let p = sent_pos_from(s, x, 0);
    if p < s.len() && s[p] == x {
        s
    } else {
        s.insert(p, x)
    }
}

/// One more occurrence of surface form `t.surface`: an existing
/// variant's count grows by one (its first-seen feature tuple stays),
/// a new surface form enters at the end with count 1.
pub open spec fn step_variants(vs: Seq<VariantAccView>, t: TokenView) -> Seq<VariantAccView> {
    let k = find_variant(vs, t.surface);
    if k == -1 {
        vs.push(VariantAccView { word: t.surface, count: 1, feature: t.feature })
    } else {
        vs.update(
            k,
            VariantAccView { word: vs[k].word, count: vs[k].count + 1, feature: vs[k].feature },
        )
    }
}

/// How one token changes the aggregator state: a filtered-out token
/// changes nothing; a surviving one is located in its sentence and
/// recorded under its reading.
pub open spec fn agg_token(entries: Seq<EntryView>, bounds: Seq<int>, t: TokenView) -> Seq<
    EntryView,
> {
    if !keep_feature(t.feature) {
        entries
    } else {
        let r = reading_of(t.feature);
        let idx = locate_spec(bounds, t.char_start);
        let j = find_reading(entries, r);
        if j == -1 {
            entries.push(
                EntryView {
                    reading: r,
                    variants: seq![
                        (VariantAccView { word: t.surface, count: 1, feature: t.feature }),
                    ],
                    sents: seq![idx],
                },
            )
        } else {
            entries.update(
                j,
                EntryView {
                    reading: entries[j].reading,
                    variants: step_variants(entries[j].variants, t),
                    sents: insert_sent(entries[j].sents, idx),
                },
            )
        }
    }
}

/// The aggregator state after the whole token stream, processed left
/// to right.
pub open spec fn aggregate(tokens: Seq<TokenView>, bounds: Seq<int>) -> Seq<EntryView>
    decreases tokens.len(),
{
    if tokens.len() == 0 {
        Seq::empty()
    } else {
        agg_token(aggregate(tokens.drop_last(), bounds), bounds, tokens.last())
    }
}

/// Every variant count after `m` processed tokens is at most `m`.
pub open spec fn counts_bounded(entries: Seq<EntryView>, m: int) -> bool {
    forall|a: int, b: int|
        0 <= a < entries.len() && 0 <= b < entries[a].variants.len() ==> (#[trigger] entries[a]
            .variants[b]).count <= m
}

pub proof fn lemma_find_reading_from(entries: Seq<EntryView>, r: Seq<char>, i: int)
    requires
        0 <= i,
    ensures
        find_reading_from(entries, r, i) == -1 || (i <= find_reading_from(entries, r, i)
            < entries.len() && entries[find_reading_from(entries, r, i)].reading == r),
    decreases entries.len() - i,
{
    if i >= entries.len() {
    } else if entries[i].reading == r {
    } else {
        lemma_find_reading_from(entries, r, i + 1);
    }
}

pub proof fn lemma_find_variant_from(vs: Seq<VariantAccView>, w: Seq<char>, i: int)
    requires
        0 <= i,
    ensures
        find_variant_from(vs, w, i) == -1 || (i <= find_variant_from(vs, w, i) < vs.len()
            && vs[find_variant_from(vs, w, i)].word == w),
    decreases vs.len() - i,
{
    if i >= vs.len() {
    } else if vs[i].word == w {
    } else {
        lemma_find_variant_from(vs, w, i + 1);
    }
}

/// After `n` tokens no variant's count can exceed `n`: each token
/// raises at most one count, by one.
pub proof fn lemma_counts_bounded(tokens: Seq<TokenView>, bounds: Seq<int>)
    ensures
        counts_bounded(aggregate(tokens, bounds), tokens.len() as int),
    decreases tokens.len(),
{
    if tokens.len() > 0 {
        lemma_counts_bounded(tokens.drop_last(), bounds);
        let pre = aggregate(tokens.drop_last(), bounds);
        let t = tokens.last();
        let cur = aggregate(tokens, bounds);
        let m = tokens.len() as int;
        if keep_feature(t.feature) {
            let r = reading_of(t.feature);
            let j = find_reading(pre, r);
            lemma_find_reading_from(pre, r, 0);
            if j == -1 {
                assert forall|a: int, b: int|
                    0 <= a < cur.len() && 0 <= b < cur[a].variants.len() implies (#[trigger] cur[a]
                    .variants[b]).count <= m by {
                    if a < pre.len() {
                        assert(pre[a].variants[b].count <= m - 1);
                    }
                }
            } else {
                let k = find_variant(pre[j].variants, t.surface);
                lemma_find_variant_from(pre[j].variants, t.surface, 0);
                assert forall|a: int, b: int|
                    0 <= a < cur.len() && 0 <= b < cur[a].variants.len() implies (#[trigger] cur[a]
                    .variants[b]).count <= m by {
                    if a != j {
                        assert(cur[a] == pre[a]);
                        assert(pre[a].variants[b].count <= m - 1);
                    } else {
                        if k == -1 {
                            if b < pre[j].variants.len() {
                                assert(pre[j].variants[b].count <= m - 1);
                            }
                        } else {
                            if b != k {
                                assert(cur[j].variants[b] == pre[j].variants[b]);
                                assert(pre[j].variants[b].count <= m - 1);
                            } else {
                                assert(pre[j].variants[k].count <= m - 1);
                            }
                        }
                    }
                }
            }
        } else {
            assert forall|a: int, b: int|
                0 <= a < cur.len() && 0 <= b < cur[a].variants.len() implies (#[trigger] cur[a]
                .variants[b]).count <= m by {
                assert(pre[a].variants[b].count <= m - 1);
            }
        }
    }
}

/// Finds the entry for reading `r`, as `find_reading` names it.
fn find_entry(entries: &Vec<ReadingEntry>, r: &str) -> (res: Option<usize>)
    ensures
        match res {
            Some(j) => j < entries@.len() && find_reading(entry_views(entries@), r@) == j as int,
            None => find_reading(entry_views(entries@), r@) == -1,
        },
{
    let n = entries.len();
    let ghost ev = entry_views(entries@);
    let mut j: usize = 0;
    while j < n
        invariant
            n == entries@.len(),
            j <= n,
            ev == entry_views(entries@),
            ev.len() == n,
            find_reading(ev, r@) == find_reading_from(ev, r@, j as int),
        decreases n - j,
    {
        if crate::chars::str_eq(entries[j].reading.as_str(), r) {
            proof {
                assert(ev[j as int] == entries@[j as int]@);
            }
            return Some(j);
        }
        proof {
            assert(ev[j as int] == entries@[j as int]@);
        }
        j += 1;
    }
    None
}

/// Finds the variant for surface form `w`, as `find_variant` names it.
fn find_variant_entry(vs: &Vec<VariantAcc>, w: &str) -> (res: Option<usize>)
    ensures
        match res {
            Some(k) => k < vs@.len() && find_variant(
                variant_acc_views(vs@),
                w@,
            ) == k as int,
            None => find_variant(variant_acc_views(vs@), w@) == -1,
        },
{
    let n = vs.len();
    let ghost vv = variant_acc_views(vs@);
    let mut k: usize = 0;
    while k < n
        invariant
            n == vs@.len(),
            k <= n,
            vv == variant_acc_views(vs@),
            vv.len() == n,
            find_variant(vv, w@) == find_variant_from(vv, w@, k as int),
        decreases n - k,
    {
        if crate::chars::str_eq(vs[k].word.as_str(), w) {
            proof {
                assert(vv[k as int] == vs@[k as int]@);
            }
            return Some(k);
        }
        proof {
            assert(vv[k as int] == vs@[k as int]@);
        }
        k += 1;
    }
    None
}

/// Inserts sentence index `idx` into the ascending index set `sents`.
fn insert_sent_exec(sents: &mut Vec<usize>, idx: usize)
    ensures
        ints_of(final(sents)@) == insert_sent(ints_of(old(sents)@), idx as int),
{
    let ghost sv = ints_of(sents@);
    let n = sents.len();
    let mut p: usize = 0;
    while p < n && sents[p] < idx
        invariant
            n == sents@.len(),
            p <= n,
            sv == ints_of(sents@),
            sv.len() == n,
            sent_pos_from(sv, idx as int, 0) == sent_pos_from(sv, idx as int, p as int),
        decreases n - p,
    {
        p += 1;
    }
    proof {
        assert(sent_pos_from(sv, idx as int, p as int) == p as int);
    }
    if p < n && sents[p] == idx {
        proof {
            assert(insert_sent(sv, idx as int) =~= sv);
        }
    } else {
        sents.insert(p, idx);
        proof {
            assert(ints_of(sents@) =~= sv.insert(p as int, idx as int));
        }
    }
}

/// Runs the whole token stream through the aggregator: each surviving
/// token is located in its sentence and counted under its reading and
/// surface form, exactly as `aggregate` states.
pub fn aggregate_tokens(tokens: &Vec<Token>, bounds: &Vec<usize>) -> (r: Vec<ReadingEntry>)
    ensures
        entry_views(r@) == aggregate(token_views(tokens@), ints_of(bounds@)),
        counts_bounded(entry_views(r@), tokens@.len() as int),
{
    let n = tokens.len();
    let ghost tv = token_views(tokens@);
    let ghost bv = ints_of(bounds@);
    let mut entries: Vec<ReadingEntry> = Vec::new();
    let mut i: usize = 0;
    while i < n
        invariant
            n == tokens@.len(),
            i <= n,
            tv == token_views(tokens@),
            bv == ints_of(bounds@),
            tv.len() == n,
            entry_views(entries@) == aggregate(tv.take(i as int), bv),
        decreases n - i,
    {
        let ghost pre = entry_views(entries@);
        proof {
            assert(tv.take(i as int + 1).drop_last() =~= tv.take(i as int));
            assert(tv.take(i as int + 1).last() == tv[i as int]);
            assert(tv[i as int] == tokens@[i as int]@);
        }
        let t = &tokens[i];
        if keep_token(t.feature.as_str()) {
            let reading = token_reading(t.feature.as_str());
            let idx = locate_sentence(bounds, t.char_start);
            match find_entry(&entries, reading.as_str()) {
                None => {
                    let entry = ReadingEntry {
                        reading,
                        variants: vec![
                            VariantAcc {
                                word: t.surface.clone(),
                                count: 1,
                                feature: t.feature.clone(),
                            },
                        ],
                        sents: vec![idx],
                    };
                    proof {
                        assert(entry@.variants =~= seq![
                            (VariantAccView {
                                word: tv[i as int].surface,
                                count: 1,
                                feature: tv[i as int].feature,
                            }),
                        ]);
                        assert(entry@.sents =~= seq![idx as int]);
                    }
                    entries.push(entry);
                    proof {
                        assert(entry_views(entries@) =~= agg_token(pre, bv, tv[i as int]));
                    }
                },
                Some(j) => {
                    let mut e = entries.remove(j);
                    let ghost eview = e@;
                    proof {
                        assert(pre[j as int] == eview);
                        lemma_counts_bounded(tv.take(i as int), bv);
                        assert(tv.take(i as int).len() == i as int);
                    }
                    match find_variant_entry(&e.variants, t.surface.as_str()) {
                        None => {
                            e.variants.push(
                                VariantAcc {
                                    word: t.surface.clone(),
                                    count: 1,
                                    feature: t.feature.clone(),
                                },
                            );
                            proof {
                                assert(e@.variants =~= step_variants(
                                    eview.variants,
                                    tv[i as int],
                                ));
                            }
                        },
                        Some(k) => {
                            let mut v = e.variants.remove(k);
                            proof {
                                assert(eview.variants[k as int] == v@);
                                assert(eview.variants[k as int].count <= i as int);
                            }
                            v.count = v.count + 1;
                            e.variants.insert(k, v);
                            proof {
                                assert(e@.variants =~= step_variants(
                                    eview.variants,
                                    tv[i as int],
                                ));
                            }
                        },
                    }
                    insert_sent_exec(&mut e.sents, idx);
                    proof {
                        assert(e@ == agg_token(pre, bv, tv[i as int])[j as int]);
                    }
                    entries.insert(j, e);
                    proof {
                        assert(entry_views(entries@) =~= agg_token(pre, bv, tv[i as int]));
                    }
                },
            }
        }
        i += 1;
        proof {
            assert(entry_views(entries@) == aggregate(tv.take(i as int), bv));
        }
    }
    proof {
        assert(tv.take(n as int) =~= tv);
        lemma_counts_bounded(tv, bv);
    }
    entries
}

} // verus!
