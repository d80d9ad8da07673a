use vstd::prelude::*;
use crate::aggregate::{Token, TokenView, aggregate, aggregate_tokens, entry_views, token_views};
use crate::builder::{
    AnalyzedData, AnalyzedView, build_result, grouped_of_entries, sentence_map_of_entries,
    sum_counts,
};
use crate::chars::ints_of;
use crate::laws::{lemma_aggregate_wf, lemma_count_matching_le};
use crate::segment::{sentence_bounds, sentence_views, split_sentences};

verus! {

/// What one analysis returns, as a function of the text and the token
/// stream the tokenizer produced for it.
pub open spec fn analyze_spec(text: Seq<char>, tokens: Seq<TokenView>) -> AnalyzedView {
    let entries = aggregate(tokens, sentence_bounds(text));
    AnalyzedView {
        grouped_tokens: grouped_of_entries(entries),
        sentences: sentence_views(text),
        sentence_map: sentence_map_of_entries(entries),
    }
}

/// Analyzes `text` against the given token stream: segments the text,
/// filters, locates and aggregates the tokens, and builds the fully
/// sorted result.
pub fn analyze_tokens(text: &str, tokens: &Vec<Token>) -> (r: AnalyzedData)
    ensures
        r@ == analyze_spec(text@, token_views(tokens@)),
{
    let (sentences, bounds) = split_sentences(text);
    let entries = aggregate_tokens(tokens, &bounds);
    let n = tokens.len();
    proof {
        let tv = token_views(tokens@);
        let bv = ints_of(bounds@);
        lemma_aggregate_wf(tv, bv);
        let agg = aggregate(tv, bv);
        assert(entry_views(entries@) == agg);
        assert forall|j: int| 0 <= j < agg.len() implies sum_counts(
            (#[trigger] agg[j]).variants,
        ) <= usize::MAX by {
            lemma_count_matching_le(tv, agg[j].reading);
            assert(tv.len() == n);
        }
    }
    let r = build_result(sentences, &entries);
    proof {
        assert(r@ == analyze_spec(text@, token_views(tokens@)));
    }
    r
}

#[verifier::external_type_specification]
#[verifier::external_body]
pub struct ExTokenizer(vibrato::Tokenizer);

/// Relies on vibrato's `Tokenizer::new_worker`, `Worker::reset_sentence`,
/// `Worker::tokenize` and `Worker::token_iter`: the tokenizer covers the
/// text with tokens, and each token's surface is the text's characters
/// at the token's reported character range.
#[verifier::external_body]
fn tokenize_with(tokenizer: &vibrato::Tokenizer, text: &str) -> (r: Vec<Token>)
    ensures
        forall|k: int|
            0 <= k < r@.len() ==> {
                let t = (#[trigger] r@[k])@;
                &&& t.char_start + t.surface.len() <= text@.len()
                &&& t.surface == text@.subrange(t.char_start, t.char_start + t.surface.len())
            },
{
    let mut worker = tokenizer.new_worker();
    worker.reset_sentence(text);
    worker.tokenize();
    let mut out = Vec::new();
    for t in worker.token_iter() {
        out.push(
            Token {
                surface: t.surface().to_string(),
                feature: t.feature().to_string(),
                char_start: t.range_char().start,
            },
        );
    }
    out
}

/// The public analysis operation: tokenizes `text` with the external
/// tokenizer and aggregates the result. Whatever token stream the
/// tokenizer produced, the result is the analysis of that stream; the
/// sentence list depends on the text alone.
pub fn analyze_text(tokenizer: &vibrato::Tokenizer, text: &str) -> (r: AnalyzedData)
    ensures
        r@.sentences == sentence_views(text@),
        exists|toks: Seq<TokenView>| r@ == analyze_spec(text@, toks),
{
    let tokens = tokenize_with(tokenizer, text);
    let r = analyze_tokens(text, &tokens);
    proof {
        assert(r@ == analyze_spec(text@, token_views(tokens@)));
    }
    r
}

} // verus!
