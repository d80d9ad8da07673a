use vstd::prelude::*;
use vstd::string::StrSliceExecFns;
use crate::chars::{
    all_space, all_space_range, is_terminal, is_terminal_char, newline_count,
    lemma_newline_count_push, lemma_newline_count_le, ints_of,
};

verus! {

/// One sentence of the analyzed text, with the 1-based number of the
/// source line on which it starts.
pub struct Sentence {
    pub text: String,
    pub line_num: usize,
}

pub struct SentenceView {
    pub text: Seq<char>,
    pub line_num: int,
}

impl View for Sentence {
    type V = SentenceView;

    open spec fn view(&self) -> SentenceView {
        SentenceView { text: self.text@, line_num: self.line_num as int }
    }
}

pub open spec fn sentence_seq_views(ss: Seq<Sentence>) -> Seq<SentenceView> {
    ss.map_values(|s: Sentence| s@)
}

/// The candidate sentence spans of `text` (half-open character ranges),
/// scanning from position `i` with the current span starting at `start`:
/// every terminal marker closes a span that includes the marker, and a
/// trailing remainder forms one last span.
pub open spec fn spans_from(text: Seq<char>, start: int, i: int) -> Seq<(int, int)>
    decreases text.len() - i,
{
    if i >= text.len() {
        if start < text.len() {
            seq![(start, text.len() as int)]
        } else {
            Seq::empty()
        }
    } else if is_terminal_char(text[i]) {
        seq![(start, i + 1)] + spans_from(text, i + 1, i + 1)
    } else {
        spans_from(text, start, i + 1)
    }
}

pub open spec fn sentence_spans(text: Seq<char>) -> Seq<(int, int)> {
    spans_from(text, 0, 0)
}

/// The spans that survive segmentation: those whose content is not all
/// white space.
pub open spec fn kept_spans(text: Seq<char>, spans: Seq<(int, int)>) -> Seq<(int, int)>
    decreases spans.len(),
{
    if spans.len() == 0 {
        Seq::empty()
    } else {
        let rest = kept_spans(text, spans.drop_last());
        let sp = spans.last();
        if all_space(text.subrange(sp.0, sp.1)) {
            rest
        } else {
            rest.push(sp)
        }
    }
}

/// The sentence a kept span denotes: its text, and 1 + the number of
/// newlines strictly before its start.
pub open spec fn span_view(text: Seq<char>, sp: (int, int)) -> SentenceView {
    SentenceView {
        text: text.subrange(sp.0, sp.1),
        line_num: newline_count(text.subrange(0, sp.0)) as int + 1,
    }
}

/// The sentences of `text`, in order of appearance.
pub open spec fn sentence_views(text: Seq<char>) -> Seq<SentenceView> {
    kept_spans(text, sentence_spans(text)).map_values(|sp: (int, int)| span_view(text, sp))
}

/// The end boundary (in characters) of each kept sentence, ascending.
pub open spec fn sentence_bounds(text: Seq<char>) -> Seq<int> {
    kept_spans(text, sentence_spans(text)).map_values(|sp: (int, int)| sp.1)
}

/// Splits `text` into sentences at terminal markers, dropping blank
/// candidates, and returns the sentences together with the parallel
/// list of their end boundaries in characters.
pub fn split_sentences(text: &str) -> (r: (Vec<Sentence>, Vec<usize>))
    ensures
        sentence_seq_views(r.0@) == sentence_views(text@),
        ints_of(r.1@) == sentence_bounds(text@),
        r.0@.len() == r.1@.len(),
{
    let n = text.unicode_len();
    let mut sentences: Vec<Sentence> = Vec::new();
    let mut bounds: Vec<usize> = Vec::new();
    let mut start: usize = 0;
    let mut nl_start: usize = 0;
    let mut nl_i: usize = 0;
    let mut i: usize = 0;
    let ghost mut done: Seq<(int, int)> = Seq::empty();
    while i < n
        invariant
            n == text@.len(),
            start <= i <= n,
            nl_i == newline_count(text@.subrange(0, i as int)),
            nl_start == newline_count(text@.subrange(0, start as int)),
            sentence_spans(text@) == done + spans_from(text@, start as int, i as int),
            sentences@.len() == kept_spans(text@, done).len(),
            bounds@.len() == kept_spans(text@, done).len(),
            forall|k: int|
                0 <= k < sentences@.len() ==> (#[trigger] sentences@[k])@ == span_view(
                    text@,
                    kept_spans(text@, done)[k],
                ),
            forall|k: int|
                0 <= k < bounds@.len() ==> (#[trigger] bounds@[k]) as int == kept_spans(
                    text@,
                    done,
                )[k].1,
        decreases n - i,
    {
        let c = text.get_char(i);
        let is_nl = c == '\n';
        proof {
            assert(text@.subrange(0, i + 1).drop_last() =~= text@.subrange(0, i as int));
            lemma_newline_count_push(text@.subrange(0, i as int), text@[i as int]);
            assert(text@.subrange(0, i + 1) =~= text@.subrange(0, i as int).push(text@[i as int]));
            lemma_newline_count_le(text@.subrange(0, i as int));
        }
        if is_terminal(c) {
            let ghost sp = (start as int, i as int + 1);
            proof {
                assert(spans_from(text@, start as int, i as int) == seq![sp] + spans_from(
                    text@,
                    i as int + 1,
                    i as int + 1,
                ));
                assert(done + spans_from(text@, start as int, i as int) =~= done.push(sp)
                    + spans_from(text@, i as int + 1, i as int + 1));
                assert(done.push(sp).drop_last() =~= done);
            }
            if !all_space_range(text, start, i + 1) {
                let s_text = text.substring_char(start, i + 1);
                proof {
                    lemma_newline_count_le(text@.subrange(0, start as int));
                }
                let line: usize = nl_start + 1;
                let sent = Sentence { text: s_text.to_owned(), line_num: line };
                proof {
                    assert(sent@ == span_view(text@, sp));
                    assert(kept_spans(text@, done.push(sp)) == kept_spans(text@, done).push(sp));
                }
                sentences.push(sent);
                bounds.push(i + 1);
            } else {
                proof {
                    assert(kept_spans(text@, done.push(sp)) == kept_spans(text@, done));
                }
            }
            proof {
                done = done.push(sp);
            }
            start = i + 1;
            nl_i = nl_i + (if is_nl {
                1
            } else {
                0
            });
            nl_start = nl_i;
        } else {
            nl_i = nl_i + (if is_nl {
                1
            } else {
                0
            });
        }
        i += 1;
    }
    if start < n {
        proof {
            assert(spans_from(text@, start as int, n as int) =~= seq![(start as int, n as int)]);
            lemma_newline_count_le(text@.subrange(0, start as int));
        }
        let ghost sp = (start as int, n as int);
        proof {
            assert(done.push(sp).drop_last() =~= done);
        }
        if !all_space_range(text, start, n) {
            let s_text = text.substring_char(start, n);
            let line: usize = nl_start + 1;
            let sent = Sentence { text: s_text.to_owned(), line_num: line };
            proof {
                assert(sent@ == span_view(text@, sp));
                assert(kept_spans(text@, done.push(sp)) == kept_spans(text@, done).push(sp));
            }
            sentences.push(sent);
            bounds.push(n);
        } else {
            proof {
                assert(kept_spans(text@, done.push(sp)) == kept_spans(text@, done));
            }
        }
        proof {
            done = done.push(sp);
            assert(sentence_spans(text@) =~= done);
        }
    } else {
        proof {
            assert(spans_from(text@, start as int, n as int) =~= Seq::<(int, int)>::empty());
            assert(sentence_spans(text@) =~= done);
        }
    }
    proof {
        assert(sentence_seq_views(sentences@) =~= sentence_views(text@));
        assert(ints_of(bounds@) =~= sentence_bounds(text@));
    }
    (sentences, bounds)
}

} // verus!
