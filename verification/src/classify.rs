use vstd::prelude::*;
use vstd::string::StrSliceExecFns;
use crate::chars::str_eq;

verus! {

/// The comma-separated fields of a feature string, scanning from
/// position `i` with the current field starting at `start`. Splitting
/// always yields one more field than there are commas, so even the
/// empty string has one (empty) field.
pub open spec fn fields_from(s: Seq<char>, start: int, i: int) -> Seq<Seq<char>>
    decreases s.len() - i,
{
    if i >= s.len() {
        seq![s.subrange(start, s.len() as int)]
    } else if s[i] == ',' {
        seq![s.subrange(start, i)] + fields_from(s, i + 1, i + 1)
    } else {
        fields_from(s, start, i + 1)
    }
}

pub open spec fn feature_fields(s: Seq<char>) -> Seq<Seq<char>> {
    fields_from(s, 0, 0)
}

pub proof fn lemma_fields_from_len(s: Seq<char>, start: int, i: int)
    ensures
        fields_from(s, start, i).len() >= 1,
    decreases s.len() - i,
{
    if i >= s.len() {
    } else if s[i] == ',' {
        lemma_fields_from_len(s, i + 1, i + 1);
    } else {
        lemma_fields_from_len(s, start, i + 1);
    }
}

/// Field `k` of the feature string, or the empty string where the
/// tuple is too short.
pub open spec fn field_or_empty(s: Seq<char>, k: int) -> Seq<char> {
    if 0 <= k < feature_fields(s).len() {
        feature_fields(s)[k]
    } else {
        Seq::empty()
    }
}

/// The marker the tokenizer writes for a field it could not resolve.
pub open spec fn wildcard() -> Seq<char> {
    "*"@
}

/// Whether field `k` carries a resolved value: the tuple is long
/// enough and the field is not the wildcard marker.
pub open spec fn field_resolved(s: Seq<char>, k: int) -> bool {
    0 <= k < feature_fields(s).len() && feature_fields(s)[k] != wildcard()
}

/// The phonetic reading of a token, the key under which its spelling
/// variants are grouped.
pub open spec fn reading_of(s: Seq<char>) -> Seq<char> {
    field_or_empty(s, 7)
}

/// Part-of-speech labels whose tokens are never grouped: particles,
/// auxiliary verbs, conjunctions, prenominal adjectives and symbols.
pub open spec fn excluded_pos(p: Seq<char>) -> bool {
    p == "助詞"@ || p == "助動詞"@ || p == "接続詞"@ || p == "連体詞"@ || p == "記号"@
}

/// A token takes part in grouping exactly when its base form (field 6)
/// and reading (field 7) are resolved and its major part of speech
/// (field 0) is not excluded.
pub open spec fn keep_feature(s: Seq<char>) -> bool {
    field_resolved(s, 6) && field_resolved(s, 7) && !excluded_pos(field_or_empty(s, 0))
}

/// The display category a feature tuple is filed under: "人名" (person
/// name) or "固有名詞" (proper noun) for the matching noun subtypes,
/// otherwise the major part of speech itself.
pub open spec fn display_category_spec(feature: Seq<char>) -> Seq<char> {
    let major = field_or_empty(feature, 0);
    if major == "名詞"@ && field_or_empty(feature, 1) == "固有名詞"@ {
        if field_or_empty(feature, 2) == "人名"@ {
            "人名"@
        } else {
            "固有名詞"@
        }
    } else {
        major
    }
}

/// Splits a feature string at every comma into its fields.
pub fn split_commas(s: &str) -> (r: Vec<String>)
    ensures
        r@.len() == feature_fields(s@).len(),
        forall|k: int| 0 <= k < r@.len() ==> (#[trigger] r@[k])@ == feature_fields(s@)[k],
        r@.len() >= 1,
{
    let n = s.unicode_len();
    let mut fields: Vec<String> = Vec::new();
    let mut start: usize = 0;
    let mut i: usize = 0;
    let ghost mut done: Seq<Seq<char>> = Seq::empty();
    while i < n
        invariant
            n == s@.len(),
            start <= i <= n,
            feature_fields(s@) == done + fields_from(s@, start as int, i as int),
            fields@.len() == done.len(),
            forall|k: int| 0 <= k < fields@.len() ==> (#[trigger] fields@[k])@ == done[k],
        decreases n - i,
    {
        let c = s.get_char(i);
        if c == ',' {
            let f = s.substring_char(start, i);
            proof {
                assert(fields_from(s@, start as int, i as int) == seq![
                    s@.subrange(start as int, i as int),
                ] + fields_from(s@, i as int + 1, i as int + 1));
                assert(done + fields_from(s@, start as int, i as int) =~= done.push(
                    s@.subrange(start as int, i as int),
                ) + fields_from(s@, i as int + 1, i as int + 1));
            }
            fields.push(f.to_owned());
            proof {
                done = done.push(s@.subrange(start as int, i as int));
            }
            start = i + 1;
        }
        i += 1;
    }
    let f = s.substring_char(start, n);
    proof {
        assert(fields_from(s@, start as int, n as int) == seq![
            s@.subrange(start as int, n as int),
        ]);
        assert(feature_fields(s@) =~= done.push(s@.subrange(start as int, n as int)));
    }
    fields.push(f.to_owned());
    fields
}

/// Decides whether a token with this feature string survives filtering.
pub fn keep_token(feature: &str) -> (r: bool)
    ensures
        r == keep_feature(feature@),
{
    let fields = split_commas(feature);
    let resolved6 = fields.len() > 6 && !str_eq(fields[6].as_str(), "*");
    let resolved7 = fields.len() > 7 && !str_eq(fields[7].as_str(), "*");
    if !(resolved6 && resolved7) {
        return false;
    }
    let major = fields[0].as_str();
    let excluded = str_eq(major, "助詞") || str_eq(major, "助動詞") || str_eq(major, "接続詞")
        || str_eq(major, "連体詞") || str_eq(major, "記号");
    !excluded
}

/// The reading field of a feature string, or the empty string where
/// the tuple has no reading field.
pub fn token_reading(feature: &str) -> (r: String)
    ensures
        r@ == reading_of(feature@),
{
    let fields = split_commas(feature);
    if fields.len() > 7 {
        let r = fields[7].clone();
        r
    } else {
        String::new()
    }
}

/// Derives the display category from a raw feature string: person
/// names and proper nouns get their own labels, every other token is
/// filed under its major part of speech.
pub fn get_display_category(feature_str: &str) -> (r: String)
    ensures
        r@ == display_category_spec(feature_str@),
{
    let fields = split_commas(feature_str);
    let is_noun = str_eq(fields[0].as_str(), "名詞");
    if is_noun && fields.len() > 1 && str_eq(fields[1].as_str(), "固有名詞") {
        if fields.len() > 2 && str_eq(fields[2].as_str(), "人名") {
            return "人名".to_owned();
        }
        proof {
            if fields@.len() <= 2 {
                reveal_strlit("人名");
                assert(field_or_empty(feature_str@, 2) == Seq::<char>::empty());
                assert("人名"@.len() == 2);
            }
        }
        return "固有名詞".to_owned();
    }
    proof {
        if fields@.len() <= 1 {
            reveal_strlit("固有名詞");
            assert(field_or_empty(feature_str@, 1) == Seq::<char>::empty());
            assert("固有名詞"@.len() == 4);
        }
    }
    let r = fields[0].clone();
    r
}

} // verus!
