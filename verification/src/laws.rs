//! Laws of the grammar, proved from its definitions.

use vstd::prelude::*;
use crate::error::JsonErrorView;
use crate::grammar::{is_whitespace, lex_from, next_token};
use crate::lexer::lex;
use crate::parse_text;
use crate::syntax::{
    budget_of, collect_members, insert_member, parse_elements_at, parse_members_at, parse_tokens,
    parse_value_at, Member,
};
use crate::token::TokenView;
use crate::value::{key_index, keys_unique, JsonModel};

verus! {

/// `key_index` returns the first index from `from` that holds `key`.
pub proof fn lemma_key_index_first(ms: Seq<Member>, key: Seq<char>, from: int)
    requires
        0 <= from <= ms.len(),
    ensures
        from <= key_index(ms, key, from) <= ms.len(),
        key_index(ms, key, from) < ms.len() ==> ms[key_index(ms, key, from)].0 == key,
        forall|j: int| from <= j < key_index(ms, key, from) ==> (#[trigger] ms[j]).0 != key,
    decreases ms.len() - from,
{
    if from < ms.len() && ms[from].0 != key {
        lemma_key_index_first(ms, key, from + 1);
    }
}

/// The first index from `from` that holds `key` is what `key_index` returns.
pub proof fn lemma_key_index_is(ms: Seq<Member>, key: Seq<char>, from: int, k: int)
    requires
        0 <= from <= k <= ms.len(),
        k < ms.len() ==> ms[k].0 == key,
        forall|j: int| from <= j < k ==> (#[trigger] ms[j]).0 != key,
    ensures
        key_index(ms, key, from) == k,
    decreases k - from,
{
    if from < k {
        lemma_key_index_is(ms, key, from + 1, k);
    }
}

/// Setting a key keeps the keys unique, and the key then maps to the new value.
pub proof fn lemma_insert_member(ms: Seq<Member>, key: Seq<char>, value: JsonModel)
    requires
        keys_unique(ms),
    ensures
        keys_unique(insert_member(ms, key, value)),
        key_index(insert_member(ms, key, value), key, 0) == key_index(ms, key, 0),
        key_index(ms, key, 0) < insert_member(ms, key, value).len(),
        insert_member(ms, key, value)[key_index(ms, key, 0)] == (key, value),
{
    lemma_key_index_first(ms, key, 0);
    let k = key_index(ms, key, 0);
    let after = insert_member(ms, key, value);
    lemma_key_index_is(after, key, 0, k);
}

/// Setting a key leaves every other key where it was, with its value.
pub proof fn lemma_insert_member_other(
    ms: Seq<Member>,
    key: Seq<char>,
    value: JsonModel,
    other: Seq<char>,
)
    requires
        other != key,
    ensures
        key_index(ms, other, 0) < ms.len() ==> key_index(insert_member(ms, key, value), other, 0)
            == key_index(ms, other, 0) && insert_member(ms, key, value)[key_index(ms, other, 0)]
            == ms[key_index(ms, other, 0)],
{
    lemma_key_index_first(ms, key, 0);
    lemma_key_index_first(ms, other, 0);
    let k = key_index(ms, other, 0);
    if k < ms.len() {
        lemma_key_index_is(insert_member(ms, key, value), other, 0, k);
    }
}

/// The members of an object have unique keys, however often a key is written.
pub proof fn law_collected_keys_unique(raw: Seq<Member>)
    ensures
        keys_unique(collect_members(raw)),
    decreases raw.len(),
{
    if raw.len() > 0 {
        law_collected_keys_unique(raw.drop_last());
        lemma_insert_member(collect_members(raw.drop_last()), raw.last().0, raw.last().1);
    }
}

/// Of the members written with one key, the last one wins: if no member after
/// `raw[i]` has its key, the object maps that key to the value of `raw[i]`.
pub proof fn law_last_member_wins(raw: Seq<Member>, i: int)
    requires
        0 <= i < raw.len(),
        forall|j: int| i < j < raw.len() ==> (#[trigger] raw[j]).0 != raw[i].0,
    ensures
        key_index(collect_members(raw), raw[i].0, 0) < collect_members(raw).len(),
        collect_members(raw)[key_index(collect_members(raw), raw[i].0, 0)] == raw[i],
    decreases raw.len(),
{
    let before = collect_members(raw.drop_last());
    law_collected_keys_unique(raw.drop_last());
    assert(collect_members(raw) == insert_member(before, raw.last().0, raw.last().1));
    if i == raw.len() - 1 {
        lemma_insert_member(before, raw.last().0, raw.last().1);
        assert(raw[i] == (raw.last().0, raw.last().1));
    } else {
        assert(raw.drop_last()[i] == raw[i]);
        assert forall|j: int| i < j < raw.drop_last().len() implies (#[trigger] raw.drop_last()[j]).0
            != raw.drop_last()[i].0 by {
            assert(raw.drop_last()[j] == raw[j]);
        }
        law_last_member_wins(raw.drop_last(), i);
        assert(raw[raw.len() - 1].0 != raw[i].0);
        lemma_insert_member_other(before, raw.last().0, raw.last().1, raw[i].0);
        lemma_key_index_first(before, raw.last().0, 0);
    }
}

/// A value ends after its first token and inside the token sequence, so the
/// cursor only moves forward.
pub proof fn law_value_advances(t: Seq<TokenView>, i: int, budget: nat)
    ensures
        parse_value_at(t, i, budget) is Ok ==> i < parse_value_at(t, i, budget)->Ok_0.1 <= t.len(),
    decreases t.len() - i, 0int,
{
    if 0 <= i < t.len() && budget > 0 {
        match t[i] {
            TokenView::LeftBrace => {
                if !(i + 1 < t.len() && t[i + 1] == TokenView::RightBrace) {
                    lemma_members_advance(t, i + 1, (budget - 1) as nat);
                }
            },
            TokenView::LeftBracket => {
                if !(i + 1 < t.len() && t[i + 1] == TokenView::RightBracket) {
                    lemma_elements_advance(t, i + 1, (budget - 1) as nat);
                }
            },
            _ => {},
        }
    }
}

proof fn lemma_elements_advance(t: Seq<TokenView>, i: int, budget: nat)
    ensures
        parse_elements_at(t, i, budget) is Ok ==> i < parse_elements_at(t, i, budget)->Ok_0.1
            <= t.len(),
    decreases t.len() - i, 1int,
{
    if let Ok((v, j)) = parse_value_at(t, i, budget) {
        if i < j < t.len() && t[j] == TokenView::Comma {
            lemma_elements_advance(t, j + 1, budget);
        }
    }
}

proof fn lemma_members_advance(t: Seq<TokenView>, i: int, budget: nat)
    ensures
        parse_members_at(t, i, budget) is Ok ==> i < parse_members_at(t, i, budget)->Ok_0.1
            <= t.len(),
    decreases t.len() - i, 1int,
{
    if 0 <= i && i + 1 < t.len() && t[i] is String && t[i + 1] == TokenView::Colon {
        if let Ok((v, j)) = parse_value_at(t, i + 2, budget) {
            if i < j < t.len() && t[j] == TokenView::Comma {
                lemma_members_advance(t, j + 1, budget);
            }
        }
    }
}

/// Collecting members keeps what holds of every value: that it is well formed
/// and that it fits a nesting budget.
pub proof fn lemma_collected_well_formed(raw: Seq<Member>, budget: nat)
    requires
        forall|k: int| 0 <= k < raw.len() ==> (#[trigger] raw[k]).1.well_formed(),
        forall|k: int| 0 <= k < raw.len() ==> (#[trigger] raw[k]).1.fits(budget),
    ensures
        JsonModel::Object(collect_members(raw)).well_formed(),
        JsonModel::Object(collect_members(raw)).fits(budget + 1),
    decreases raw.len(),
{
    law_collected_keys_unique(raw);
    if raw.len() > 0 {
        assert forall|k: int| 0 <= k < raw.drop_last().len() implies (#[trigger] raw.drop_last()[k]).1.well_formed()
            && raw.drop_last()[k].1.fits(budget) by {
            assert(raw.drop_last()[k] == raw[k]);
        }
        lemma_collected_well_formed(raw.drop_last(), budget);
        let before = collect_members(raw.drop_last());
        lemma_key_index_first(before, raw.last().0, 0);
        assert(raw.last().1.well_formed() && raw.last().1.fits(budget));
        let after = collect_members(raw);
        assert forall|k: int| 0 <= k < after.len() implies (#[trigger] after[k]).1.well_formed()
            && after[k].1.fits(budget) by {
            if k < before.len() && k != key_index(before, raw.last().0, 0) {
                assert(after[k] == before[k]);
            }
        }
    }
}

/// Every value that the grammar yields is well formed, that is no object in
/// it has two members with the same key, and is nested no deeper than the
/// budget it was parsed with.
pub proof fn law_parsed_value_well_formed(t: Seq<TokenView>, i: int, budget: nat)
    ensures
        parse_value_at(t, i, budget) is Ok ==> parse_value_at(t, i, budget)->Ok_0.0.well_formed()
            && parse_value_at(t, i, budget)->Ok_0.0.fits(budget),
    decreases t.len() - i, 0int,
{
    if 0 <= i < t.len() && budget > 0 {
        match t[i] {
            TokenView::LeftBrace => {
                if !(i + 1 < t.len() && t[i + 1] == TokenView::RightBrace) {
                    lemma_parsed_members_well_formed(t, i + 1, (budget - 1) as nat);
                    let r = parse_members_at(t, i + 1, (budget - 1) as nat);
                    if r is Ok {
                        lemma_collected_well_formed(r->Ok_0.0, (budget - 1) as nat);
                    }
                }
            },
            TokenView::LeftBracket => {
                if !(i + 1 < t.len() && t[i + 1] == TokenView::RightBracket) {
                    lemma_parsed_elements_well_formed(t, i + 1, (budget - 1) as nat);
                }
            },
            _ => {},
        }
    }
}

proof fn lemma_parsed_elements_well_formed(t: Seq<TokenView>, i: int, budget: nat)
    ensures
        parse_elements_at(t, i, budget) is Ok ==> forall|k: int|
            0 <= k < parse_elements_at(t, i, budget)->Ok_0.0.len() ==> (#[trigger] parse_elements_at(
                t,
                i,
                budget,
            )->Ok_0.0[k]).well_formed() && parse_elements_at(t, i, budget)->Ok_0.0[k].fits(budget),
    decreases t.len() - i, 1int,
{
    law_parsed_value_well_formed(t, i, budget);
    if let Ok((v, j)) = parse_value_at(t, i, budget) {
        if i < j < t.len() && t[j] == TokenView::Comma {
            lemma_parsed_elements_well_formed(t, j + 1, budget);
        }
    }
}

proof fn lemma_parsed_members_well_formed(t: Seq<TokenView>, i: int, budget: nat)
    ensures
        parse_members_at(t, i, budget) is Ok ==> forall|k: int|
            0 <= k < parse_members_at(t, i, budget)->Ok_0.0.len() ==> (#[trigger] parse_members_at(
                t,
                i,
                budget,
            )->Ok_0.0[k]).1.well_formed() && parse_members_at(t, i, budget)->Ok_0.0[k].1.fits(
                budget,
            ),
    decreases t.len() - i, 1int,
{
    if 0 <= i && i + 1 < t.len() && t[i] is String && t[i + 1] == TokenView::Colon {
        law_parsed_value_well_formed(t, i + 2, budget);
        if let Ok((v, j)) = parse_value_at(t, i + 2, budget) {
            if i < j < t.len() && t[j] == TokenView::Comma {
                lemma_parsed_members_well_formed(t, j + 1, budget);
            }
        }
    }
}

/// Tokens that are left after a document are `TrailingContent`, whatever
/// they are.
pub proof fn law_trailing_content(t: Seq<TokenView>, limit: usize)
    requires
        parse_value_at(t, 0, budget_of(limit)) is Ok,
        parse_value_at(t, 0, budget_of(limit))->Ok_0.1 < t.len(),
    ensures
        parse_tokens(t, limit) == Err::<JsonModel, JsonErrorView>(JsonErrorView::TrailingContent),
{
}

proof fn lemma_blank_has_no_tokens(s: Seq<char>, i: int)
    requires
        forall|k: int| 0 <= k < s.len() ==> is_whitespace(#[trigger] s[k]),
    ensures
        lex_from(s, i) == Ok::<Seq<TokenView>, (crate::token::LexErrorKind, int)>(Seq::empty()),
    decreases s.len() - i,
{
    if 0 <= i < s.len() {
        lemma_blank_has_no_tokens(s, i + 1);
    }
}

/// A text that holds nothing but whitespace, the empty text among them, is no
/// document: parsing it fails with `UnexpectedEof`.
pub proof fn law_blank_text(s: Seq<char>, limit: usize)
    requires
        forall|k: int| 0 <= k < s.len() ==> is_whitespace(#[trigger] s[k]),
    ensures
        parse_text(s, limit) == Err::<JsonModel, JsonErrorView>(JsonErrorView::UnexpectedEof),
{
    lemma_blank_has_no_tokens(s, 0);
}

/// The tokens of `depth` arrays nested in one another: that many opening
/// brackets followed by as many closing ones.
pub open spec fn nested_array_tokens(depth: nat) -> Seq<TokenView> {
    Seq::new(
        2 * depth,
        |i: int| if i < depth { TokenView::LeftBracket } else { TokenView::RightBracket },
    )
}

/// The text of `depth` arrays nested in one another.
pub open spec fn nested_array_text(depth: nat) -> Seq<char> {
    Seq::new(2 * depth, |i: int| if i < depth { '[' } else { ']' })
}

/// The value of `depth` arrays nested in one another, of which the innermost
/// is empty.
pub open spec fn nested_array_value(depth: nat) -> JsonModel
    decreases depth,
{
    if depth <= 1 {
        JsonModel::Array(Seq::empty())
    } else {
        JsonModel::Array(seq![nested_array_value((depth - 1) as nat)])
    }
}

proof fn lemma_nested_array_at(depth: nat, i: int, budget: nat)
    requires
        0 <= i < depth,
    ensures
        parse_value_at(nested_array_tokens(depth), i, budget) == (if budget >= depth - i {
            Ok::<(JsonModel, int), JsonErrorView>(
                (nested_array_value((depth - i) as nat), 2 * depth - i),
            )
        } else {
            Err::<(JsonModel, int), JsonErrorView>(JsonErrorView::NestingTooDeep)
        }),
    decreases depth - i,
{
    let t = nested_array_tokens(depth);
    if budget > 0 && i + 1 < depth {
        lemma_nested_array_at(depth, i + 1, (budget - 1) as nat);
        let inner = parse_value_at(t, i + 1, (budget - 1) as nat);
        if inner is Ok {
            let j = 2 * depth - i - 1;
            assert(t[j] == TokenView::RightBracket);
            assert(parse_elements_at(t, i + 1, (budget - 1) as nat) == Ok::<
                (Seq<JsonModel>, int),
                JsonErrorView,
            >((seq![inner->Ok_0.0], j + 1)));
        }
    }
}

/// Arrays nested to a depth under the limit parse, and at the limit or above
/// it they fail with `NestingTooDeep`.
pub proof fn law_nesting_depth(depth: nat, limit: usize)
    requires
        depth >= 1,
    ensures
        parse_tokens(nested_array_tokens(depth), limit) == (if depth < limit {
            Ok::<JsonModel, JsonErrorView>(nested_array_value(depth))
        } else {
            Err::<JsonModel, JsonErrorView>(JsonErrorView::NestingTooDeep)
        }),
{
    lemma_nested_array_at(depth, 0, budget_of(limit));
}

proof fn lemma_nested_array_lex(depth: nat, i: int)
    requires
        0 <= i <= 2 * depth,
    ensures
        lex_from(nested_array_text(depth), i) == Ok::<Seq<TokenView>, (crate::token::LexErrorKind, int)>(
            nested_array_tokens(depth).subrange(i, 2 * depth as int),
        ),
    decreases 2 * depth - i,
{
    let s = nested_array_text(depth);
    let t = nested_array_tokens(depth);
    if i < 2 * depth {
        lemma_nested_array_lex(depth, i + 1);
        assert(next_token(s, i) == Ok::<(TokenView, int), (crate::token::LexErrorKind, int)>(
            (t[i], i + 1),
        ));
        assert(seq![t[i]] + t.subrange(i + 1, 2 * depth as int) =~= t.subrange(
            i,
            2 * depth as int,
        ));
    } else {
        assert(t.subrange(i, 2 * depth as int) =~= Seq::<TokenView>::empty());
    }
}

/// The text of arrays nested to a depth under the limit parses, and at the
/// limit or above it parsing fails with `NestingTooDeep`.
pub proof fn law_nesting_depth_of_text(depth: nat, limit: usize)
    requires
        depth >= 1,
    ensures
        parse_text(nested_array_text(depth), limit) == (if depth < limit {
            Ok::<JsonModel, JsonErrorView>(nested_array_value(depth))
        } else {
            Err::<JsonModel, JsonErrorView>(JsonErrorView::NestingTooDeep)
        }),
{
    lemma_nested_array_lex(depth, 0);
    let t = nested_array_tokens(depth);
    assert(t.subrange(0, 2 * depth as int) =~= t);
    law_nesting_depth(depth, limit);
}

} // verus!
