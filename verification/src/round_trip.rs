//! Writing a value as tokens and parsing it again.
//!
//! How a value is written is stated here for the tokens only: how strings are
//! quoted and where whitespace goes is up to the writer of the text.

use vstd::prelude::*;
use crate::error::JsonErrorView;
use crate::laws::{law_parsed_value_well_formed, lemma_key_index_is};
use crate::lexer::lex;
use crate::number::number_of;
use crate::number_writer::{law_number_reads_back, number_text};
use crate::parse_text;
use crate::syntax::{
    budget_of, collect_members, parse_elements_at, parse_members_at, parse_tokens, parse_value_at,
    Member,
};
use crate::token::{LexError, TokenView};
use crate::value::{keys_unique, JsonModel, Number};
use crate::grammar::is_number_literal;
use crate::writer::{law_tokens_read_back, numbers_valid, tokens_text};

verus! {

/// How a writer spells numbers.
pub type NumberWriter = spec_fn(Number) -> Seq<char>;

/// Whether every number reads back from its spelling as itself.
pub open spec fn faithful(write: NumberWriter) -> bool {
    forall|n: Number| #[trigger] number_of(write(n)) == Ok::<Number, JsonErrorView>(n)
}

/// The tokens of a value.
pub open spec fn value_tokens(v: JsonModel, write: NumberWriter) -> Seq<TokenView>
    decreases v, 0int,
{
    match v {
        JsonModel::Object(ms) => seq![TokenView::LeftBrace] + members_tokens(ms, write)
            + seq![TokenView::RightBrace],
        JsonModel::Array(vs) => seq![TokenView::LeftBracket] + elements_tokens(vs, write)
            + seq![TokenView::RightBracket],
        JsonModel::String(s) => seq![TokenView::String(s)],
        JsonModel::Number(n) => seq![TokenView::Number(write(n))],
        JsonModel::Boolean(b) => seq![if b { TokenView::True } else { TokenView::False }],
        JsonModel::Null => seq![TokenView::Null],
    }
}

/// The tokens of the elements of an array, with a comma between two of them.
pub open spec fn elements_tokens(vs: Seq<JsonModel>, write: NumberWriter) -> Seq<TokenView>
    decreases vs, 1int,
{
    if vs.len() == 0 {
        Seq::empty()
    } else if vs.len() == 1 {
        value_tokens(vs[0], write)
    } else {
        value_tokens(vs[0], write) + seq![TokenView::Comma] + elements_tokens(
            vs.subrange(1, vs.len() as int),
            write,
        )
    }
}

/// The tokens of the members of an object, with a comma between two of them.
pub open spec fn members_tokens(ms: Seq<Member>, write: NumberWriter) -> Seq<TokenView>
    decreases ms, 1int,
{
    if ms.len() == 0 {
        Seq::empty()
    } else if ms.len() == 1 {
        seq![TokenView::String(ms[0].0), TokenView::Colon] + value_tokens(ms[0].1, write)
    } else {
        seq![TokenView::String(ms[0].0), TokenView::Colon] + value_tokens(ms[0].1, write)
            + seq![TokenView::Comma] + members_tokens(ms.subrange(1, ms.len() as int), write)
    }
}

/// Whether the tokens `piece` stand in `t` from index `i`.
pub open spec fn holds_at(t: Seq<TokenView>, i: int, piece: Seq<TokenView>) -> bool {
    &&& 0 <= i
    &&& i + piece.len() <= t.len()
    &&& forall|k: int| 0 <= k < piece.len() ==> t[i + k] == #[trigger] piece[k]
}

proof fn lemma_holds_split(t: Seq<TokenView>, i: int, a: Seq<TokenView>, b: Seq<TokenView>)
    requires
        holds_at(t, i, a + b),
    ensures
        holds_at(t, i, a),
        holds_at(t, i + a.len(), b),
{
    assert forall|k: int| 0 <= k < a.len() implies t[i + k] == #[trigger] a[k] by {
        assert((a + b)[k] == a[k]);
    }
    assert forall|k: int| 0 <= k < b.len() implies t[i + a.len() + k] == #[trigger] b[k] by {
        assert((a + b)[a.len() + k] == b[k]);
    }
}

/// A value is written with at least one token, and its first token closes
/// neither an array nor an object.
proof fn lemma_first_token(v: JsonModel, write: NumberWriter)
    ensures
        value_tokens(v, write).len() >= 1,
        value_tokens(v, write)[0] != TokenView::RightBracket,
        value_tokens(v, write)[0] != TokenView::RightBrace,
{
}

/// Members with unique keys are collected as they are written.
pub proof fn lemma_collect_unique(ms: Seq<Member>)
    requires
        keys_unique(ms),
    ensures
        collect_members(ms) == ms,
    decreases ms.len(),
{
    if ms.len() > 0 {
        let front = ms.drop_last();
        lemma_collect_unique(front);
        assert forall|j: int| 0 <= j < front.len() implies (#[trigger] front[j]).0 != ms.last().0 by {
            assert(front[j] == ms[j]);
        }
        lemma_key_index_is(front, ms.last().0, 0, front.len() as int);
        assert(front.push((ms.last().0, ms.last().1)) =~= ms);
    }
}

proof fn lemma_value_round_trip(
    t: Seq<TokenView>,
    i: int,
    v: JsonModel,
    write: NumberWriter,
    budget: nat,
)
    requires
        holds_at(t, i, value_tokens(v, write)),
        v.well_formed(),
        v.fits(budget),
        faithful(write),
    ensures
        parse_value_at(t, i, budget) == Ok::<(JsonModel, int), JsonErrorView>(
            (v, i + value_tokens(v, write).len()),
        ),
    decreases v, 0int,
{
    let piece = value_tokens(v, write);
    assert(t[i + 0] == piece[0]);
    match v {
        JsonModel::Object(ms) => {
            let inner = members_tokens(ms, write);
            lemma_holds_split(t, i, seq![TokenView::LeftBrace] + inner, seq![TokenView::RightBrace]);
            lemma_holds_split(t, i, seq![TokenView::LeftBrace], inner);
            assert(t[i + 1 + inner.len() + 0] == seq![TokenView::RightBrace][0]);
            if ms.len() == 0 {
                assert(ms =~= Seq::<Member>::empty());
            } else {
                assert(inner[0] == TokenView::String(ms[0].0));
                assert(t[i + 1 + 0] == inner[0]);
                lemma_members_round_trip(t, i + 1, ms, write, (budget - 1) as nat);
                lemma_collect_unique(ms);
            }
        },
        JsonModel::Array(vs) => {
            let inner = elements_tokens(vs, write);
            lemma_holds_split(
                t,
                i,
                seq![TokenView::LeftBracket] + inner,
                seq![TokenView::RightBracket],
            );
            lemma_holds_split(t, i, seq![TokenView::LeftBracket], inner);
            assert(t[i + 1 + inner.len() + 0] == seq![TokenView::RightBracket][0]);
            if vs.len() == 0 {
                assert(vs =~= Seq::<JsonModel>::empty());
            } else {
                lemma_first_token(vs[0], write);
                assert(inner[0] == value_tokens(vs[0], write)[0]);
                assert(t[i + 1 + 0] == inner[0]);
                lemma_elements_round_trip(t, i + 1, vs, write, (budget - 1) as nat);
            }
        },
        _ => {},
    }
}

proof fn lemma_elements_round_trip(
    t: Seq<TokenView>,
    i: int,
    vs: Seq<JsonModel>,
    write: NumberWriter,
    budget: nat,
)
    requires
        vs.len() >= 1,
        holds_at(t, i, elements_tokens(vs, write)),
        i + elements_tokens(vs, write).len() < t.len(),
        t[i + elements_tokens(vs, write).len()] == TokenView::RightBracket,
        forall|k: int| 0 <= k < vs.len() ==> (#[trigger] vs[k]).well_formed(),
        forall|k: int| 0 <= k < vs.len() ==> (#[trigger] vs[k]).fits(budget),
        faithful(write),
    ensures
        parse_elements_at(t, i, budget) == Ok::<(Seq<JsonModel>, int), JsonErrorView>(
            (vs, i + elements_tokens(vs, write).len() + 1),
        ),
    decreases vs, 1int,
{
    let first = value_tokens(vs[0], write);
    lemma_first_token(vs[0], write);
    if vs.len() == 1 {
        lemma_value_round_trip(t, i, vs[0], write, budget);
        assert(seq![vs[0]] =~= vs);
    } else {
        let rest = vs.subrange(1, vs.len() as int);
        let tail = elements_tokens(rest, write);
        lemma_holds_split(t, i, first + seq![TokenView::Comma], tail);
        lemma_holds_split(t, i, first, seq![TokenView::Comma]);
        lemma_value_round_trip(t, i, vs[0], write, budget);
        assert(t[i + first.len() + 0] == seq![TokenView::Comma][0]);
        assert forall|k: int| 0 <= k < rest.len() implies (#[trigger] rest[k]).well_formed()
            && rest[k].fits(budget) by {
            assert(rest[k] == vs[k + 1]);
        }
        lemma_elements_round_trip(t, i + first.len() + 1, rest, write, budget);
        assert(seq![vs[0]] + rest =~= vs);
    }
}

proof fn lemma_members_round_trip(
    t: Seq<TokenView>,
    i: int,
    ms: Seq<Member>,
    write: NumberWriter,
    budget: nat,
)
    requires
        ms.len() >= 1,
        holds_at(t, i, members_tokens(ms, write)),
        i + members_tokens(ms, write).len() < t.len(),
        t[i + members_tokens(ms, write).len()] == TokenView::RightBrace,
        forall|k: int| 0 <= k < ms.len() ==> (#[trigger] ms[k]).1.well_formed(),
        forall|k: int| 0 <= k < ms.len() ==> (#[trigger] ms[k]).1.fits(budget),
        faithful(write),
    ensures
        parse_members_at(t, i, budget) == Ok::<(Seq<Member>, int), JsonErrorView>(
            (ms, i + members_tokens(ms, write).len() + 1),
        ),
    decreases ms, 1int,
{
    let head = seq![TokenView::String(ms[0].0), TokenView::Colon];
    let first = value_tokens(ms[0].1, write);
    lemma_first_token(ms[0].1, write);
    if ms.len() == 1 {
        lemma_holds_split(t, i, head, first);
        assert(t[i + 0] == head[0] && t[i + 1] == head[1]);
        lemma_value_round_trip(t, i + 2, ms[0].1, write, budget);
        assert(seq![(ms[0].0, ms[0].1)] =~= ms);
    } else {
        let rest = ms.subrange(1, ms.len() as int);
        let tail = members_tokens(rest, write);
        lemma_holds_split(t, i, head + first + seq![TokenView::Comma], tail);
        lemma_holds_split(t, i, head + first, seq![TokenView::Comma]);
        lemma_holds_split(t, i, head, first);
        assert(t[i + 0] == head[0] && t[i + 1] == head[1]);
        lemma_value_round_trip(t, i + 2, ms[0].1, write, budget);
        assert(t[i + 2 + first.len() + 0] == seq![TokenView::Comma][0]);
        assert forall|k: int| 0 <= k < rest.len() implies (#[trigger] rest[k]).1.well_formed()
            && rest[k].1.fits(budget) by {
            assert(rest[k] == ms[k + 1]);
        }
        lemma_members_round_trip(t, i + 2 + first.len() + 1, rest, write, budget);
        assert(seq![(ms[0].0, ms[0].1)] + rest =~= ms);
    }
}

/// Round trip: a value whose objects have unique keys, nested less deep than
/// the limit, parses from its tokens as itself, whenever the writer spells
/// numbers faithfully.
pub proof fn law_round_trip(v: JsonModel, write: NumberWriter, limit: usize)
    requires
        v.well_formed(),
        v.fits(budget_of(limit)),
        faithful(write),
    ensures
        parse_tokens(value_tokens(v, write), limit) == Ok::<JsonModel, JsonErrorView>(v),
{
    lemma_value_round_trip(value_tokens(v, write), 0, v, write, budget_of(limit));
}

/// Idempotence: what was parsed, written as tokens and parsed again is the
/// same value, whenever the writer spells numbers faithfully.
pub proof fn law_reparse(t: Seq<TokenView>, write: NumberWriter, limit: usize)
    requires
        parse_tokens(t, limit) is Ok,
        faithful(write),
    ensures
        parse_tokens(value_tokens(parse_tokens(t, limit)->Ok_0, write), limit) == parse_tokens(
            t,
            limit,
        ),
{
    law_parsed_value_well_formed(t, 0, budget_of(limit));
    law_round_trip(parse_tokens(t, limit)->Ok_0, write, limit);
}

/// Round trip through text: if a writer's text for a value is cut into the
/// tokens of that value, the text parses as the value.
pub proof fn law_round_trip_of_text(s: Seq<char>, v: JsonModel, write: NumberWriter, limit: usize)
    requires
        lex(s) == Ok::<Seq<TokenView>, LexError>(value_tokens(v, write)),
        v.well_formed(),
        v.fits(budget_of(limit)),
        faithful(write),
    ensures
        parse_text(s, limit) == Ok::<JsonModel, JsonErrorView>(v),
{
    law_round_trip(v, write, limit);
}

/// Idempotence through text: if `first` parses, and a writer's text `second`
/// for the parsed value is cut into the tokens of that value, `second` parses
/// as the same value.
pub proof fn law_reparse_of_text(
    first: Seq<char>,
    second: Seq<char>,
    write: NumberWriter,
    limit: usize,
)
    requires
        parse_text(first, limit) is Ok,
        lex(second) == Ok::<Seq<TokenView>, LexError>(
            value_tokens(parse_text(first, limit)->Ok_0, write),
        ),
        faithful(write),
    ensures
        parse_text(second, limit) == parse_text(first, limit),
{
    law_reparse(lex(first)->Ok_0, write, limit);
}

proof fn lemma_valid_concat(a: Seq<TokenView>, b: Seq<TokenView>)
    requires
        numbers_valid(a),
        numbers_valid(b),
    ensures
        numbers_valid(a + b),
{
    assert forall|k: int| 0 <= k < (a + b).len() && (#[trigger] (a + b)[k]) is Number implies is_number_literal(
        (a + b)[k]->Number_0,
    ) by {
        if k < a.len() {
            assert((a + b)[k] == a[k]);
        } else {
            assert((a + b)[k] == b[k - a.len()]);
        }
    }
}

proof fn lemma_value_tokens_valid(v: JsonModel, write: NumberWriter)
    requires
        faithful(write),
    ensures
        numbers_valid(value_tokens(v, write)),
    decreases v, 0int,
{
    match v {
        JsonModel::Object(ms) => {
            lemma_members_tokens_valid(ms, write);
            lemma_valid_concat(seq![TokenView::LeftBrace], members_tokens(ms, write));
            lemma_valid_concat(
                seq![TokenView::LeftBrace] + members_tokens(ms, write),
                seq![TokenView::RightBrace],
            );
        },
        JsonModel::Array(vs) => {
            lemma_elements_tokens_valid(vs, write);
            lemma_valid_concat(seq![TokenView::LeftBracket], elements_tokens(vs, write));
            lemma_valid_concat(
                seq![TokenView::LeftBracket] + elements_tokens(vs, write),
                seq![TokenView::RightBracket],
            );
        },
        JsonModel::Number(n) => {
            assert(number_of(write(n)) is Ok);
        },
        _ => {},
    }
}

proof fn lemma_elements_tokens_valid(vs: Seq<JsonModel>, write: NumberWriter)
    requires
        faithful(write),
    ensures
        numbers_valid(elements_tokens(vs, write)),
    decreases vs, 1int,
{
    if vs.len() >= 1 {
        lemma_value_tokens_valid(vs[0], write);
        if vs.len() > 1 {
            let rest = vs.subrange(1, vs.len() as int);
            lemma_elements_tokens_valid(rest, write);
            lemma_valid_concat(value_tokens(vs[0], write), seq![TokenView::Comma]);
            lemma_valid_concat(
                value_tokens(vs[0], write) + seq![TokenView::Comma],
                elements_tokens(rest, write),
            );
        }
    }
}

proof fn lemma_members_tokens_valid(ms: Seq<Member>, write: NumberWriter)
    requires
        faithful(write),
    ensures
        numbers_valid(members_tokens(ms, write)),
    decreases ms, 1int,
{
    if ms.len() >= 1 {
        let head = seq![TokenView::String(ms[0].0), TokenView::Colon];
        lemma_value_tokens_valid(ms[0].1, write);
        lemma_valid_concat(head, value_tokens(ms[0].1, write));
        if ms.len() > 1 {
            let rest = ms.subrange(1, ms.len() as int);
            lemma_members_tokens_valid(rest, write);
            lemma_valid_concat(head + value_tokens(ms[0].1, write), seq![TokenView::Comma]);
            lemma_valid_concat(
                head + value_tokens(ms[0].1, write) + seq![TokenView::Comma],
                members_tokens(rest, write),
            );
        }
    }
}

/// The text of a value: its tokens, written one after the other.
pub open spec fn value_text(v: JsonModel, write: NumberWriter) -> Seq<char> {
    tokens_text(value_tokens(v, write))
}

/// Round trip through written text: a value whose objects have unique keys,
/// nested less deep than the limit, parses from its text as itself, whenever
/// the writer spells numbers faithfully.
pub proof fn law_written_value_parses(v: JsonModel, write: NumberWriter, limit: usize)
    requires
        v.well_formed(),
        v.fits(budget_of(limit)),
        faithful(write),
    ensures
        parse_text(value_text(v, write), limit) == Ok::<JsonModel, JsonErrorView>(v),
{
    lemma_value_tokens_valid(v, write);
    law_tokens_read_back(value_tokens(v, write));
    law_round_trip(v, write, limit);
}

/// Idempotence through written text: if a text parses, the text of the parsed
/// value parses as the same value, whenever the writer spells numbers
/// faithfully.
pub proof fn law_parse_write_parse(s: Seq<char>, write: NumberWriter, limit: usize)
    requires
        parse_text(s, limit) is Ok,
        faithful(write),
    ensures
        parse_text(value_text(parse_text(s, limit)->Ok_0, write), limit) == parse_text(s, limit),
{
    let v = parse_text(s, limit)->Ok_0;
    lemma_value_tokens_valid(v, write);
    law_tokens_read_back(value_tokens(v, write));
    law_reparse(lex(s)->Ok_0, write, limit);
}

/// The writer that spells every number as [`number_text`] does.
pub open spec fn plain_writer() -> NumberWriter {
    |n: Number| number_text(n)
}

/// The plain writer spells numbers faithfully.
pub proof fn law_plain_writer_faithful()
    ensures
        faithful(plain_writer()),
{
    assert forall|n: Number| #[trigger]
        number_of(plain_writer()(n)) == Ok::<Number, JsonErrorView>(n) by {
        law_number_reads_back(n);
    }
}

/// Round trip: every value whose objects have unique keys, nested less deep
/// than the limit, parses from its plainly written text as itself.
pub proof fn law_round_trip_plain(v: JsonModel, limit: usize)
    requires
        v.well_formed(),
        v.fits(budget_of(limit)),
    ensures
        parse_text(value_text(v, plain_writer()), limit) == Ok::<JsonModel, JsonErrorView>(v),
{
    law_plain_writer_faithful();
    law_written_value_parses(v, plain_writer(), limit);
}

/// Idempotence: if a text parses, the plainly written text of the parsed
/// value parses as the same value.
pub proof fn law_idempotence_plain(s: Seq<char>, limit: usize)
    requires
        parse_text(s, limit) is Ok,
    ensures
        parse_text(value_text(parse_text(s, limit)->Ok_0, plain_writer()), limit) == parse_text(
            s,
            limit,
        ),
{
    law_plain_writer_faithful();
    law_parse_write_parse(s, plain_writer(), limit);
}

} // verus!
