//! Filters as they are written, and that reading one gives what it means.

use crate::grammar;
use crate::grammar::Context;
use crate::query::{PlanView, QueryView};
use vstd::prelude::*;

verus! {

/// A filter as it is written.
pub enum Phrase {
    /// Field, operator and value.
    Comparison(Seq<char>, Seq<char>, Seq<char>),
    /// A filter in parentheses.
    Group(Box<Phrase>),
    /// So many times `NOT`, and a filter.
    Not(nat, Box<Phrase>),
    /// Filters with `AND` between them.
    And(Seq<Phrase>),
    /// Filters with `OR` between them.
    Or(Seq<Phrase>),
}

/// How loosely a phrase holds together: groups and comparisons not at all, then `NOT`, `AND` and
/// `OR`.
pub open spec fn looseness(phrase: Phrase) -> nat {
    match phrase {
        Phrase::Comparison(..) => 0,
        Phrase::Group(_) => 0,
        Phrase::Not(..) => 1,
        Phrase::And(_) => 2,
        Phrase::Or(_) => 3,
    }
}

/// The tokens of a phrase.
pub open spec fn written(phrase: Phrase) -> Seq<Seq<char>>
    decreases phrase,
{
    match phrase {
        Phrase::Comparison(field, operator, value) => seq![field, operator, value],
        Phrase::Group(inner) => seq!["("@] + written(*inner) + seq![")"@],
        Phrase::Not(nots, inner) => Seq::new(nots, |i: int| "NOT"@) + written(*inner),
        Phrase::And(parts) => written_list(parts, "AND"@),
        Phrase::Or(parts) => written_list(parts, "OR"@),
    }
}

/// The tokens of phrases with a word between each two.
pub open spec fn written_list(parts: Seq<Phrase>, word: Seq<char>) -> Seq<Seq<char>>
    decreases parts,
{
    if parts.len() == 0 {
        Seq::empty()
    } else if parts.len() == 1 {
        written(parts[0])
    } else {
        written_list(parts.drop_last(), word).push(word) + written(parts.last())
    }
}

/// Whether a phrase is written as the grammar asks: a looser phrase stands within a tighter one in
/// parentheses only, and each comparison can be read.
pub open spec fn proper(phrase: Phrase, context: Context) -> bool
    decreases phrase,
{
    match phrase {
        Phrase::Comparison(field, operator, value) => {
            &&& field != "("@
            &&& field != "NOT"@
            &&& grammar::simple(seq![field, operator, value], 0, context) is Ok
        },
        Phrase::Group(inner) => proper(*inner, context),
        Phrase::Not(nots, inner) => nots > 0 && looseness(*inner) == 0 && proper(*inner, context),
        Phrase::And(parts) => parts.len() >= 2 && proper_list(parts, 1, context),
        Phrase::Or(parts) => parts.len() >= 2 && proper_list(parts, 2, context),
    }
}

/// Whether phrases are written as the grammar asks, and none is looser than given.
pub open spec fn proper_list(parts: Seq<Phrase>, loosest: nat, context: Context) -> bool
    decreases parts,
{
    parts.len() == 0 || {
        &&& looseness(parts.last()) <= loosest
        &&& proper(parts.last(), context)
        &&& proper_list(parts.drop_last(), loosest, context)
    }
}

/// Where the last of some phrases starts.
spec fn part_start(parts: Seq<Phrase>, word: Seq<char>, pos: int) -> int {
    if parts.len() == 1 {
        pos
    } else {
        pos + written_list(parts.drop_last(), word).len() + 1
    }
}

/// What a phrase means.
pub open spec fn meaning(phrase: Phrase, context: Context) -> QueryView
    decreases phrase,
{
    match phrase {
        Phrase::Comparison(field, operator, value) => grammar::simple(
            seq![field, operator, value],
            0,
            context,
        )->Ok_0.0,
        Phrase::Group(inner) => meaning(*inner, context),
        Phrase::Not(nots, inner) => grammar::negated(nots, meaning(*inner, context)),
        Phrase::And(parts) => QueryView::And(meanings(parts, context)),
        Phrase::Or(parts) => QueryView::Or(meanings(parts, context)),
    }
}

/// What each of several phrases means.
pub open spec fn meanings(parts: Seq<Phrase>, context: Context) -> Seq<QueryView>
    decreases parts,
{
    if parts.len() == 0 {
        Seq::empty()
    } else {
        meanings(parts.drop_last(), context).push(meaning(parts.last(), context))
    }
}

/// Whether the parentheses of a phrase nest at most so deep.
pub open spec fn nests_within(phrase: Phrase, levels: int) -> bool
    decreases phrase,
{
    match phrase {
        Phrase::Comparison(..) => true,
        Phrase::Group(inner) => levels > 0 && nests_within(*inner, levels - 1),
        Phrase::Not(_, inner) => nests_within(*inner, levels),
        Phrase::And(parts) => all_nest_within(parts, levels),
        Phrase::Or(parts) => all_nest_within(parts, levels),
    }
}

/// Whether the parentheses of several phrases nest at most so deep.
pub open spec fn all_nest_within(parts: Seq<Phrase>, levels: int) -> bool
    decreases parts,
{
    parts.len() == 0 || nests_within(parts.last(), levels) && all_nest_within(
        parts.drop_last(),
        levels,
    )
}

/// Whether a phrase stands in the tokens from `pos` on.
spec fn stands(tokens: Seq<Seq<char>>, pos: int, phrase: Seq<Seq<char>>) -> bool {
    &&& 0 <= pos
    &&& pos + phrase.len() <= tokens.len()
    &&& forall|i: int| 0 <= i < phrase.len() ==> #[trigger] phrase[i] == tokens[pos + i]
}

/// Whether a phrase is read to its end by every rule that admits it and does not go on after it.
spec fn read_as(
    tokens: Seq<Seq<char>>,
    pos: int,
    depth: nat,
    context: Context,
    phrase: Phrase,
) -> bool {
    let end = pos + written(phrase).len();
    let outcome = Ok::<_, grammar::ErrorView>((meaning(phrase, context), end));
    let and_follows = grammar::token_is(tokens, end, "AND"@);
    let or_follows = grammar::token_is(tokens, end, "OR"@);
    &&& written(phrase).len() > 0
    &&& looseness(phrase) <= 0 ==> grammar::primary(tokens, pos, depth, context) == outcome
    &&& looseness(phrase) <= 1 ==> grammar::negation(tokens, pos, depth, context) == outcome
    &&& looseness(phrase) <= 2 && !and_follows ==> grammar::conjunction(
        tokens,
        pos,
        depth,
        context,
    ) == outcome
    &&& !and_follows && !or_follows ==> grammar::disjunction(tokens, pos, depth, context) == outcome
}

/// What is read of a phrase by the tighter rules is read by the looser ones.
proof fn lemma_read_by_looser_rules(
    tokens: Seq<Seq<char>>,
    pos: int,
    depth: nat,
    context: Context,
    phrase: Phrase,
)
    requires
        stands(tokens, pos, written(phrase)),
        written(phrase).len() > 0,
        looseness(phrase) <= 1 ==> grammar::negation(tokens, pos, depth, context) == Ok::<
            _,
            grammar::ErrorView,
        >((meaning(phrase, context), pos + written(phrase).len())),
        looseness(phrase) <= 2 && !grammar::token_is(
            tokens,
            pos + written(phrase).len(),
            "AND"@,
        ) ==> looseness(phrase) <= 1 || grammar::conjunction(tokens, pos, depth, context) == Ok::<
            _,
            grammar::ErrorView,
        >((meaning(phrase, context), pos + written(phrase).len())),
        looseness(phrase) <= 2,
    ensures
        ({
            let end = pos + written(phrase).len();
            let outcome = Ok::<_, grammar::ErrorView>((meaning(phrase, context), end));
            let and_follows = grammar::token_is(tokens, end, "AND"@);
            let or_follows = grammar::token_is(tokens, end, "OR"@);
            &&& !and_follows ==> grammar::conjunction(tokens, pos, depth, context) == outcome
            &&& !and_follows && !or_follows ==> grammar::disjunction(tokens, pos, depth, context)
                == outcome
        }),
{
    let end = pos + written(phrase).len();
    let q = meaning(phrase, context);
    if !grammar::token_is(tokens, end, "AND"@) {
        if looseness(phrase) <= 1 {
            assert(grammar::more_conjuncts(seq![q], tokens, end, depth, context) == Ok::<
                _,
                grammar::ErrorView,
            >((seq![q], end)));
            assert(grammar::all_of(seq![q]) == q);
        }
        if !grammar::token_is(tokens, end, "OR"@) {
            assert(grammar::more_disjuncts(seq![q], tokens, end, depth, context) == Ok::<
                _,
                grammar::ErrorView,
            >((seq![q], end)));
            assert(grammar::any_of(seq![q]) == q);
        }
    }
}

/// The tokens of a list, up to its last part, that part's separator, and that part.
proof fn lemma_list_stands(
    tokens: Seq<Seq<char>>,
    pos: int,
    parts: Seq<Phrase>,
    word: Seq<char>,
)
    requires
        parts.len() > 0,
        stands(tokens, pos, written_list(parts, word)),
    ensures
        stands(tokens, part_start(parts, word, pos), written(parts.last())),
        part_start(parts, word, pos) + written(parts.last()).len() == pos + written_list(
            parts,
            word,
        ).len(),
        parts.len() > 1 ==> stands(tokens, pos, written_list(parts.drop_last(), word))
            && grammar::token_is(tokens, part_start(parts, word, pos) - 1, word),
{
    let all = written_list(parts, word);
    let start = part_start(parts, word, pos);
    let last = written(parts.last());
    if parts.len() > 1 {
        let front = written_list(parts.drop_last(), word);
        assert(all == front.push(word) + last);
        assert forall|i: int| 0 <= i < last.len() implies #[trigger] last[i] == tokens[start + i] by {
            assert(all[front.len() + 1 + i] == last[i]);
        }
        assert forall|i: int| 0 <= i < front.len() implies #[trigger] front[i] == tokens[pos + i] by {
            assert(all[i] == front[i]);
        }
        assert(all[front.len() as int] == word);
    }
}

/// Every `NOT` of a phrase leads it, and no more do; the filter stands behind them.
proof fn lemma_nots_stand(
    tokens: Seq<Seq<char>>,
    pos: int,
    context: Context,
    nots: nat,
    inner: Phrase,
)
    requires
        looseness(inner) == 0,
        proper(inner, context),
        stands(tokens, pos, Seq::new(nots, |i: int| "NOT"@) + written(inner)),
    ensures
        grammar::leading_nots(tokens, pos) == nots,
        stands(tokens, pos + nots, written(inner)),
    decreases nots,
{
    let inside = written(inner);
    let all = Seq::new(nots, |i: int| "NOT"@) + inside;
    reveal_strlit("(");
    reveal_strlit("NOT");
    assert("("@.len() != "NOT"@.len());
    assert forall|i: int| 0 <= i < inside.len() implies #[trigger] inside[i] == tokens[pos + nots
        + i] by {
        assert(all[nots + i] == inside[i]);
    }
    if nots == 0 {
        assert(inside[0] == tokens[pos]);
    } else {
        let fewer = Seq::new((nots - 1) as nat, |i: int| "NOT"@) + inside;
        assert(all[0] == "NOT"@);
        assert forall|i: int| 0 <= i < fewer.len() implies #[trigger] fewer[i] == tokens[pos + 1
            + i] by {
            assert(all[i + 1] == fewer[i]);
        }
        lemma_nots_stand(tokens, pos + 1, context, (nots - 1) as nat, inner);
    }
}

/// Reading on after the first parts of a conjunction gives the rest.
proof fn lemma_conjuncts(
    tokens: Seq<Seq<char>>,
    pos: int,
    depth: nat,
    context: Context,
    parts: Seq<Phrase>,
    k: int,
)
    requires
        depth <= grammar::MAX_NESTING,
        1 <= k <= parts.len(),
        stands(tokens, pos, written_list(parts, "AND"@)),
        proper_list(parts, 1, context),
        all_nest_within(parts, grammar::MAX_NESTING - depth),
        !grammar::token_is(tokens, pos + written_list(parts, "AND"@).len(), "AND"@),
    ensures
        grammar::more_conjuncts(
            meanings(parts.take(k), context),
            tokens,
            pos + written_list(parts.take(k), "AND"@).len(),
            depth,
            context,
        ) == Ok::<_, grammar::ErrorView>(
            (meanings(parts, context), pos + written_list(parts, "AND"@).len()),
        ),
    decreases parts, 1int, parts.len() - k,
{
    let end = pos + written_list(parts.take(k), "AND"@).len();
    if k == parts.len() {
        assert(parts.take(k) =~= parts);
    } else {
        let next = parts.take(k + 1);
        lemma_prefix(tokens, pos, context, parts, 1, "AND"@, k + 1, grammar::MAX_NESTING - depth);
        assert(next.drop_last() =~= parts.take(k));
        assert(next.last() == parts[k]);
        lemma_list_stands(tokens, pos, next, "AND"@);
        assert(decreases_to!(parts => parts[k]));
        lemma_reading(tokens, end + 1, depth, context, parts[k]);
        lemma_conjuncts(tokens, pos, depth, context, parts, k + 1);
    }
}

/// Reading on after the first parts of a disjunction gives the rest.
proof fn lemma_disjuncts(
    tokens: Seq<Seq<char>>,
    pos: int,
    depth: nat,
    context: Context,
    parts: Seq<Phrase>,
    k: int,
)
    requires
        depth <= grammar::MAX_NESTING,
        1 <= k <= parts.len(),
        stands(tokens, pos, written_list(parts, "OR"@)),
        proper_list(parts, 2, context),
        all_nest_within(parts, grammar::MAX_NESTING - depth),
        !grammar::token_is(tokens, pos + written_list(parts, "OR"@).len(), "AND"@),
        !grammar::token_is(tokens, pos + written_list(parts, "OR"@).len(), "OR"@),
    ensures
        grammar::more_disjuncts(
            meanings(parts.take(k), context),
            tokens,
            pos + written_list(parts.take(k), "OR"@).len(),
            depth,
            context,
        ) == Ok::<_, grammar::ErrorView>(
            (meanings(parts, context), pos + written_list(parts, "OR"@).len()),
        ),
    decreases parts, 1int, parts.len() - k,
{
    let end = pos + written_list(parts.take(k), "OR"@).len();
    if k == parts.len() {
        assert(parts.take(k) =~= parts);
    } else {
        let next = parts.take(k + 1);
        lemma_prefix(tokens, pos, context, parts, 2, "OR"@, k + 1, grammar::MAX_NESTING - depth);
        assert(next.drop_last() =~= parts.take(k));
        assert(next.last() == parts[k]);
        lemma_list_stands(tokens, pos, next, "OR"@);
        assert(decreases_to!(parts => parts[k]));
        lemma_reading(tokens, end + 1, depth, context, parts[k]);
        lemma_after_part(tokens, pos, parts, "OR"@, k + 1);
        reveal_strlit("AND");
        reveal_strlit("OR");
        assert("AND"@.len() != "OR"@.len());
        lemma_disjuncts(tokens, pos, depth, context, parts, k + 1);
    }
}

/// The first parts of a list stand where the list does, and are as proper and as nested as it.
proof fn lemma_prefix(
    tokens: Seq<Seq<char>>,
    pos: int,
    context: Context,
    parts: Seq<Phrase>,
    loosest: nat,
    word: Seq<char>,
    k: int,
    levels: int,
)
    requires
        1 <= k <= parts.len(),
        stands(tokens, pos, written_list(parts, word)),
        proper_list(parts, loosest, context),
        all_nest_within(parts, levels),
    ensures
        stands(tokens, pos, written_list(parts.take(k), word)),
        proper_list(parts.take(k), loosest, context),
        all_nest_within(parts.take(k), levels),
    decreases parts.len() - k,
{
    if k == parts.len() {
        assert(parts.take(k) =~= parts);
    } else {
        lemma_prefix(tokens, pos, context, parts, loosest, word, k + 1, levels);
        assert(parts.take(k + 1).drop_last() =~= parts.take(k));
        lemma_list_stands(tokens, pos, parts.take(k + 1), word);
    }
}

/// After the first parts of a list, short of all, comes the word between them.
proof fn lemma_after_part(
    tokens: Seq<Seq<char>>,
    pos: int,
    parts: Seq<Phrase>,
    word: Seq<char>,
    k: int,
)
    requires
        1 <= k <= parts.len(),
        stands(tokens, pos, written_list(parts, word)),
    ensures
        k < parts.len() ==> grammar::token_is(
            tokens,
            pos + written_list(parts.take(k), word).len(),
            word,
        ),
        stands(tokens, pos, written_list(parts.take(k), word)),
    decreases parts.len() - k,
{
    if k == parts.len() {
        assert(parts.take(k) =~= parts);
    } else {
        lemma_after_part(tokens, pos, parts, word, k + 1);
        assert(parts.take(k + 1).drop_last() =~= parts.take(k));
        lemma_list_stands(tokens, pos, parts.take(k + 1), word);
    }
}

/// A proper phrase is read as what it means.
proof fn lemma_reading(
    tokens: Seq<Seq<char>>,
    pos: int,
    depth: nat,
    context: Context,
    phrase: Phrase,
)
    requires
        depth <= grammar::MAX_NESTING,
        stands(tokens, pos, written(phrase)),
        proper(phrase, context),
        nests_within(phrase, grammar::MAX_NESTING - depth),
    ensures
        read_as(tokens, pos, depth, context, phrase),
    decreases phrase, 0int, 0int,
{
    let all = written(phrase);
    let end = pos + all.len();
    reveal_strlit("(");
    reveal_strlit(")");
    reveal_strlit("NOT");
    reveal_strlit("AND");
    reveal_strlit("OR");
    assert("AND"@[0] != "OR"@[0]);
    match phrase {
        Phrase::Comparison(field, operator, value) => {
            assert(all[0] == tokens[pos] && all[1] == tokens[pos + 1] && all[2] == tokens[pos + 2]);
            lemma_read_by_looser_rules(tokens, pos, depth, context, phrase);
        },
        Phrase::Group(inner) => {
            let inside = written(*inner);
            assert(all[0] == "("@ && all[inside.len() as int + 1] == ")"@);
            assert forall|i: int| 0 <= i < inside.len() implies #[trigger] inside[i] == tokens[pos
                + 1 + i] by {
                assert(all[i + 1] == inside[i]);
            }
            lemma_reading(tokens, pos + 1, depth + 1, context, *inner);
            assert(")"@[0] != "AND"@[0] && ")"@[0] != "OR"@[0]);
            assert(grammar::token_is(tokens, end - 1, ")"@));
            assert("("@.len() != "NOT"@.len());
            lemma_read_by_looser_rules(tokens, pos, depth, context, phrase);
        },
        Phrase::Not(nots, inner) => {
            lemma_nots_stand(tokens, pos, context, nots, *inner);
            lemma_reading(tokens, pos + nots, depth, context, *inner);
            lemma_read_by_looser_rules(tokens, pos, depth, context, phrase);
        },
        Phrase::And(parts) => {
            lemma_prefix(
                tokens,
                pos,
                context,
                parts,
                1,
                "AND"@,
                1,
                grammar::MAX_NESTING - depth,
            );
            lemma_list_stands(tokens, pos, parts.take(1), "AND"@);
            assert(parts.take(1).last() == parts[0]);
            assert(decreases_to!(parts => parts[0]));
            lemma_reading(tokens, pos, depth, context, parts[0]);
            if !grammar::token_is(tokens, end, "AND"@) {
                lemma_conjuncts(tokens, pos, depth, context, parts, 1);
                lemma_one_meaning(parts, context);
                lemma_meanings_len(parts, context);
            }
            lemma_read_by_looser_rules(tokens, pos, depth, context, phrase);
        },
        Phrase::Or(parts) => {
            lemma_prefix(tokens, pos, context, parts, 2, "OR"@, 1, grammar::MAX_NESTING - depth);
            lemma_list_stands(tokens, pos, parts.take(1), "OR"@);
            assert(parts.take(1).last() == parts[0]);
            assert(decreases_to!(parts => parts[0]));
            lemma_reading(tokens, pos, depth, context, parts[0]);
            lemma_after_part(tokens, pos, parts, "OR"@, 1);
            if !grammar::token_is(tokens, end, "AND"@) && !grammar::token_is(tokens, end, "OR"@) {
                lemma_disjuncts(tokens, pos, depth, context, parts, 1);
                lemma_one_meaning(parts, context);
                lemma_meanings_len(parts, context);
            }
        },
    }
}

/// Each phrase of a list has its meaning.
proof fn lemma_meanings_len(parts: Seq<Phrase>, context: Context)
    ensures
        meanings(parts, context).len() == parts.len(),
    decreases parts.len(),
{
    if parts.len() > 0 {
        lemma_meanings_len(parts.drop_last(), context);
    }
}

/// A filter that is written as the grammar asks, with parentheses at most 128 deep, is read as what
/// it means, whether or not a pipeline stage follows: `NOT` binds tighter than `AND`, and `AND`
/// tighter than `OR`.
pub proof fn law_filters_are_read_as_written(
    phrase: Phrase,
    rest: Seq<Seq<char>>,
    context: Context,
)
    requires
        proper(phrase, context),
        nests_within(phrase, grammar::MAX_NESTING as int),
        written(phrase)[0] != "|"@,
        rest.len() > 0 ==> rest[0] == "|"@,
    ensures
        ({
            let tokens = written(phrase) + rest;
            let query = meaning(phrase, context);
            grammar::plan_of(tokens, context) == if rest.len() == 0 {
                Ok::<_, grammar::ErrorView>(PlanView { query, aggregation: None, limit: None })
            } else {
                match grammar::stage(tokens, written(phrase).len() as int + 1) {
                    Ok(stage) => Ok(grammar::plan_with(query, stage)),
                    Err(e) => Err(e),
                }
            }
        }),
{
    let tokens = written(phrase) + rest;
    reveal_strlit("|");
    reveal_strlit("AND");
    reveal_strlit("OR");
    assert("|"@.len() != "AND"@.len() && "|"@.len() != "OR"@.len());
    assert forall|i: int| 0 <= i < written(phrase).len() implies #[trigger] written(phrase)[i]
        == tokens[0 + i] by {}
    lemma_reading(tokens, 0, 0, context, phrase);
    if rest.len() > 0 {
        assert(tokens[written(phrase).len() as int] == rest[0]);
    }
}

/// Whatever is read as a filter is written as the grammar asks, with parentheses at most 128 deep,
/// and read as what it means.
pub proof fn law_what_is_read_is_written(tokens: Seq<Seq<char>>, context: Context)
    requires
        grammar::plan_of(tokens, context) is Ok,
        tokens[0] != "|"@,
    ensures
        exists|phrase: Phrase|
            {
                &&& #[trigger] proper(phrase, context)
                &&& nests_within(phrase, grammar::MAX_NESTING as int)
                &&& meaning(phrase, context) == grammar::plan_of(tokens, context)->Ok_0.query
                &&& written(phrase).len() <= tokens.len()
                &&& written(phrase) == tokens.take(written(phrase).len() as int)
                &&& written(phrase).len() < tokens.len() ==> tokens[written(phrase).len() as int]
                    == "|"@
            },
{
    let end = grammar::disjunction(tokens, 0, 0, context)->Ok_0.1;
    let phrase = lemma_disjunction_is_written(tokens, 0, 0, context);
    assert(tokens.subrange(0, end) =~= tokens.take(end));
    assert(proper(phrase, context));
}

/// Whether a phrase accounts for what a rule has read from `pos` on.
spec fn accounts(
    phrase: Phrase,
    loosest: nat,
    tokens: Seq<Seq<char>>,
    pos: int,
    depth: nat,
    context: Context,
    outcome: (QueryView, int),
) -> bool {
    &&& looseness(phrase) <= loosest
    &&& proper(phrase, context)
    &&& nests_within(phrase, grammar::MAX_NESTING - depth)
    &&& meaning(phrase, context) == outcome.0
    &&& pos < outcome.1 <= tokens.len()
    &&& written(phrase) == tokens.subrange(pos, outcome.1)
}

/// Whether phrases account for the parts that a rule has read from `pos` on.
spec fn account_for_parts(
    phrases: Seq<Phrase>,
    loosest: nat,
    word: Seq<char>,
    tokens: Seq<Seq<char>>,
    pos: int,
    depth: nat,
    context: Context,
    outcome: (Seq<QueryView>, int),
) -> bool {
    &&& phrases.len() > 0
    &&& proper_list(phrases, loosest, context)
    &&& all_nest_within(phrases, grammar::MAX_NESTING - depth)
    &&& meanings(phrases, context) == outcome.0
    &&& pos < outcome.1 <= tokens.len()
    &&& written_list(phrases, word) == tokens.subrange(pos, outcome.1)
}

/// One phrase accounts for one part.
proof fn lemma_first_part(
    phrase: Phrase,
    loosest: nat,
    word: Seq<char>,
    tokens: Seq<Seq<char>>,
    pos: int,
    depth: nat,
    context: Context,
    outcome: (QueryView, int),
)
    requires
        accounts(phrase, loosest, tokens, pos, depth, context, outcome),
    ensures
        account_for_parts(
            seq![phrase],
            loosest,
            word,
            tokens,
            pos,
            depth,
            context,
            (seq![outcome.0], outcome.1),
        ),
{
    let phrases = seq![phrase];
    assert(phrases.drop_last() =~= Seq::empty());
    assert(phrases.last() == phrase);
    reveal_with_fuel(meanings, 2);
    reveal_with_fuel(proper_list, 2);
    reveal_with_fuel(all_nest_within, 2);
    assert(meanings(phrases, context) =~= seq![outcome.0]);
}

/// One more phrase accounts for one more part.
proof fn lemma_next_part(
    phrases: Seq<Phrase>,
    next: Phrase,
    loosest: nat,
    word: Seq<char>,
    tokens: Seq<Seq<char>>,
    pos: int,
    depth: nat,
    context: Context,
    before: (Seq<QueryView>, int),
    outcome: (QueryView, int),
)
    requires
        0 <= pos,
        account_for_parts(phrases, loosest, word, tokens, pos, depth, context, before),
        grammar::token_is(tokens, before.1, word),
        accounts(next, loosest, tokens, before.1 + 1, depth, context, outcome),
    ensures
        account_for_parts(
            phrases.push(next),
            loosest,
            word,
            tokens,
            pos,
            depth,
            context,
            (before.0.push(outcome.0), outcome.1),
        ),
{
    let all = phrases.push(next);
    assert(all.drop_last() =~= phrases);
    assert(all.last() == next);
    assert(written_list(all, word) =~= tokens.subrange(pos, outcome.1));
}

/// Some phrase accounts for what is read as a primary.
proof fn lemma_primary_is_written(
    tokens: Seq<Seq<char>>,
    pos: int,
    depth: nat,
    context: Context,
) -> (phrase: Phrase)
    requires
        0 <= pos,
        depth <= grammar::MAX_NESTING,
        !grammar::token_is(tokens, pos, "NOT"@),
        grammar::primary(tokens, pos, depth, context) is Ok,
    ensures
        accounts(
            phrase,
            0,
            tokens,
            pos,
            depth,
            context,
            grammar::primary(tokens, pos, depth, context)->Ok_0,
        ),
    decreases tokens.len() - pos, 0int,
{
    let (query, end) = grammar::primary(tokens, pos, depth, context)->Ok_0;
    if grammar::token_is(tokens, pos, "("@) {
        let inner = lemma_disjunction_is_written(tokens, pos + 1, depth + 1, context);
        let phrase = Phrase::Group(Box::new(inner));
        assert(written(phrase) =~= tokens.subrange(pos, end));
        phrase
    } else {
        let phrase = Phrase::Comparison(tokens[pos], tokens[pos + 1], tokens[pos + 2]);
        assert(written(phrase) =~= tokens.subrange(pos, end));
        phrase
    }
}

/// Some phrase accounts for what is read as a negation.
proof fn lemma_negation_is_written(
    tokens: Seq<Seq<char>>,
    pos: int,
    depth: nat,
    context: Context,
) -> (phrase: Phrase)
    requires
        0 <= pos,
        depth <= grammar::MAX_NESTING,
        grammar::negation(tokens, pos, depth, context) is Ok,
    ensures
        accounts(
            phrase,
            1,
            tokens,
            pos,
            depth,
            context,
            grammar::negation(tokens, pos, depth, context)->Ok_0,
        ),
    decreases tokens.len() - pos, 1int,
{
    let nots = grammar::leading_nots(tokens, pos);
    let (query, end) = grammar::negation(tokens, pos, depth, context)->Ok_0;
    grammar::lemma_leading_nots(tokens, pos);
    let inner = lemma_primary_is_written(tokens, pos + nots, depth, context);
    if nots == 0 {
        inner
    } else {
        let phrase = Phrase::Not(nots, Box::new(inner));
        assert(written(phrase) =~= tokens.subrange(pos, end));
        phrase
    }
}

/// Some phrases account for what is read as the parts of a conjunction.
proof fn lemma_conjuncts_are_written(
    phrases: Seq<Phrase>,
    views: Seq<QueryView>,
    tokens: Seq<Seq<char>>,
    start: int,
    pos: int,
    depth: nat,
    context: Context,
) -> (all: Seq<Phrase>)
    requires
        0 <= start < pos,
        depth <= grammar::MAX_NESTING,
        account_for_parts(phrases, 1, "AND"@, tokens, start, depth, context, (views, pos)),
        grammar::more_conjuncts(views, tokens, pos, depth, context) is Ok,
    ensures
        account_for_parts(
            all,
            1,
            "AND"@,
            tokens,
            start,
            depth,
            context,
            grammar::more_conjuncts(views, tokens, pos, depth, context)->Ok_0,
        ),
    decreases tokens.len() - pos, 2int,
{
    if grammar::token_is(tokens, pos, "AND"@) {
        let outcome = grammar::negation(tokens, pos + 1, depth, context)->Ok_0;
        let next = lemma_negation_is_written(tokens, pos + 1, depth, context);
        lemma_next_part(
            phrases,
            next,
            1,
            "AND"@,
            tokens,
            start,
            depth,
            context,
            (views, pos),
            outcome,
        );
        lemma_conjuncts_are_written(
            phrases.push(next),
            views.push(outcome.0),
            tokens,
            start,
            outcome.1,
            depth,
            context,
        )
    } else {
        phrases
    }
}

/// Some phrase accounts for what is read as a conjunction.
proof fn lemma_conjunction_is_written(
    tokens: Seq<Seq<char>>,
    pos: int,
    depth: nat,
    context: Context,
) -> (phrase: Phrase)
    requires
        0 <= pos,
        depth <= grammar::MAX_NESTING,
        grammar::conjunction(tokens, pos, depth, context) is Ok,
    ensures
        accounts(
            phrase,
            2,
            tokens,
            pos,
            depth,
            context,
            grammar::conjunction(tokens, pos, depth, context)->Ok_0,
        ),
    decreases tokens.len() - pos, 3int,
{
    let outcome = grammar::negation(tokens, pos, depth, context)->Ok_0;
    let first = lemma_negation_is_written(tokens, pos, depth, context);
    lemma_first_part(first, 1, "AND"@, tokens, pos, depth, context, outcome);
    let parts = lemma_conjuncts_are_written(
        seq![first],
        seq![outcome.0],
        tokens,
        pos,
        outcome.1,
        depth,
        context,
    );
    lemma_meanings_len(parts, context);
    if parts.len() == 1 {
        assert(meanings(parts, context)[0] == meaning(parts[0], context));
        parts[0]
    } else {
        Phrase::And(parts)
    }
}

/// Some phrases account for what is read as the parts of a disjunction.
proof fn lemma_disjuncts_are_written(
    phrases: Seq<Phrase>,
    views: Seq<QueryView>,
    tokens: Seq<Seq<char>>,
    start: int,
    pos: int,
    depth: nat,
    context: Context,
) -> (all: Seq<Phrase>)
    requires
        0 <= start < pos,
        depth <= grammar::MAX_NESTING,
        account_for_parts(phrases, 2, "OR"@, tokens, start, depth, context, (views, pos)),
        grammar::more_disjuncts(views, tokens, pos, depth, context) is Ok,
    ensures
        account_for_parts(
            all,
            2,
            "OR"@,
            tokens,
            start,
            depth,
            context,
            grammar::more_disjuncts(views, tokens, pos, depth, context)->Ok_0,
        ),
    decreases tokens.len() - pos, 4int,
{
    if grammar::token_is(tokens, pos, "OR"@) {
        let outcome = grammar::conjunction(tokens, pos + 1, depth, context)->Ok_0;
        let next = lemma_conjunction_is_written(tokens, pos + 1, depth, context);
        lemma_next_part(
            phrases,
            next,
            2,
            "OR"@,
            tokens,
            start,
            depth,
            context,
            (views, pos),
            outcome,
        );
        lemma_disjuncts_are_written(
            phrases.push(next),
            views.push(outcome.0),
            tokens,
            start,
            outcome.1,
            depth,
            context,
        )
    } else {
        phrases
    }
}

/// Some phrase accounts for what is read as a disjunction.
proof fn lemma_disjunction_is_written(
    tokens: Seq<Seq<char>>,
    pos: int,
    depth: nat,
    context: Context,
) -> (phrase: Phrase)
    requires
        0 <= pos,
        depth <= grammar::MAX_NESTING,
        grammar::disjunction(tokens, pos, depth, context) is Ok,
    ensures
        accounts(
            phrase,
            3,
            tokens,
            pos,
            depth,
            context,
            grammar::disjunction(tokens, pos, depth, context)->Ok_0,
        ),
    decreases tokens.len() - pos, 5int,
{
    let outcome = grammar::conjunction(tokens, pos, depth, context)->Ok_0;
    let first = lemma_conjunction_is_written(tokens, pos, depth, context);
    lemma_first_part(first, 2, "OR"@, tokens, pos, depth, context, outcome);
    let parts = lemma_disjuncts_are_written(
        seq![first],
        seq![outcome.0],
        tokens,
        pos,
        outcome.1,
        depth,
        context,
    );
    lemma_meanings_len(parts, context);
    if parts.len() == 1 {
        assert(meanings(parts, context)[0] == meaning(parts[0], context));
        parts[0]
    } else {
        Phrase::Or(parts)
    }
}

/// What reading comes to where parentheses nest too deep.
pub open spec fn too_deep() -> grammar::ErrorView {
    grammar::ErrorView::IncorrectFormat("parentheses nested too deeply (maximum 128)"@)
}

/// The first part that nests too deep, and those before it.
proof fn lemma_first_deep_part(parts: Seq<Phrase>, levels: int) -> (k: int)
    requires
        !all_nest_within(parts, levels),
    ensures
        0 <= k < parts.len(),
        !nests_within(parts[k], levels),
        all_nest_within(parts.take(k), levels),
    decreases parts.len(),
{
    if all_nest_within(parts.drop_last(), levels) {
        assert(parts.take(parts.len() - 1) =~= parts.drop_last());
        parts.len() - 1
    } else {
        let k = lemma_first_deep_part(parts.drop_last(), levels);
        assert(parts.drop_last().take(k) =~= parts.take(k));
        k
    }
}

/// Reading on to a part of a conjunction that nests too deep fails.
proof fn lemma_deep_conjunct(
    tokens: Seq<Seq<char>>,
    pos: int,
    depth: nat,
    context: Context,
    parts: Seq<Phrase>,
    k: int,
    deep: int,
)
    requires
        depth <= grammar::MAX_NESTING,
        1 <= k <= deep < parts.len(),
        stands(tokens, pos, written_list(parts, "AND"@)),
        proper_list(parts, 1, context),
        all_nest_within(parts.take(deep), grammar::MAX_NESTING - depth),
        !nests_within(parts[deep], grammar::MAX_NESTING - depth),
    ensures
        grammar::more_conjuncts(
            meanings(parts.take(k), context),
            tokens,
            pos + written_list(parts.take(k), "AND"@).len(),
            depth,
            context,
        ) == Err::<(Seq<QueryView>, int), _>(too_deep()),
    decreases parts, 1int, parts.len() - k,
{
    let end = pos + written_list(parts.take(k), "AND"@).len();
    let next = parts.take(k + 1);
    lemma_part(tokens, pos, context, parts, 1, "AND"@, k);
    lemma_after_part(tokens, pos, parts, "AND"@, k);
    assert(decreases_to!(parts => parts[k]));
    if k == deep {
        lemma_refused(tokens, end + 1, depth, context, parts[k]);
    } else {
        lemma_nested_part(parts, deep, k, grammar::MAX_NESTING - depth);
        lemma_reading(tokens, end + 1, depth, context, parts[k]);
        assert(next.drop_last() =~= parts.take(k));
        lemma_deep_conjunct(tokens, pos, depth, context, parts, k + 1, deep);
    }
}

/// Reading on to a part of a disjunction that nests too deep fails.
proof fn lemma_deep_disjunct(
    tokens: Seq<Seq<char>>,
    pos: int,
    depth: nat,
    context: Context,
    parts: Seq<Phrase>,
    k: int,
    deep: int,
)
    requires
        depth <= grammar::MAX_NESTING,
        1 <= k <= deep < parts.len(),
        stands(tokens, pos, written_list(parts, "OR"@)),
        proper_list(parts, 2, context),
        all_nest_within(parts.take(deep), grammar::MAX_NESTING - depth),
        !nests_within(parts[deep], grammar::MAX_NESTING - depth),
    ensures
        grammar::more_disjuncts(
            meanings(parts.take(k), context),
            tokens,
            pos + written_list(parts.take(k), "OR"@).len(),
            depth,
            context,
        ) == Err::<(Seq<QueryView>, int), _>(too_deep()),
    decreases parts, 1int, parts.len() - k,
{
    let end = pos + written_list(parts.take(k), "OR"@).len();
    let next = parts.take(k + 1);
    lemma_part(tokens, pos, context, parts, 2, "OR"@, k);
    lemma_after_part(tokens, pos, parts, "OR"@, k);
    assert(decreases_to!(parts => parts[k]));
    if k == deep {
        lemma_refused(tokens, end + 1, depth, context, parts[k]);
    } else {
        lemma_nested_part(parts, deep, k, grammar::MAX_NESTING - depth);
        lemma_reading(tokens, end + 1, depth, context, parts[k]);
        assert(next.drop_last() =~= parts.take(k));
        lemma_after_part(tokens, pos, parts, "OR"@, k + 1);
        reveal_strlit("AND");
        reveal_strlit("OR");
        assert("AND"@.len() != "OR"@.len());
        lemma_deep_disjunct(tokens, pos, depth, context, parts, k + 1, deep);
    }
}

/// A part of a list that stands: where it stands, and that it is proper.
proof fn lemma_part(
    tokens: Seq<Seq<char>>,
    pos: int,
    context: Context,
    parts: Seq<Phrase>,
    loosest: nat,
    word: Seq<char>,
    k: int,
)
    requires
        0 <= k < parts.len(),
        stands(tokens, pos, written_list(parts, word)),
        proper_list(parts, loosest, context),
    ensures
        proper(parts[k], context),
        looseness(parts[k]) <= loosest,
        ({
            let start = if k == 0 {
                pos
            } else {
                pos + written_list(parts.take(k), word).len() + 1
            };
            &&& stands(tokens, start, written(parts[k]))
            &&& start + written(parts[k]).len() == pos + written_list(
                parts.take(k + 1),
                word,
            ).len()
        }),
{
    let next = parts.take(k + 1);
    lemma_after_part(tokens, pos, parts, word, k + 1);
    lemma_list_stands(tokens, pos, next, word);
    assert(next.drop_last() =~= parts.take(k));
    assert(next.last() == parts[k]);
    lemma_proper_prefix(parts, loosest, context, k + 1);
}

/// The first phrases of proper ones are proper.
proof fn lemma_proper_prefix(parts: Seq<Phrase>, loosest: nat, context: Context, k: int)
    requires
        0 <= k <= parts.len(),
        proper_list(parts, loosest, context),
    ensures
        proper_list(parts.take(k), loosest, context),
    decreases parts.len() - k,
{
    if k == parts.len() {
        assert(parts.take(k) =~= parts);
    } else {
        lemma_proper_prefix(parts, loosest, context, k + 1);
        assert(parts.take(k + 1).drop_last() =~= parts.take(k));
    }
}

/// A phrase before one that nests too deep does not.
proof fn lemma_nested_part(parts: Seq<Phrase>, deep: int, k: int, levels: int)
    requires
        0 <= k < deep <= parts.len(),
        all_nest_within(parts.take(deep), levels),
    ensures
        nests_within(parts[k], levels),
    decreases deep,
{
    let before = parts.take(deep);
    assert(before.drop_last() =~= parts.take(deep - 1));
    assert(before.last() == parts[deep - 1]);
    if k < deep - 1 {
        lemma_nested_part(parts, deep - 1, k, levels);
    }
}

/// A proper phrase that nests too deep is refused by every rule that admits it.
proof fn lemma_refused(
    tokens: Seq<Seq<char>>,
    pos: int,
    depth: nat,
    context: Context,
    phrase: Phrase,
)
    requires
        depth <= grammar::MAX_NESTING,
        stands(tokens, pos, written(phrase)),
        proper(phrase, context),
        !nests_within(phrase, grammar::MAX_NESTING - depth),
    ensures
        ({
            let refused = Err::<(QueryView, int), _>(too_deep());
            &&& looseness(phrase) <= 0 ==> grammar::primary(tokens, pos, depth, context) == refused
            &&& looseness(phrase) <= 1 ==> grammar::negation(tokens, pos, depth, context) == refused
            &&& looseness(phrase) <= 2 ==> grammar::conjunction(tokens, pos, depth, context)
                == refused
            &&& grammar::disjunction(tokens, pos, depth, context) == refused
        }),
    decreases phrase, 0int, 0int,
{
    let all = written(phrase);
    reveal_strlit("(");
    reveal_strlit("NOT");
    match phrase {
        Phrase::Comparison(..) => {},
        Phrase::Group(inner) => {
            let inside = written(*inner);
            assert(all[0] == "("@);
            assert("("@.len() != "NOT"@.len());
            if depth < grammar::MAX_NESTING {
                assert forall|i: int| 0 <= i < inside.len() implies #[trigger] inside[i]
                    == tokens[pos + 1 + i] by {
                    assert(all[i + 1] == inside[i]);
                }
                lemma_refused(tokens, pos + 1, depth + 1, context, *inner);
            }
        },
        Phrase::Not(nots, inner) => {
            lemma_nots_stand(tokens, pos, context, nots, *inner);
            lemma_refused(tokens, pos + nots, depth, context, *inner);
        },
        Phrase::And(parts) => {
            let deep = lemma_first_deep_part(parts, grammar::MAX_NESTING - depth);
            lemma_part(tokens, pos, context, parts, 1, "AND"@, 0);
            assert(decreases_to!(parts => parts[0]));
            if deep == 0 {
                lemma_refused(tokens, pos, depth, context, parts[0]);
            } else {
                lemma_nested_part(parts, deep, 0, grammar::MAX_NESTING - depth);
                lemma_reading(tokens, pos, depth, context, parts[0]);
                lemma_deep_conjunct(tokens, pos, depth, context, parts, 1, deep);
                lemma_one_meaning(parts, context);
            }
        },
        Phrase::Or(parts) => {
            let deep = lemma_first_deep_part(parts, grammar::MAX_NESTING - depth);
            lemma_part(tokens, pos, context, parts, 2, "OR"@, 0);
            assert(decreases_to!(parts => parts[0]));
            if deep == 0 {
                lemma_refused(tokens, pos, depth, context, parts[0]);
            } else {
                lemma_nested_part(parts, deep, 0, grammar::MAX_NESTING - depth);
                lemma_reading(tokens, pos, depth, context, parts[0]);
                lemma_after_part(tokens, pos, parts, "OR"@, 1);
                reveal_strlit("AND");
                reveal_strlit("OR");
                assert("AND"@.len() != "OR"@.len());
                lemma_deep_disjunct(tokens, pos, depth, context, parts, 1, deep);
                lemma_one_meaning(parts, context);
            }
        },
    }
}

/// What the first of some phrases means.
proof fn lemma_one_meaning(parts: Seq<Phrase>, context: Context)
    requires
        parts.len() > 0,
    ensures
        meanings(parts.take(1), context) == seq![meaning(parts[0], context)],
{
    reveal_with_fuel(meanings, 2);
    assert(parts.take(1).drop_last() =~= Seq::empty());
    assert(meanings(parts.take(1), context) =~= seq![meaning(parts[0], context)]);
}

/// A filter whose parentheses nest deeper than 128 levels is refused, whatever follows it.
pub proof fn law_deep_nesting_is_refused(
    phrase: Phrase,
    rest: Seq<Seq<char>>,
    context: Context,
)
    requires
        proper(phrase, context),
        !nests_within(phrase, grammar::MAX_NESTING as int),
        written(phrase)[0] != "|"@,
    ensures
        grammar::plan_of(written(phrase) + rest, context) == Err::<PlanView, _>(too_deep()),
{
    let tokens = written(phrase) + rest;
    assert forall|i: int| 0 <= i < written(phrase).len() implies #[trigger] written(phrase)[i]
        == tokens[0 + i] by {}
    lemma_refused(tokens, 0, 0, context, phrase);
    assert(written(phrase).len() > 0) by {
        reveal_with_fuel(written, 2);
        reveal_with_fuel(written_list, 2);
    }
    assert(tokens[0] == written(phrase)[0]);
}

} // verus!
