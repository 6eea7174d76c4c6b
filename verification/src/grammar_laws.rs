//! Laws of the query language.

use crate::arithmetic;
use crate::grammar;
use crate::grammar::Context;
use crate::query;
use crate::query::{AggregationView, QueryView};
use crate::text;
use vstd::prelude::*;

verus! {

/// How many levels deep a filter may nest that is read as a primary inside so many parentheses.
pub open spec fn levels_left(depth: nat) -> int {
    3 * (grammar::MAX_NESTING - depth) + 1
}

/// Whether a filter can be run, nests at most so deep, and keeps the time apart.
spec fn sound(query: QueryView, levels: int, context: Context) -> bool {
    &&& query::well_formed(query)
    &&& query::within(query, levels)
    &&& query::keeps_time_apart(query, context.time_field)
}

/// Whether every part of a list is sound.
spec fn all_sound(parts: Seq<QueryView>, levels: int, context: Context) -> bool {
    forall|i: int| 0 <= i < parts.len() ==> sound(#[trigger] parts[i], levels, context)
}

/// What nests at most so deep nests at most deeper.
proof fn lemma_within_more(query: QueryView, a: int, b: int)
    requires
        query::within(query, a),
        a <= b,
    ensures
        query::within(query, b),
    decreases query,
{
    match query {
        QueryView::And(parts) => {
            assert forall|i: int| 0 <= i < parts.len() implies query::within(
                #[trigger] parts[i],
                b - 1,
            ) by {
                lemma_within_more(parts[i], a - 1, b - 1);
            }
        },
        QueryView::Or(parts) => {
            assert forall|i: int| 0 <= i < parts.len() implies query::within(
                #[trigger] parts[i],
                b - 1,
            ) by {
                lemma_within_more(parts[i], a - 1, b - 1);
            }
        },
        QueryView::Not(inner) => {
            lemma_within_more(*inner, a - 1, b - 1);
        },
        _ => {},
    }
}

/// Several sound filters, or one alone, make a sound conjunction and a sound disjunction.
proof fn lemma_sound_parts(parts: Seq<QueryView>, levels: int, context: Context)
    requires
        parts.len() > 0,
        levels > 0,
        all_sound(parts, levels, context),
    ensures
        sound(grammar::all_of(parts), levels + 1, context),
        sound(grammar::any_of(parts), levels + 1, context),
{
    assert(sound(parts[0], levels, context));
    assert(QueryView::And(parts)->And_0 == parts);
    assert(QueryView::Or(parts)->Or_0 == parts);
    assert forall|i: int| 0 <= i < parts.len() implies query::within(#[trigger] parts[i], levels)
        && query::well_formed(parts[i]) && query::keeps_time_apart(
        parts[i],
        context.time_field,
    ) by {
        assert(sound(parts[i], levels, context));
    }
    lemma_within_more(parts[0], levels, levels + 1);
}

proof fn lemma_primary_sound(tokens: Seq<Seq<char>>, pos: int, depth: nat, context: Context)
    requires
        0 <= pos <= tokens.len(),
        depth <= grammar::MAX_NESTING,
    ensures
        grammar::primary(tokens, pos, depth, context) matches Ok((query, end)) ==> sound(
            query,
            levels_left(depth),
            context,
        ) && pos < end <= tokens.len(),
    decreases tokens.len() - pos, 0int,
{
    if grammar::token_is(tokens, pos, "("@) && depth < grammar::MAX_NESTING {
        lemma_disjunction_sound(tokens, pos + 1, depth + 1, context);
    }
}

proof fn lemma_negation_sound(tokens: Seq<Seq<char>>, pos: int, depth: nat, context: Context)
    requires
        0 <= pos <= tokens.len(),
        depth <= grammar::MAX_NESTING,
    ensures
        grammar::negation(tokens, pos, depth, context) matches Ok((query, end)) ==> sound(
            query,
            levels_left(depth) + 1,
            context,
        ) && pos < end <= tokens.len(),
    decreases tokens.len() - pos, 1int,
{
    let nots = grammar::leading_nots(tokens, pos);
    grammar::lemma_leading_nots(tokens, pos);
    lemma_primary_sound(tokens, pos + nots, depth, context);
    if let Ok((inner, _)) = grammar::primary(tokens, pos + nots, depth, context) {
        assert(QueryView::Not(Box::new(inner))->Not_0 == Box::new(inner));
        lemma_within_more(inner, levels_left(depth), levels_left(depth) + 1);
    }
}

proof fn lemma_conjuncts_sound(
    parts: Seq<QueryView>,
    tokens: Seq<Seq<char>>,
    pos: int,
    depth: nat,
    context: Context,
)
    requires
        0 <= pos <= tokens.len(),
        depth <= grammar::MAX_NESTING,
        all_sound(parts, levels_left(depth) + 1, context),
    ensures
        grammar::more_conjuncts(parts, tokens, pos, depth, context) matches Ok((all, end))
            ==> all_sound(all, levels_left(depth) + 1, context) && all.len() >= parts.len() && pos
            <= end <= tokens.len(),
    decreases tokens.len() - pos, 2int,
{
    if grammar::token_is(tokens, pos, "AND"@) {
        lemma_negation_sound(tokens, pos + 1, depth, context);
        if let Ok((next, end)) = grammar::negation(tokens, pos + 1, depth, context) {
            lemma_conjuncts_sound(parts.push(next), tokens, end, depth, context);
        }
    }
}

proof fn lemma_conjunction_sound(tokens: Seq<Seq<char>>, pos: int, depth: nat, context: Context)
    requires
        0 <= pos <= tokens.len(),
        depth <= grammar::MAX_NESTING,
    ensures
        grammar::conjunction(tokens, pos, depth, context) matches Ok((query, end)) ==> sound(
            query,
            levels_left(depth) + 2,
            context,
        ) && pos < end <= tokens.len(),
    decreases tokens.len() - pos, 3int,
{
    lemma_negation_sound(tokens, pos, depth, context);
    if let Ok((first, end)) = grammar::negation(tokens, pos, depth, context) {
        lemma_conjuncts_sound(seq![first], tokens, end, depth, context);
        if let Ok((parts, _)) = grammar::more_conjuncts(
            seq![first],
            tokens,
            end,
            depth,
            context,
        ) {
            lemma_sound_parts(parts, levels_left(depth) + 1, context);
        }
    }
}

proof fn lemma_disjuncts_sound(
    parts: Seq<QueryView>,
    tokens: Seq<Seq<char>>,
    pos: int,
    depth: nat,
    context: Context,
)
    requires
        0 <= pos <= tokens.len(),
        depth <= grammar::MAX_NESTING,
        all_sound(parts, levels_left(depth) + 2, context),
    ensures
        grammar::more_disjuncts(parts, tokens, pos, depth, context) matches Ok((all, end))
            ==> all_sound(all, levels_left(depth) + 2, context) && all.len() >= parts.len() && pos
            <= end <= tokens.len(),
    decreases tokens.len() - pos, 4int,
{
    if grammar::token_is(tokens, pos, "OR"@) {
        lemma_conjunction_sound(tokens, pos + 1, depth, context);
        if let Ok((next, end)) = grammar::conjunction(tokens, pos + 1, depth, context) {
            lemma_disjuncts_sound(parts.push(next), tokens, end, depth, context);
        }
    }
}

proof fn lemma_disjunction_sound(tokens: Seq<Seq<char>>, pos: int, depth: nat, context: Context)
    requires
        0 <= pos <= tokens.len(),
        depth <= grammar::MAX_NESTING,
    ensures
        grammar::disjunction(tokens, pos, depth, context) matches Ok((query, end)) ==> sound(
            query,
            levels_left(depth) + 3,
            context,
        ) && pos < end <= tokens.len(),
    decreases tokens.len() - pos, 5int,
{
    lemma_conjunction_sound(tokens, pos, depth, context);
    if let Ok((first, end)) = grammar::conjunction(tokens, pos, depth, context) {
        lemma_disjuncts_sound(seq![first], tokens, end, depth, context);
        if let Ok((parts, _)) = grammar::more_disjuncts(
            seq![first],
            tokens,
            end,
            depth,
            context,
        ) {
            lemma_sound_parts(parts, levels_left(depth) + 2, context);
        }
    }
}

/// A query that can be read can be run: each conjunction in it has a part, each time range ends
/// after it starts, and a percentile's fraction lies above zero and is at most one. It has an
/// aggregation or a limit, not both.
pub proof fn law_parsed_plans_can_run(tokens: Seq<Seq<char>>, context: Context)
    ensures
        grammar::plan_of(tokens, context) matches Ok(plan) ==> {
            &&& query::well_formed(plan.query)
            &&& !(plan.aggregation is Some && plan.limit is Some)
            &&& plan.aggregation matches Some(AggregationView::Percentage(_, p))
                ==> arithmetic::is_fraction(p)
        },
{
    assert forall|n: nat| 1 <= n <= 100 implies arithmetic::is_fraction(
        #[trigger] arithmetic::fraction(n) as u32,
    ) by {
        arithmetic::lemma_fraction_bounds(n);
    }
    if tokens.len() > 0 {
        lemma_disjunction_sound(tokens, 0, 0, context);
    }
}

/// How many levels deep a query may nest.
pub const MAX_LEVELS: usize = 388;

/// A query that can be read nests a bounded number of levels deep, however long it is.
pub proof fn law_parsed_queries_are_shallow(tokens: Seq<Seq<char>>, context: Context)
    ensures
        grammar::plan_of(tokens, context) matches Ok(plan) ==> query::within(
            plan.query,
            MAX_LEVELS as int,
        ),
{
    if tokens.len() > 0 {
        lemma_disjunction_sound(tokens, 0, 0, context);
    }
}

/// The field that holds the time is asked for by time ranges alone, and every other field by
/// comparisons alone: where none holds the time there is no time range, and where one does there is
/// no comparison with it.
pub proof fn law_time_is_kept_apart(tokens: Seq<Seq<char>>, context: Context)
    ensures
        grammar::plan_of(tokens, context) matches Ok(plan) ==> query::keeps_time_apart(
            plan.query,
            context.time_field,
        ),
{
    if tokens.len() > 0 {
        lemma_disjunction_sound(tokens, 0, 0, context);
    }
}

/// Whether a text can be a token: a parenthesis, or a word without whitespace and parentheses.
pub open spec fn is_token(token: Seq<char>) -> bool {
    ||| token == seq!['(']
    ||| token == seq![')']
    ||| token.len() > 0 && forall|i: int|
        0 <= i < token.len() ==> !text::is_whitespace(#[trigger] token[i])
            && !grammar::is_parenthesis(token[i])
}

/// Texts one after another.
pub open spec fn glued(tokens: Seq<Seq<char>>) -> Seq<char>
    decreases tokens.len(),
{
    if tokens.len() == 0 {
        Seq::empty()
    } else {
        glued(tokens.drop_last()) + tokens.last()
    }
}

/// A text without its whitespace.
pub open spec fn without_whitespace(text: Seq<char>) -> Seq<char> {
    text.filter(|c: char| !text::is_whitespace(c))
}

proof fn lemma_with_word(tokens: Seq<Seq<char>>, word: Seq<char>)
    requires
        forall|i: int| 0 <= i < tokens.len() ==> is_token(#[trigger] tokens[i]),
        word.len() > 0 ==> is_token(word),
    ensures
        forall|i: int|
            0 <= i < grammar::with_word(tokens, word).len() ==> is_token(
                #[trigger] grammar::with_word(tokens, word)[i],
            ),
        glued(grammar::with_word(tokens, word)) == glued(tokens) + word,
{
    assert(tokens.push(word).drop_last() =~= tokens);
    assert(glued(grammar::with_word(tokens, word)) =~= glued(tokens) + word);
}

proof fn lemma_scanned(text: Seq<char>)
    ensures
        ({
            let (tokens, word) = grammar::scanned(text);
            &&& forall|i: int| 0 <= i < tokens.len() ==> is_token(#[trigger] tokens[i])
            &&& forall|i: int|
                0 <= i < word.len() ==> !text::is_whitespace(#[trigger] word[i])
                    && !grammar::is_parenthesis(word[i])
            &&& glued(tokens) + word == without_whitespace(text)
        }),
    decreases text.len(),
{
    reveal(Seq::filter);
    if text.len() == 0 {
        assert(glued(Seq::<Seq<char>>::empty()) + Seq::<char>::empty() =~= without_whitespace(
            text,
        ));
    } else {
        let shorter = text.drop_last();
        let c = text.last();
        lemma_scanned(shorter);
        let (tokens, word) = grammar::scanned(shorter);
        lemma_with_word(tokens, word);
        let all = grammar::with_word(tokens, word);
        if text::is_whitespace(c) {
            assert(glued(all) + Seq::<char>::empty() =~= without_whitespace(text));
        } else if grammar::is_parenthesis(c) {
            lemma_with_word(all, seq![c]);
            assert(grammar::with_word(all, seq![c]) == all.push(seq![c]));
            assert(glued(all.push(seq![c])) + Seq::<char>::empty() =~= without_whitespace(text));
        } else {
            assert(glued(tokens) + word.push(c) =~= without_whitespace(text));
        }
    }
}

/// Tokens leave nothing out but whitespace: each is a parenthesis or a word, and one after another
/// they are the text without its whitespace.
pub proof fn law_tokens(text: Seq<char>)
    ensures
        forall|i: int|
            0 <= i < grammar::tokens_of(text).len() ==> is_token(
                #[trigger] grammar::tokens_of(text)[i],
            ),
        glued(grammar::tokens_of(text)) == without_whitespace(text),
{
    lemma_scanned(text);
    let (tokens, word) = grammar::scanned(text);
    lemma_with_word(tokens, word);
}

/// Tokens with a space between each two.
pub open spec fn spaced(tokens: Seq<Seq<char>>) -> Seq<char>
    decreases tokens.len(),
{
    if tokens.len() == 0 {
        Seq::empty()
    } else if tokens.len() == 1 {
        tokens[0]
    } else {
        spaced(tokens.drop_last()).push(' ') + tokens.last()
    }
}

/// A text with a space on either side of each parenthesis.
pub open spec fn with_loose_parentheses(text: Seq<char>) -> Seq<char>
    decreases text.len(),
{
    if text.len() == 0 {
        Seq::empty()
    } else {
        let before = with_loose_parentheses(text.drop_last());
        if grammar::is_parenthesis(text.last()) {
            before.push(' ').push(text.last()).push(' ')
        } else {
            before.push(text.last())
        }
    }
}

/// A token behind a text that ends a token is scanned as that token.
proof fn lemma_scanned_token(text: Seq<char>, token: Seq<char>)
    requires
        grammar::scanned(text).1.len() == 0,
        is_token(token),
    ensures
        grammar::tokens_of(text + token) == grammar::scanned(text).0.push(token),
{
    let tokens = grammar::scanned(text).0;
    if token.len() == 1 && grammar::is_parenthesis(token[0]) {
        let all = text + token;
        assert(all.drop_last() =~= text);
        assert(seq![all.last()] =~= token);
        assert(!text::is_whitespace(token[0]));
    } else {
        lemma_scanned_word(text, token);
    }
}

/// A word behind a text that ends a token is scanned as a word.
proof fn lemma_scanned_word(text: Seq<char>, word: Seq<char>)
    requires
        grammar::scanned(text).1.len() == 0,
        forall|i: int|
            0 <= i < word.len() ==> !text::is_whitespace(#[trigger] word[i])
                && !grammar::is_parenthesis(word[i]),
    ensures
        grammar::scanned(text + word) == (grammar::scanned(text).0, word),
    decreases word.len(),
{
    if word.len() == 0 {
        assert(text + word =~= text);
        assert(grammar::scanned(text).1 =~= word);
    } else {
        let shorter = word.drop_last();
        assert forall|i: int| 0 <= i < shorter.len() implies !text::is_whitespace(
            #[trigger] shorter[i],
        ) && !grammar::is_parenthesis(shorter[i]) by {
            assert(shorter[i] == word[i]);
        }
        lemma_scanned_word(text, shorter);
        let all = text + word;
        assert(all.drop_last() =~= text + shorter);
        assert(all.last() == word[word.len() - 1]);
        assert(shorter.push(word.last()) =~= word);
    }
}

/// Tokens that are written with spaces between them are read as those tokens.
pub proof fn law_spaced_tokens_are_read_back(tokens: Seq<Seq<char>>)
    requires
        forall|i: int| 0 <= i < tokens.len() ==> is_token(#[trigger] tokens[i]),
    ensures
        grammar::tokens_of(spaced(tokens)) == tokens,
    decreases tokens.len(),
{
    if tokens.len() == 0 {
        assert(grammar::tokens_of(spaced(tokens)) =~= tokens);
    } else {
        let last = tokens[tokens.len() - 1];
        let front = tokens.drop_last();
        assert forall|i: int| 0 <= i < front.len() implies is_token(#[trigger] front[i]) by {
            assert(front[i] == tokens[i]);
        }
        assert(front.push(last) =~= tokens);
        if tokens.len() == 1 {
            let none = Seq::<char>::empty();
            lemma_scanned_token(none, last);
            assert(none + last =~= last);
            assert(grammar::scanned(none).0 =~= front);
        } else {
            law_spaced_tokens_are_read_back(front);
            let text = spaced(front).push(' ');
            assert(text.drop_last() =~= spaced(front));
            assert(text::is_whitespace(' '));
            assert(grammar::scanned(text) == (front, Seq::<char>::empty()));
            lemma_scanned_token(text, last);
        }
    }
}

/// Neither the amount of whitespace between tokens nor whitespace around parentheses matters:
/// writing a query's tokens with a space between each two, or spaces on either side of its
/// parentheses, leaves its tokens as they are.
pub proof fn law_spacing_does_not_matter(text: Seq<char>)
    ensures
        grammar::tokens_of(spaced(grammar::tokens_of(text))) == grammar::tokens_of(text),
        grammar::tokens_of(with_loose_parentheses(text)) == grammar::tokens_of(text),
{
    law_tokens(text);
    law_spaced_tokens_are_read_back(grammar::tokens_of(text));
    lemma_loose_parentheses(text);
}

proof fn lemma_loose_parentheses(text: Seq<char>)
    ensures
        grammar::scanned(with_loose_parentheses(text)) == grammar::scanned(text),
    decreases text.len(),
{
    if text.len() > 0 {
        let c = text.last();
        let before = with_loose_parentheses(text.drop_last());
        lemma_loose_parentheses(text.drop_last());
        assert(text::is_whitespace(' '));
        if grammar::is_parenthesis(c) {
            assert(!text::is_whitespace(c));
            let first = before.push(' ');
            let second = first.push(c);
            let third = second.push(' ');
            assert(first.drop_last() =~= before);
            assert(second.drop_last() =~= first);
            assert(third.drop_last() =~= second);
            let (tokens, word) = grammar::scanned(before);
            let all = grammar::with_word(tokens, word);
            assert(grammar::scanned(first) == (all, Seq::<char>::empty()));
            assert(grammar::scanned(second) == (all.push(seq![c]), Seq::<char>::empty()));
            assert(grammar::scanned(third) == grammar::scanned(second));
            assert(grammar::scanned(text) == (all.push(seq![c]), Seq::<char>::empty()));
            assert(with_loose_parentheses(text) == third);
        } else {
            assert(before.push(c).drop_last() =~= before);
        }
    }
}

/// A word of characters that are neither whitespace nor `(` or `)` is one token, whatever they are.
/// Of ASCII, the space and what moves the cursor are whitespace, and nothing that prints is.
pub proof fn law_words_are_tokens(word: Seq<char>, c: char)
    requires
        word.len() > 0,
        forall|i: int|
            0 <= i < word.len() ==> !text::is_whitespace(#[trigger] word[i]) && word[i] != '('
                && word[i] != ')',
    ensures
        grammar::tokens_of(word) == seq![word],
        (c as u32) < 128 ==> (text::is_whitespace(c) <==> c as u32 == 32 || 9 <= c as u32 <= 13),
{
    let one = seq![word];
    assert(is_token(word));
    assert(spaced(one) == word);
    law_spaced_tokens_are_read_back(one);
}

} // verus!
