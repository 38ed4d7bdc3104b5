//! The duplicate resolver: of the tokens that carry the same text, keeps one.

use crate::token::{Node, QueryRule, Token};
use vstd::hash_map::StringHashMap;
use vstd::prelude::*;

verus! {

/// True when no token before position `at` has the text of the token at `at`.
pub open spec fn is_first(tokens: Seq<Token>, at: int) -> bool {
    forall|j: int| 0 <= j < at ==> (#[trigger] tokens[j]).text != tokens[at].text
}

/// True when no token after position `at` has the text of the token at `at`.
pub open spec fn is_last(tokens: Seq<Token>, at: int) -> bool {
    forall|j: int| at < j < tokens.len() ==> (#[trigger] tokens[j]).text != tokens[at].text
}

/// True when the token at position `at` is the one kept for its text: the
/// first with that text under `FirstWins`, the last under `LastWins`.
pub open spec fn survives(tokens: Seq<Token>, rule: QueryRule, at: int) -> bool {
    match rule {
        QueryRule::FirstWins => is_first(tokens, at),
        QueryRule::LastWins => is_last(tokens, at),
    }
}

/// The tokens kept among the first `upto` of `tokens`, in the order of
/// `tokens`.
pub open spec fn survivors(tokens: Seq<Token>, rule: QueryRule, upto: int) -> Seq<Token>
    decreases upto,
{
    if upto <= 0 {
        Seq::empty()
    } else if survives(tokens, rule, upto - 1) {
        survivors(tokens, rule, upto - 1).push(tokens[upto - 1])
    } else {
        survivors(tokens, rule, upto - 1)
    }
}

/// The tokens that the resolver keeps: for each text, the one that survives
/// under `rule`, in the order in which the kept tokens stand in `tokens`.
pub open spec fn resolve(tokens: Seq<Token>, rule: QueryRule) -> Seq<Token> {
    survivors(tokens, rule, tokens.len() as int)
}

/// True when some token of `tokens` has the text `text`.
pub open spec fn has_text(tokens: Seq<Token>, text: Seq<char>) -> bool {
    exists|j: int| 0 <= j < tokens.len() && (#[trigger] tokens[j]).text == text
}

/// `tokens` without those whose text is `text`.
spec fn without_text(tokens: Seq<Token>, text: Seq<char>) -> Seq<Token>
    decreases tokens.len(),
{
    if tokens.len() == 0 {
        Seq::empty()
    } else if tokens.last().text == text {
        without_text(tokens.drop_last(), text)
    } else {
        without_text(tokens.drop_last(), text).push(tokens.last())
    }
}

/// The place in the output of the token at position `at`, if it is kept:
/// the number of tokens kept before it.
pub open spec fn place(tokens: Seq<Token>, rule: QueryRule, at: int) -> int {
    survivors(tokens, rule, at).len() as int
}

/// The tokens kept among the first few are the first of those kept among
/// more.
proof fn lemma_survivors_grow(tokens: Seq<Token>, rule: QueryRule, lower: int, upper: int)
    requires
        0 <= lower <= upper,
    ensures
        survivors(tokens, rule, lower).len() <= survivors(tokens, rule, upper).len(),
        forall|k: int|
            0 <= k < survivors(tokens, rule, lower).len() ==> survivors(tokens, rule, upper)[k]
                == survivors(tokens, rule, lower)[k],
    decreases upper - lower,
{
    if lower < upper {
        lemma_survivors_grow(tokens, rule, lower, upper - 1);
    }
}

/// A kept token stands in the output at its place.
pub proof fn lemma_kept_place(tokens: Seq<Token>, rule: QueryRule, at: int)
    requires
        0 <= at < tokens.len(),
        survives(tokens, rule, at),
    ensures
        0 <= place(tokens, rule, at) < resolve(tokens, rule).len(),
        resolve(tokens, rule)[place(tokens, rule, at)] == tokens[at],
{
    lemma_survivors_grow(tokens, rule, at + 1, tokens.len() as int);
}

/// The kept tokens stand in the output in the order of the input: a kept
/// token comes before every token kept after it.
pub proof fn lemma_kept_order(tokens: Seq<Token>, rule: QueryRule, earlier: int, later: int)
    requires
        0 <= earlier < later,
        survives(tokens, rule, earlier),
    ensures
        place(tokens, rule, earlier) < place(tokens, rule, later),
{
    lemma_survivors_grow(tokens, rule, earlier + 1, later);
}

/// The position in `tokens` of the kept token that stands at place `k` of
/// the tokens kept among the first `upto`.
proof fn lemma_origin_upto(tokens: Seq<Token>, rule: QueryRule, upto: int, k: int) -> (at: int)
    requires
        0 <= k < survivors(tokens, rule, upto).len(),
    ensures
        0 <= at < upto,
        survives(tokens, rule, at),
        place(tokens, rule, at) == k,
        tokens[at] == survivors(tokens, rule, upto)[k],
    decreases upto,
{
    if k < survivors(tokens, rule, upto - 1).len() {
        lemma_origin_upto(tokens, rule, upto - 1, k)
    } else {
        upto - 1
    }
}

/// Every token of the output is a kept token of the input, at its place.
pub proof fn lemma_kept_origin(tokens: Seq<Token>, rule: QueryRule, k: int) -> (at: int)
    requires
        0 <= k < resolve(tokens, rule).len(),
    ensures
        0 <= at < tokens.len(),
        survives(tokens, rule, at),
        place(tokens, rule, at) == k,
        tokens[at] == resolve(tokens, rule)[k],
{
    lemma_origin_upto(tokens, rule, tokens.len() as int, k)
}

/// No two tokens of the output have the same text.
pub proof fn lemma_resolve_distinct(tokens: Seq<Token>, rule: QueryRule)
    ensures
        forall|a: int, b: int|
            0 <= a < b < resolve(tokens, rule).len() ==> (#[trigger] resolve(tokens, rule)[a]).text
                != (#[trigger] resolve(tokens, rule)[b]).text,
{
    let out = resolve(tokens, rule);
    assert forall|a: int, b: int| 0 <= a < b < out.len() implies (#[trigger] out[a]).text != (
    #[trigger] out[b]).text by {
        let from_a = lemma_kept_origin(tokens, rule, a);
        let from_b = lemma_kept_origin(tokens, rule, b);
        if from_b < from_a {
            lemma_kept_order(tokens, rule, from_b, from_a);
        }
    }
}

/// The position of the token that is kept for the text of the token at
/// `at`: not after `at` under `FirstWins`, not before it under `LastWins`.
proof fn lemma_winner(tokens: Seq<Token>, rule: QueryRule, at: int) -> (winner: int)
    requires
        0 <= at < tokens.len(),
    ensures
        0 <= winner < tokens.len(),
        survives(tokens, rule, winner),
        tokens[winner].text == tokens[at].text,
        rule == QueryRule::FirstWins ==> winner <= at,
        rule == QueryRule::LastWins ==> winner >= at,
    decreases
        match rule {
            QueryRule::FirstWins => at,
            QueryRule::LastWins => tokens.len() - at,
        },
{
    if survives(tokens, rule, at) {
        at
    } else {
        match rule {
            QueryRule::FirstWins => {
                let j = choose|j: int| 0 <= j < at && (#[trigger] tokens[j]).text == tokens[at].text;
                lemma_winner(tokens, rule, j)
            },
            QueryRule::LastWins => {
                let j = choose|j: int|
                    at < j < tokens.len() && (#[trigger] tokens[j]).text == tokens[at].text;
                lemma_winner(tokens, rule, j)
            },
        }
    }
}

/// Every text of the input is the text of a token of the output.
pub proof fn lemma_resolve_keeps_texts(tokens: Seq<Token>, rule: QueryRule, at: int)
    requires
        0 <= at < tokens.len(),
    ensures
        has_text(resolve(tokens, rule), tokens[at].text),
{
    let winner = lemma_winner(tokens, rule, at);
    lemma_kept_place(tokens, rule, winner);
}

/// `FirstWins`: of two tokens with the same text the later one is dropped,
/// and the first token with that text is the one in the output, at the
/// place that its position among the kept tokens gives it.
pub proof fn lemma_first_wins(tokens: Seq<Token>, earlier: int, later: int) -> (winner: int)
    requires
        0 <= earlier < later < tokens.len(),
        tokens[earlier].text == tokens[later].text,
    ensures
        !survives(tokens, QueryRule::FirstWins, later),
        0 <= winner <= earlier,
        is_first(tokens, winner),
        tokens[winner].text == tokens[earlier].text,
        0 <= place(tokens, QueryRule::FirstWins, winner) < resolve(
            tokens,
            QueryRule::FirstWins,
        ).len(),
        resolve(tokens, QueryRule::FirstWins)[place(tokens, QueryRule::FirstWins, winner)]
            == tokens[winner],
        forall|k: int|
            0 <= k < resolve(tokens, QueryRule::FirstWins).len() && k != place(
                tokens,
                QueryRule::FirstWins,
                winner,
            ) ==> (#[trigger] resolve(tokens, QueryRule::FirstWins)[k]).text
                != tokens[earlier].text,
{
    let rule = QueryRule::FirstWins;
    let winner = lemma_winner(tokens, rule, earlier);
    lemma_kept_place(tokens, rule, winner);
    lemma_resolve_distinct(tokens, rule);
    winner
}

/// `LastWins`: of two tokens with the same text the earlier one is dropped,
/// and the last token with that text is the one in the output, at the place
/// that its position among the kept tokens gives it.
pub proof fn lemma_last_wins(tokens: Seq<Token>, earlier: int, later: int) -> (winner: int)
    requires
        0 <= earlier < later < tokens.len(),
        tokens[earlier].text == tokens[later].text,
    ensures
        !survives(tokens, QueryRule::LastWins, earlier),
        later <= winner < tokens.len(),
        is_last(tokens, winner),
        tokens[winner].text == tokens[later].text,
        0 <= place(tokens, QueryRule::LastWins, winner) < resolve(
            tokens,
            QueryRule::LastWins,
        ).len(),
        resolve(tokens, QueryRule::LastWins)[place(tokens, QueryRule::LastWins, winner)]
            == tokens[winner],
        forall|k: int|
            0 <= k < resolve(tokens, QueryRule::LastWins).len() && k != place(
                tokens,
                QueryRule::LastWins,
                winner,
            ) ==> (#[trigger] resolve(tokens, QueryRule::LastWins)[k]).text != tokens[later].text,
{
    let rule = QueryRule::LastWins;
    let winner = lemma_winner(tokens, rule, later);
    lemma_kept_place(tokens, rule, winner);
    lemma_resolve_distinct(tokens, rule);
    winner
}

/// The tokens that stand in `slots`, in order.
spec fn live(slots: Seq<Option<Token>>) -> Seq<Token>
    decreases slots.len(),
{
    if slots.len() == 0 {
        Seq::empty()
    } else {
        match slots.last() {
            Some(token) => live(slots.drop_last()).push(token),
            None => live(slots.drop_last()),
        }
    }
}

/// Under `FirstWins`, the tokens kept among the first few do not depend on
/// what follows them.
proof fn lemma_first_wins_prefix(tokens: Seq<Token>, next: Token, upto: int)
    requires
        0 <= upto <= tokens.len(),
    ensures
        survivors(tokens.push(next), QueryRule::FirstWins, upto) == survivors(
            tokens,
            QueryRule::FirstWins,
            upto,
        ),
    decreases upto,
{
    if upto > 0 {
        lemma_first_wins_prefix(tokens, next, upto - 1);
        let longer = tokens.push(next);
        assert(is_first(longer, upto - 1) == is_first(tokens, upto - 1)) by {
            assert(forall|j: int| 0 <= j < upto ==> longer[j] == tokens[j]);
        }
    }
}

/// Under `FirstWins`, a further token is kept when its text is new, and
/// dropped otherwise.
proof fn lemma_first_wins_step(tokens: Seq<Token>, next: Token)
    ensures
        resolve(tokens.push(next), QueryRule::FirstWins) == if has_text(tokens, next.text) {
            resolve(tokens, QueryRule::FirstWins)
        } else {
            resolve(tokens, QueryRule::FirstWins).push(next)
        },
{
    let longer = tokens.push(next);
    let n = tokens.len() as int;
    lemma_first_wins_prefix(tokens, next, n);
    if has_text(tokens, next.text) {
        let j = choose|j: int| 0 <= j < tokens.len() && (#[trigger] tokens[j]).text == next.text;
        assert(longer[j].text == longer[n].text);
    }
}

/// Under `LastWins`, a further token with the text `next.text` drops the
/// tokens of that text that were kept among the first few.
proof fn lemma_last_wins_prefix(tokens: Seq<Token>, next: Token, upto: int)
    requires
        0 <= upto <= tokens.len(),
    ensures
        survivors(tokens.push(next), QueryRule::LastWins, upto) == without_text(
            survivors(tokens, QueryRule::LastWins, upto),
            next.text,
        ),
    decreases upto,
{
    if upto > 0 {
        lemma_last_wins_prefix(tokens, next, upto - 1);
        let longer = tokens.push(next);
        let at = upto - 1;
        let before = survivors(tokens, QueryRule::LastWins, at);
        assert(is_last(longer, at) == (is_last(tokens, at) && tokens[at].text != next.text)) by {
            assert(longer[tokens.len() as int] == next);
            if is_last(tokens, at) && tokens[at].text != next.text {
                assert forall|j: int| at < j < longer.len() implies (#[trigger] longer[j]).text
                    != longer[at].text by {}
            }
            if is_last(longer, at) {
                assert forall|j: int| at < j < tokens.len() implies (#[trigger] tokens[j]).text
                    != tokens[at].text by {
                    assert(longer[j] == tokens[j]);
                }
            }
        }
        if is_last(tokens, at) {
            assert(before.push(tokens[at]).drop_last() =~= before);
        }
    }
}

/// Under `LastWins`, a further token replaces the token kept for its text
/// and stands at the end.
proof fn lemma_last_wins_step(tokens: Seq<Token>, next: Token)
    ensures
        resolve(tokens.push(next), QueryRule::LastWins) == without_text(
            resolve(tokens, QueryRule::LastWins),
            next.text,
        ).push(next),
{
    lemma_last_wins_prefix(tokens, next, tokens.len() as int);
}

/// Taking out a text that no token has changes nothing.
proof fn lemma_without_absent(tokens: Seq<Token>, text: Seq<char>)
    requires
        !has_text(tokens, text),
    ensures
        without_text(tokens, text) == tokens,
    decreases tokens.len(),
{
    if tokens.len() > 0 {
        let before = tokens.drop_last();
        assert(!has_text(before, text)) by {
            if has_text(before, text) {
                let j = choose|j: int| 0 <= j < before.len() && (#[trigger] before[j]).text == text;
                assert(tokens[j] == before[j]);
            }
        }
        lemma_without_absent(before, text);
    }
}

/// A token of `live(slots)` stands in one of the slots.
proof fn lemma_live_within(slots: Seq<Option<Token>>, k: int)
    requires
        0 <= k < live(slots).len(),
    ensures
        exists|i: int| 0 <= i < slots.len() && #[trigger] slots[i] == Some(live(slots)[k]),
    decreases slots.len(),
{
    let before = slots.drop_last();
    if k < live(before).len() {
        lemma_live_within(before, k);
        let i = choose|i: int| 0 <= i < before.len() && #[trigger] before[i] == Some(live(before)[k]);
        assert(slots[i] == before[i]);
    } else {
        assert(slots.last() == Some(live(slots)[k]));
    }
}

/// Emptying the one slot that holds a token of the text `text` takes the
/// tokens of that text out of the live ones.
proof fn lemma_live_vacate(slots: Seq<Option<Token>>, at: int, text: Seq<char>)
    requires
        0 <= at < slots.len(),
        slots[at] is Some,
        slots[at]->0.text == text,
        forall|i: int|
            0 <= i < slots.len() && i != at && (#[trigger] slots[i]) is Some ==> slots[i]->0.text
                != text,
    ensures
        live(slots.update(at, None)) == without_text(live(slots), text),
    decreases slots.len(),
{
    let before = slots.drop_last();
    let last = slots.len() - 1;
    let vacated = slots.update(at, None);
    if at == last {
        assert(vacated.drop_last() =~= before);
        assert(!has_text(live(before), text)) by {
            if has_text(live(before), text) {
                let k = choose|k: int|
                    0 <= k < live(before).len() && (#[trigger] live(before)[k]).text == text;
                lemma_live_within(before, k);
                let i = choose|i: int|
                    0 <= i < before.len() && #[trigger] before[i] == Some(live(before)[k]);
                assert(slots[i] == before[i]);
            }
        }
        lemma_without_absent(live(before), text);
        assert(live(slots).drop_last() =~= live(before));
    } else {
        assert(vacated.drop_last() =~= before.update(at, None));
        assert forall|i: int|
            0 <= i < before.len() && i != at && (#[trigger] before[i]) is Some implies before[i]->0.text
            != text by {}
        lemma_live_vacate(before, at, text);
        if slots.last() is Some {
            assert(live(slots).drop_last() =~= live(before));
        }
    }
}

/// Of the tokens of `nodes` that carry the same text, keeps one: the first
/// under `FirstWins`, the last under `LastWins`. The kept tokens stay in the
/// order in which they stand in `nodes`.
pub fn resolve_duplicate_nodes(nodes: Vec<Node>, query_rule: QueryRule) -> (resolved: Vec<Node>)
    ensures
        resolved.deep_view() == resolve(nodes.deep_view(), query_rule),
{
    let ghost tokens = nodes.deep_view();
    // The kept tokens, each in the slot it was appended to; a slot is emptied
    // when a later token replaces the one in it.
    let mut slots: Vec<Option<Node>> = Vec::new();
    // For each text seen so far, the slot of the token kept for it.
    let mut positions: StringHashMap<usize> = StringHashMap::new();
    for node in iter: nodes
        invariant
            tokens == nodes.deep_view(),
            iter.seq() == nodes@,
            live(slots.deep_view()) == resolve(tokens.take(iter.index() as int), query_rule),
            forall|j: int|
                0 <= j < iter.index() ==> positions@.contains_key((#[trigger] tokens[j]).text),
            forall|text: Seq<char>| #[trigger]
                positions@.contains_key(text) ==> {
                    &&& has_text(tokens.take(iter.index() as int), text)
                    &&& positions@[text] < slots.len()
                    &&& slots.deep_view()[positions@[text] as int] is Some
                    &&& slots.deep_view()[positions@[text] as int]->0.text == text
                },
            forall|i: int|
                0 <= i < slots.len() && (#[trigger] slots.deep_view()[i]) is Some ==> {
                    &&& positions@.contains_key(slots.deep_view()[i]->0.text)
                    &&& positions@[slots.deep_view()[i]->0.text] == i
                },
    {
        let ghost done = iter.index() as int;
        let ghost seen = tokens.take(done);
        let ghost old_slots = slots.deep_view();
        let ghost old_positions = positions@;
        proof {
            assert(tokens.take(done + 1) =~= seen.push(node@));
            lemma_first_wins_step(seen, node@);
            lemma_last_wins_step(seen, node@);
            if !old_positions.contains_key(node@.text) {
                assert(!has_text(seen, node@.text)) by {
                    if has_text(seen, node@.text) {
                        let j = choose|j: int|
                            0 <= j < seen.len() && (#[trigger] seen[j]).text == node@.text;
                        assert(tokens[j] == seen[j]);
                    }
                }
                assert(!has_text(live(old_slots), node@.text)) by {
                    if has_text(live(old_slots), node@.text) {
                        let k = choose|k: int|
                            0 <= k < live(old_slots).len() && (#[trigger] live(old_slots)[k]).text
                                == node@.text;
                        lemma_live_within(old_slots, k);
                    }
                }
                lemma_without_absent(live(old_slots), node@.text);
            }
        }
        let kept = match positions.get(node.element_text.as_str()) {
            Some(at) => Some(*at),
            None => None,
        };
        let replace = match kept {
            None => true,
            Some(at) => match query_rule {
                QueryRule::FirstWins => false,
                QueryRule::LastWins => {
                    proof {
                        lemma_live_vacate(old_slots, at as int, node@.text);
                    }
                    slots[at] = None;
                    assert(slots.deep_view() =~= old_slots.update(at as int, None));
                    true
                },
            },
        };
        if replace {
            let ghost vacated = slots.deep_view();
            let slot = slots.len();
            positions.insert(node.element_text.clone(), slot);
            slots.push(Some(node));
            proof {
                assert(slots.deep_view() =~= vacated.push(Some(node@)));
                assert(slots.deep_view().drop_last() =~= vacated);
                assert forall|text: Seq<char>| #[trigger]
                    positions@.contains_key(text) implies {
                    &&& has_text(tokens.take(done + 1), text)
                    &&& positions@[text] < slots.len()
                    &&& slots.deep_view()[positions@[text] as int] is Some
                    &&& slots.deep_view()[positions@[text] as int]->0.text == text
                } by {
                    if text != node@.text {
                        let j = choose|j: int|
                            0 <= j < seen.len() && (#[trigger] seen[j]).text == text;
                        assert(tokens.take(done + 1)[j] == seen[j]);
                    }
                }
                assert forall|i: int|
                    0 <= i < slots.len() && (#[trigger] slots.deep_view()[i]) is Some implies {
                    &&& positions@.contains_key(slots.deep_view()[i]->0.text)
                    &&& positions@[slots.deep_view()[i]->0.text] == i
                } by {}
            }
        } else {
            proof {
                assert forall|text: Seq<char>| #[trigger]
                    positions@.contains_key(text) implies has_text(tokens.take(done + 1), text) by {
                    let j = choose|j: int| 0 <= j < seen.len() && (#[trigger] seen[j]).text == text;
                    assert(tokens.take(done + 1)[j] == seen[j]);
                }
            }
        }
    }
    proof {
        assert(tokens.take(tokens.len() as int) =~= tokens);
    }
    let ghost all_slots = slots.deep_view();
    let mut resolved: Vec<Node> = Vec::new();
    for slot in iter: slots
        invariant
            all_slots == slots.deep_view(),
            iter.seq() == slots@,
            resolved.deep_view() == live(all_slots.take(iter.index() as int)),
    {
        let ghost done = iter.index() as int;
        proof {
            assert(all_slots.take(done + 1).drop_last() =~= all_slots.take(done));
        }
        if let Some(node) = slot {
            resolved.push(node);
        }
    }
    proof {
        assert(all_slots.take(all_slots.len() as int) =~= all_slots);
    }
    resolved
}

} // verus!
