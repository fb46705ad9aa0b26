//! The alias expander: rewrites a token sequence by substituting alias
//! replacement text, re-lexing it, and splicing the lexed tokens back into
//! the work list for further expansion, while a guard set shared across the
//! whole top-level call bounds the number of substitutions and so guarantees
//! termination even for self-referential or mutually-referential aliases.

use vstd::prelude::*;

use crate::aliases::lemma_alias_table_dom_finite;
use crate::aliases::AliasTable;
use crate::lexer::lex;
use crate::lexer::spec_lex;

verus! {

/// One top-level expansion call processes a work list of tokens left to
/// right. A token naming an alias whose name is not yet in the guard set is
/// replaced, in place, by the lexed replacement text, and the name joins the
/// guard set for the remainder of the whole call; any other token is emitted
/// unchanged. Returns the emitted tokens together with the final guard set.
///
/// Termination: each substitution moves one alias name into the guard set for
/// good, so the number of alias names outside the guard set falls; between
/// substitutions the work list shrinks.
pub open spec fn expand_seq(
    aliases: Map<Seq<char>, Seq<char>>,
    seen: Set<Seq<char>>,
    tokens: Seq<Seq<char>>,
) -> (Seq<Seq<char>>, Set<Seq<char>>)
    decreases aliases.dom().difference(seen).len(), tokens.len(),
        when aliases.dom().finite() && seen.finite()
{
    if tokens.len() == 0 {
        (Seq::empty(), seen)
    } else {
        let token = tokens[0];
        if aliases.dom().contains(token) && !seen.contains(token) {
            proof {
                aliases.dom().lemma_set_insert_diff_decreases(seen, token);
            }
            expand_seq(
                aliases,
                seen.insert(token),
                spec_lex(aliases[token]) + tokens.drop_first(),
            )
        } else {
            let tail = expand_seq(aliases, seen, tokens.drop_first());
            (seq![token] + tail.0, tail.1)
        }
    }
}

/// The guard set of one call only grows, stays finite, and gains alias names
/// only.
pub proof fn lemma_expand_seq_guard_grows(
    aliases: Map<Seq<char>, Seq<char>>,
    seen: Set<Seq<char>>,
    tokens: Seq<Seq<char>>,
)
    requires
        aliases.dom().finite(),
        seen.finite(),
    ensures
        expand_seq(aliases, seen, tokens).1.finite(),
        seen.subset_of(expand_seq(aliases, seen, tokens).1),
        expand_seq(aliases, seen, tokens).1.subset_of(seen.union(aliases.dom())),
    decreases aliases.dom().difference(seen).len(), tokens.len(),
{
    if tokens.len() > 0 {
        let token = tokens[0];
        if aliases.dom().contains(token) && !seen.contains(token) {
            aliases.dom().lemma_set_insert_diff_decreases(seen, token);
            lemma_expand_seq_guard_grows(
                aliases,
                seen.insert(token),
                spec_lex(aliases[token]) + tokens.drop_first(),
            );
        } else {
            lemma_expand_seq_guard_grows(aliases, seen, tokens.drop_first());
        }
    }
}

/// Processing a concatenation processes the left part first, then the right
/// part under the guard set the left part produced.
pub proof fn lemma_expand_seq_append(
    aliases: Map<Seq<char>, Seq<char>>,
    seen: Set<Seq<char>>,
    left: Seq<Seq<char>>,
    right: Seq<Seq<char>>,
)
    requires
        aliases.dom().finite(),
        seen.finite(),
    ensures
        ({
            let first = expand_seq(aliases, seen, left);
            let second = expand_seq(aliases, first.1, right);
            expand_seq(aliases, seen, left + right) == (first.0 + second.0, second.1)
        }),
    decreases aliases.dom().difference(seen).len(), left.len(),
{
    let first = expand_seq(aliases, seen, left);
    lemma_expand_seq_guard_grows(aliases, seen, left);
    let second = expand_seq(aliases, first.1, right);
    if left.len() == 0 {
        assert(left + right =~= right);
        assert(first.0 + second.0 =~= second.0);
    } else {
        let token = left[0];
        assert((left + right)[0] == token);
        if aliases.dom().contains(token) && !seen.contains(token) {
            aliases.dom().lemma_set_insert_diff_decreases(seen, token);
            let replaced = spec_lex(aliases[token]) + left.drop_first();
            lemma_expand_seq_append(aliases, seen.insert(token), replaced, right);
            assert(replaced + right =~= spec_lex(aliases[token]) + (left + right).drop_first());
        } else {
            lemma_expand_seq_append(aliases, seen, left.drop_first(), right);
            assert((left + right).drop_first() =~= left.drop_first() + right);
            let tail = expand_seq(aliases, seen, left.drop_first());
            let tail_second = expand_seq(aliases, tail.1, right);
            assert(seq![token] + (tail.0 + tail_second.0) =~= (seq![token] + tail.0)
                + tail_second.0);
        }
    }
}

/// If an alias name occurs among the tokens of a call, the call's final guard
/// set holds that name.
pub proof fn lemma_expand_seq_triggers(
    aliases: Map<Seq<char>, Seq<char>>,
    seen: Set<Seq<char>>,
    tokens: Seq<Seq<char>>,
    name: Seq<char>,
)
    requires
        aliases.dom().finite(),
        seen.finite(),
        aliases.dom().contains(name),
        tokens.contains(name),
    ensures
        expand_seq(aliases, seen, tokens).1.contains(name),
    decreases aliases.dom().difference(seen).len(), tokens.len(),
{
    let token = tokens[0];
    if aliases.dom().contains(token) && !seen.contains(token) {
        aliases.dom().lemma_set_insert_diff_decreases(seen, token);
        let replaced = spec_lex(aliases[token]) + tokens.drop_first();
        lemma_expand_seq_guard_grows(aliases, seen.insert(token), replaced);
        if token != name {
            let i = choose|i: int| 0 <= i < tokens.len() && tokens[i] == name;
            assert(tokens.drop_first()[i - 1] == name);
            assert(replaced[spec_lex(aliases[token]).len() + i - 1] == name);
            lemma_expand_seq_triggers(aliases, seen.insert(token), replaced, name);
        }
    } else {
        if token == name {
            lemma_expand_seq_guard_grows(aliases, seen, tokens.drop_first());
        } else {
            let i = choose|i: int| 0 <= i < tokens.len() && tokens[i] == name;
            assert(tokens.drop_first()[i - 1] == name);
            lemma_expand_seq_triggers(aliases, seen, tokens.drop_first(), name);
        }
    }
}

/// Expansion under an empty alias table returns every token sequence
/// unchanged, whatever the guard set holds.
pub proof fn lemma_expand_seq_empty_table(seen: Set<Seq<char>>, tokens: Seq<Seq<char>>)
    requires
        seen.finite(),
    ensures
        expand_seq(Map::empty(), seen, tokens) == (tokens, seen),
    decreases tokens.len(),
{
    assert(Map::<Seq<char>, Seq<char>>::empty().dom() =~= Set::<Seq<char>>::empty());
    if tokens.len() == 0 {
        assert(tokens =~= Seq::<Seq<char>>::empty());
    } else {
        lemma_expand_seq_empty_table(seen, tokens.drop_first());
        assert(seq![tokens[0]] + tokens.drop_first() =~= tokens);
    }
}

/// The guard's scope is the whole top-level call, not one branch of it: once
/// an alias name has been substituted anywhere earlier in the token list, a
/// later occurrence of the same name is emitted literally, and what follows
/// it is expanded under the guard set the earlier tokens produced.
pub proof fn lemma_guard_scope_is_global(
    aliases: Map<Seq<char>, Seq<char>>,
    before: Seq<Seq<char>>,
    after: Seq<Seq<char>>,
    name: Seq<char>,
)
    requires
        aliases.dom().finite(),
        aliases.dom().contains(name),
        before.contains(name),
    ensures
        ({
            let first = expand_seq(aliases, Set::empty(), before);
            let rest = expand_seq(aliases, first.1, after);
            expand_seq(aliases, Set::empty(), before + seq![name] + after) == (
                first.0 + seq![name] + rest.0,
                rest.1,
            )
        }),
{
    let first = expand_seq(aliases, Set::empty(), before);
    let rest = expand_seq(aliases, first.1, after);
    lemma_expand_seq_guard_grows(aliases, Set::empty(), before);
    lemma_expand_seq_triggers(aliases, Set::empty(), before, name);
    lemma_expand_seq_append(aliases, Set::empty(), before, seq![name] + after);
    assert(before + seq![name] + after =~= before + (seq![name] + after));
    let marked = expand_seq(aliases, first.1, seq![name] + after);
    assert((seq![name] + after)[0] == name);
    assert((seq![name] + after).drop_first() =~= after);
    assert(marked == (seq![name] + rest.0, rest.1));
    assert(first.0 + (seq![name] + rest.0) =~= first.0 + seq![name] + rest.0);
}

fn contains_string(items: &Vec<String>, needle: &String) -> (found: bool)
    ensures
        found == items.deep_view().to_set().contains(needle@),
{
    let count = items.len();
    let mut index: usize = 0;
    while index < count
        invariant
            count == items@.len(),
            index <= count,
            forall|j: int| 0 <= j < index ==> #[trigger] items@[j]@ != needle@,
        decreases count - index,
    {
        if items[index].eq(needle) {
            proof {
                assert(items.deep_view()[index as int] == needle@);
            }
            return true;
        }
        index += 1;
    }
    proof {
        assert forall|j: int| 0 <= j < items.deep_view().len() implies #[trigger] items.deep_view()[j]
            != needle@ by {
            assert(items.deep_view()[j] == items@[j]@);
        }
    }
    false
}

proof fn lemma_push_to_set(items: Seq<Seq<char>>, item: Seq<char>)
    ensures
        items.push(item).to_set() =~= items.to_set().insert(item),
{
    let pushed = items.push(item);
    assert forall|y: Seq<char>| pushed.to_set().contains(y) implies items.to_set().insert(
        item,
    ).contains(y) by {
        let i = choose|i: int| 0 <= i < pushed.len() && pushed[i] == y;
        if i < items.len() {
            assert(items[i] == y);
        }
    }
    assert forall|y: Seq<char>| items.to_set().insert(item).contains(y) implies pushed
        .to_set()
        .contains(y) by {
        if y == item {
            assert(pushed[items.len() as int] == y);
        } else {
            let i = choose|i: int| 0 <= i < items.len() && items[i] == y;
            assert(pushed[i] == y);
        }
    }
}

/// Expand every alias in the token sequence, left to right, under one fresh
/// guard set. The input sequence is drained; the result is the fully
/// substituted sequence.
pub fn expand_aliases(aliases: &AliasTable, tokens: &mut Vec<String>) -> (result: Vec<String>)
    ensures
        result.deep_view() == expand_seq(aliases@, Set::empty(), old(tokens).deep_view()).0,
        final(tokens)@.len() == 0,
{
    let mut aliases_seen: Vec<String> = Vec::new();
    proof {
        assert(aliases_seen.deep_view() =~= Seq::<Seq<char>>::empty());
        assert(aliases_seen.deep_view().to_set() =~= Set::<Seq<char>>::empty());
    }
    _expand_aliases(aliases, tokens, &mut aliases_seen)
}

fn _expand_aliases(
    aliases: &AliasTable,
    tokens: &mut Vec<String>,
    aliases_seen: &mut Vec<String>,
) -> (result: Vec<String>)
    ensures
        ({
            let outcome = expand_seq(
                aliases@,
                old(aliases_seen).deep_view().to_set(),
                old(tokens).deep_view(),
            );
            result.deep_view() == outcome.0 && final(aliases_seen).deep_view().to_set()
                == outcome.1 && final(tokens)@.len() == 0
        }),
        old(aliases_seen).deep_view().is_prefix_of(final(aliases_seen).deep_view()),
{
    proof {
        lemma_alias_table_dom_finite(aliases);
        vstd::seq_lib::seq_to_set_is_finite(aliases_seen.deep_view());
    }
    let ghost seen_start = aliases_seen.deep_view().to_set();
    let ghost seen_vec_start = aliases_seen.deep_view();
    let ghost work = tokens.deep_view();
    let mut results: Vec<String> = Vec::new();
    proof {
        assert(results.deep_view() =~= Seq::<Seq<char>>::empty());
        assert(results.deep_view() + expand_seq(aliases@, seen_start, work).0 =~= expand_seq(
            aliases@,
            seen_start,
            work,
        ).0);
    }
    while tokens.len() > 0
        invariant
            aliases@.dom().finite(),
            aliases_seen.deep_view().to_set().finite(),
            seen_vec_start.is_prefix_of(aliases_seen.deep_view()),
            expand_seq(aliases@, seen_start, work) == ({
                let ongoing = expand_seq(
                    aliases@,
                    aliases_seen.deep_view().to_set(),
                    tokens.deep_view(),
                );
                (results.deep_view() + ongoing.0, ongoing.1)
            }),
        decreases
                aliases@.dom().difference(aliases_seen.deep_view().to_set()).len(),
                tokens@.len(),
    {
        let ghost seen_here = aliases_seen.deep_view().to_set();
        let ghost seen_vec_here = aliases_seen.deep_view();
        let ghost results_here = results.deep_view();
        let ghost work_here = tokens.deep_view();
        let ghost t = work_here[0];
        let token = tokens.remove(0);
        proof {
            assert(token@ == t);
            assert(tokens.deep_view() =~= work_here.drop_first());
        }
        let looked_up = aliases.get(&token);
        let already_seen = contains_string(aliases_seen, &token);
        match (looked_up, already_seen) {
            (Some(alias_value), false) => {
                aliases_seen.push(token);
                proof {
                    assert(aliases_seen.deep_view() =~= seen_vec_here.push(t));
                    lemma_push_to_set(seen_vec_here, t);
                    assert(aliases_seen.deep_view().to_set() == seen_here.insert(t));
                    aliases@.dom().lemma_set_insert_diff_decreases(seen_here, t);
                    assert(seen_vec_here.push(t).subrange(0, seen_vec_start.len() as int)
                        =~= seen_vec_here.subrange(0, seen_vec_start.len() as int));
                }
                let mut lexer_results = lex(alias_value.as_str());
                lexer_results.append(tokens);
                *tokens = lexer_results;
                proof {
                    assert(tokens.deep_view() =~= spec_lex(aliases@[t]) + work_here.drop_first());
                    assert(expand_seq(aliases@, seen_here, work_here) == expand_seq(
                        aliases@,
                        seen_here.insert(t),
                        tokens.deep_view(),
                    ));
                }
            }
            _ => {
                results.push(token);
                proof {
                    let tail = expand_seq(aliases@, seen_here, work_here.drop_first());
                    assert(expand_seq(aliases@, seen_here, work_here) == (
                        seq![t] + tail.0,
                        tail.1,
                    ));
                    assert(results.deep_view() =~= results_here.push(t));
                    assert(results_here + (seq![t] + tail.0) =~= results_here.push(t) + tail.0);
                }
            }
        }
    }
    proof {
        assert(tokens.deep_view() =~= Seq::<Seq<char>>::empty());
        let ongoing = expand_seq(
            aliases@,
            aliases_seen.deep_view().to_set(),
            tokens.deep_view(),
        );
        assert(results.deep_view() + ongoing.0 =~= results.deep_view());
    }
    results
}

} // verus!
