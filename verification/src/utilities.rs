//! The alias builtin's bookkeeping: parsing `name=value` arguments into
//! table updates, and resolving bare names into queries whose answers the
//! surrounding shell prints.

use vstd::prelude::*;

use crate::shell::Shell;

verus! {

/// One answered lookup: an alias name, and its replacement text if the name
/// was defined when the query was made.
pub struct AliasQuery {
    pub name: String,
    pub value: Option<String>,
}

impl DeepView for AliasQuery {
    type V = (Seq<char>, Option<Seq<char>>);

    open spec fn deep_view(&self) -> (Seq<char>, Option<Seq<char>>) {
        (
            self.name@,
            match self.value {
                Some(v) => Some(v@),
                None => None,
            },
        )
    }
}

/// Splitting an argument at its first `=`: the name before it and, if the
/// `=` is present, the replacement text after it (which may itself hold `=`).
pub open spec fn eq_split(arg: Seq<char>) -> (Seq<char>, Option<Seq<char>>)
    decreases arg.len(),
{
    if arg.len() == 0 {
        (Seq::empty(), None)
    } else if arg[0] == '=' {
        (Seq::empty(), Some(arg.drop_first()))
    } else {
        let rest = eq_split(arg.drop_first());
        (seq![arg[0]] + rest.0, rest.1)
    }
}

/// The alias table after the builtin has processed the arguments in order:
/// each `name=value` argument inserts or updates, a bare name changes
/// nothing.
pub open spec fn alias_updates(
    table: Map<Seq<char>, Seq<char>>,
    args: Seq<Seq<char>>,
) -> Map<Seq<char>, Seq<char>>
    decreases args.len(),
{
    if args.len() == 0 {
        table
    } else {
        let split = eq_split(args[0]);
        match split.1 {
            Some(value) => alias_updates(table.insert(split.0, value), args.drop_first()),
            None => alias_updates(table, args.drop_first()),
        }
    }
}

/// The queries the builtin answers, in order: one for each bare-name
/// argument, resolved against the table as the arguments before it left it.
pub open spec fn alias_queries(
    table: Map<Seq<char>, Seq<char>>,
    args: Seq<Seq<char>>,
) -> Seq<(Seq<char>, Option<Seq<char>>)>
    decreases args.len(),
{
    if args.len() == 0 {
        Seq::empty()
    } else {
        let split = eq_split(args[0]);
        match split.1 {
            Some(value) => alias_queries(table.insert(split.0, value), args.drop_first()),
            None => seq![
                (
                    split.0,
                    if table.contains_key(split.0) {
                        Some(table[split.0])
                    } else {
                        None
                    },
                ),
            ] + alias_queries(table, args.drop_first()),
        }
    }
}

proof fn lemma_eq_split_at(arg: Seq<char>, i: int)
    requires
        0 <= i < arg.len(),
        arg[i] == '=',
        forall|j: int| 0 <= j < i ==> arg[j] != '=',
    ensures
        eq_split(arg) == (arg.take(i), Some(arg.skip(i + 1))),
    decreases i,
{
    if i == 0 {
        assert(arg.take(0) =~= Seq::<char>::empty());
        assert(arg.drop_first() =~= arg.skip(1));
    } else {
        lemma_eq_split_at(arg.drop_first(), i - 1);
        assert(seq![arg[0]] + arg.drop_first().take(i - 1) =~= arg.take(i));
        assert(arg.drop_first().skip(i) =~= arg.skip(i + 1));
    }
}

proof fn lemma_eq_split_none(arg: Seq<char>)
    requires
        forall|j: int| 0 <= j < arg.len() ==> arg[j] != '=',
    ensures
        eq_split(arg) == (arg, None::<Seq<char>>),
    decreases arg.len(),
{
    if arg.len() == 0 {
        assert(arg =~= Seq::<char>::empty());
    } else {
        lemma_eq_split_none(arg.drop_first());
        assert(seq![arg[0]] + arg.drop_first() =~= arg);
    }
}

/// Split one argument as the alias builtin does: at the first `=`, into the
/// name and, when the `=` is present, the replacement text.
fn split_assignment(arg: &String) -> (split: (String, Option<String>))
    ensures
        split.0@ == eq_split(arg@).0,
        match split.1 {
            Some(v) => eq_split(arg@).1 == Some(v@),
            None => eq_split(arg@).1 is None,
        },
{
    let slice = arg.as_str();
    let length = slice.unicode_len();
    let mut index: usize = 0;
    while index < length
        invariant
            length == slice@.len(),
            slice@ == arg@,
            index <= length,
            forall|j: int| 0 <= j < index ==> arg@[j] != '=',
        decreases length - index,
    {
        if slice.get_char(index) == '=' {
            proof {
                lemma_eq_split_at(arg@, index as int);
            }
            let name = String::from_str(slice.substring_char(0, index));
            let value = String::from_str(slice.substring_char(index + 1, length));
            return (name, Some(value));
        }
        index += 1;
    }
    proof {
        lemma_eq_split_none(arg@);
    }
    (arg.clone(), None)
}

/// The alias builtin. With no arguments it reports every defined alias, in
/// definition order. Each `name=value` argument inserts or updates a
/// definition; each bare-name argument produces a query answered against the
/// table as the arguments before it left it. The caller prints the returned
/// queries; this function changes only the table.
pub fn alias(shell: &mut Shell, args: &Vec<String>) -> (queries: Vec<AliasQuery>)
    ensures
        final(shell).aliases@ == alias_updates(old(shell).aliases@, args.deep_view()),
        old(shell).aliases.wf() ==> final(shell).aliases.wf(),
        args@.len() > 0 ==> queries.deep_view() == alias_queries(
            old(shell).aliases@,
            args.deep_view(),
        ),
        args@.len() == 0 ==> queries.deep_view().len() == old(shell).aliases.names().len(),
        args@.len() == 0 && old(shell).aliases.wf() ==> forall|i: int|
            0 <= i < queries.deep_view().len() ==> queries.deep_view()[i] == (
                old(shell).aliases.names()[i],
                Some(old(shell).aliases@[old(shell).aliases.names()[i]]),
            ),
{
    let mut queries: Vec<AliasQuery> = Vec::new();
    if args.len() == 0 {
        let total = shell.aliases.len();
        let mut index: usize = 0;
        while index < total
            invariant
                shell.aliases == old(shell).aliases,
                total == shell.aliases.names().len(),
                index <= total,
                queries.deep_view().len() == index,
                old(shell).aliases.wf() ==> forall|i: int|
                    0 <= i < index ==> queries.deep_view()[i] == (
                        old(shell).aliases.names()[i],
                        Some(old(shell).aliases@[old(shell).aliases.names()[i]]),
                    ),
            decreases total - index,
        {
            let ghost queries_before = queries.deep_view();
            let name = shell.aliases.name_at(index);
            let value = shell.aliases.value_at(index);
            queries.push(AliasQuery { name, value: Some(value) });
            proof {
                assert(queries.deep_view() =~= queries_before.push(
                    queries@[queries@.len() - 1].deep_view(),
                ));
            }
            index += 1;
        }
        return queries;
    }
    let ghost all_args = args.deep_view();
    proof {
        assert(all_args.skip(0) =~= all_args);
        assert(queries.deep_view() =~= Seq::<(Seq<char>, Option<Seq<char>>)>::empty());
        assert(queries.deep_view() + alias_queries(shell.aliases@, all_args) =~= alias_queries(
            shell.aliases@,
            all_args,
        ));
    }
    let total = args.len();
    let mut index: usize = 0;
    while index < total
        invariant
            total == args@.len(),
            all_args == args.deep_view(),
            index <= total,
            old(shell).aliases.wf() ==> shell.aliases.wf(),
            alias_updates(old(shell).aliases@, all_args) == alias_updates(
                shell.aliases@,
                all_args.skip(index as int),
            ),
            alias_queries(old(shell).aliases@, all_args) == queries.deep_view() + alias_queries(
                shell.aliases@,
                all_args.skip(index as int),
            ),
        decreases total - index,
    {
        let ghost remaining = all_args.skip(index as int);
        let ghost table_here = shell.aliases@;
        let ghost queries_before = queries.deep_view();
        proof {
            assert(remaining[0] == all_args[index as int]);
            assert(remaining.drop_first() =~= all_args.skip(index as int + 1));
            assert(all_args[index as int] == args@[index as int]@);
        }
        let argument = &args[index];
        let split = split_assignment(argument);
        let name = split.0;
        match split.1 {
            Some(value) => {
                shell.aliases.insert(name, value);
            }
            None => {
                let resolved = shell.aliases.get(&name);
                queries.push(AliasQuery { name, value: resolved });
                proof {
                    let answered = (
                        eq_split(remaining[0]).0,
                        if table_here.contains_key(eq_split(remaining[0]).0) {
                            Some(table_here[eq_split(remaining[0]).0])
                        } else {
                            None
                        },
                    );
                    assert(queries.deep_view() =~= queries_before.push(answered));
                    assert(queries_before + (seq![answered] + alias_queries(
                        table_here,
                        remaining.drop_first(),
                    )) =~= queries_before.push(answered) + alias_queries(
                        table_here,
                        remaining.drop_first(),
                    ));
                }
            }
        }
        index += 1;
    }
    proof {
        assert(all_args.skip(total as int) =~= Seq::<Seq<char>>::empty());
        assert(queries.deep_view() + alias_queries(
            shell.aliases@,
            all_args.skip(total as int),
        ) =~= queries.deep_view());
    }
    queries
}

} // verus!
