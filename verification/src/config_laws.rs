//! What a configuration text says, line by line and as a whole.

use vstd::prelude::*;

use crate::config::{are_keys, keys_collected, Config};
use crate::config_text::{
    all_white_space, answers, around, content_of, entry_of, parses, reads, stands_for, statements,
    ConfigError, Entries, Entry,
};
use crate::text::{
    law_length_before_is_first, lemma_length_before_first, lemma_trimmed_end_leaves,
    lemma_trimmed_start_leaves, length_before, number_value, white_space,
};

verus! {

// ---------------------------------------------------------------------------
// Lines

/// What is left of a line is what stands between the white space around it and
/// the comment: it holds no comment and neither starts nor ends with white
/// space, and the line is made of it, white space and perhaps a comment.
pub proof fn law_content_is_what_is_left(line: Seq<char>)
    ensures
        ({
            let content = content_of(line);
            &&& !content.contains('#')
            &&& content.len() > 0 ==> !white_space(content[0]) && !white_space(content.last())
            &&& exists|before: Seq<char>, after: Seq<char>, comment: Seq<char>| #[trigger]
                around(before, content, after, comment, line)
        }),
{
    let stop = |c: char| c == '#';
    let n = length_before(line, stop) as int;
    let said = line.take(n);
    lemma_length_before_first(line, stop);
    let low = lemma_trimmed_start_leaves(said);
    let start = said.skip(low);
    let high = lemma_trimmed_end_leaves(start);
    let content = content_of(line);
    assert(content == start.take(high));
    assert forall|i: int| 0 <= i < content.len() implies #[trigger] content[i] != '#' by {
        assert(content[i] == line[low + i]);
        assert(!stop(line[low + i]));
    }
    let before = said.take(low);
    let after = start.skip(high);
    let comment = if n < line.len() {
        line.skip(n + 1)
    } else {
        seq![]
    };
    assert(all_white_space(before)) by {
        assert forall|i: int| 0 <= i < before.len() implies white_space(#[trigger] before[i]) by {
            assert(before[i] == said[i]);
        }
    }
    assert(all_white_space(after)) by {
        assert forall|i: int| 0 <= i < after.len() implies white_space(#[trigger] after[i]) by {
            assert(after[i] == start[high + i]);
        }
    }
    assert(said =~= before + content + after);
    if n < line.len() {
        assert(line =~= before + content + after + seq!['#'] + comment);
    } else {
        assert(line =~= before + content + after);
    }
    if content.len() > 0 {
        assert(content[0] == said[low]);
        assert(content.last() == start[high - 1]);
    }
    assert(around(before, content, after, comment, line));
}

/// A text without comment, and without white space at its ends, is all content.
proof fn lemma_content_of_plain(line: Seq<char>)
    requires
        !line.contains('#'),
        line.len() > 0 ==> !white_space(line[0]) && !white_space(line.last()),
    ensures
        content_of(line) == line,
{
    let stop = |c: char| c == '#';
    assert forall|i: int| 0 <= i < line.len() implies !stop(#[trigger] line[i]) by {
        assert(line.contains(line[i]));
    }
    law_length_before_is_first(line, stop, line.len());
    assert(line.take(line.len() as int) =~= line);
}

/// A word: at least one character, no white space and no comment.
pub open spec fn is_keyword_like(word: Seq<char>) -> bool {
    &&& word.len() > 0
    &&& forall|i: int| 0 <= i < word.len() ==> !white_space(#[trigger] word[i]) && word[i] != '#'
}

/// A word, one white space character and a value make an entry. The word says
/// which: `f` wants a number, `replica` and `multicast` take the value as it
/// stands, and any other word is an error.
pub proof fn law_word_and_value_make_an_entry(word: Seq<char>, space: char, value: Seq<char>)
    requires
        is_keyword_like(word),
        white_space(space),
        value.len() > 0,
        !white_space(value.last()),
        !value.contains('#'),
    ensures
        ({
            let line = word + seq![space] + value;
            &&& word == "f"@ ==> entry_of(line) == match number_value(value) {
                Some(n_fault) => Ok::<Option<Entry<Seq<char>>>, ConfigError>(
                    Some(Entry::Fault(n_fault)),
                ),
                None => Err(ConfigError::InvalidFault),
            }
            &&& word == "replica"@ ==> entry_of(line) == Ok::<
                Option<Entry<Seq<char>>>,
                ConfigError,
            >(Some(Entry::Replica(value)))
            &&& word == "multicast"@ ==> entry_of(line) == Ok::<
                Option<Entry<Seq<char>>>,
                ConfigError,
            >(Some(Entry::Multicast(value)))
            &&& word != "f"@ && word != "replica"@ && word != "multicast"@ ==> entry_of(line)
                == Err::<Option<Entry<Seq<char>>>, ConfigError>(ConfigError::UnknownKeyword)
        }),
{
    let line = word + seq![space] + value;
    let n = word.len() as int;
    assert(line.last() == value.last());
    assert(line[0] == word[0]);
    assert(!line.contains('#')) by {
        if line.contains('#') {
            let i = choose|i: int| 0 <= i < line.len() && line[i] == '#';
            if i < n {
                assert(line[i] == word[i]);
            } else if i > n {
                assert(line[i] == value[i - n - 1]);
                assert(value.contains('#'));
            }
        }
    }
    lemma_content_of_plain(line);
    let stop = |c: char| white_space(c);
    assert forall|i: int| 0 <= i < n implies !stop(#[trigger] line[i]) by {
        assert(line[i] == word[i]);
    }
    assert(stop(line[n]));
    law_length_before_is_first(line, stop, word.len());
    assert(line.take(n) =~= word);
    assert(line.skip(n + 1) =~= value);
    reveal_strlit("f");
    reveal_strlit("replica");
    reveal_strlit("multicast");
    assert("f"@.len() == 1);
    assert("replica"@.len() == 7);
    assert("multicast"@.len() == 9);
}

/// A word alone lacks its value, whatever the word is, and a line of nothing
/// says nothing.
pub proof fn law_word_alone_lacks_its_value(word: Seq<char>)
    requires
        is_keyword_like(word),
    ensures
        entry_of(word) == Err::<Option<Entry<Seq<char>>>, ConfigError>(ConfigError::MissingValue),
        entry_of(seq![]) == Ok::<Option<Entry<Seq<char>>>, ConfigError>(None),
{
    assert(!word.contains('#')) by {
        if word.contains('#') {
            let i = choose|i: int| 0 <= i < word.len() && word[i] == '#';
            assert(word[i] != '#');
        }
    }
    assert(word.last() == word[word.len() - 1]);
    lemma_content_of_plain(word);
    let stop = |c: char| white_space(c);
    law_length_before_is_first(word, stop, word.len());
    lemma_content_of_plain(seq![]);
}

/// Lines are read one after another: each that is not blank says one thing.
pub proof fn law_lines_are_read_in_turn(line: Seq<char>, rest: Seq<Seq<char>>)
    ensures
        statements(seq![]).len() == 0,
        statements(seq![line] + rest) == match entry_of(line) {
            Ok(None) => statements(rest),
            Ok(Some(entry)) => seq![Ok::<Entry<Seq<char>>, ConfigError>(entry)] + statements(rest),
            Err(error) => seq![Err::<Entry<Seq<char>>, ConfigError>(error)] + statements(rest),
        },
{
    assert((seq![line] + rest).skip(1) =~= rest);
}

// ---------------------------------------------------------------------------
// Texts

/// The addresses in the `replica` lines, in order.
pub open spec fn replica_texts(statements: Seq<Result<Entry<Seq<char>>, ConfigError>>) -> Seq<
    Seq<char>,
>
    decreases statements.len(),
{
    if statements.len() == 0 {
        seq![]
    } else {
        let rest = replica_texts(statements.skip(1));
        match statements[0] {
            Ok(Entry::Replica(text)) => seq![text] + rest,
            _ => rest,
        }
    }
}

/// Statement `i` is the last `f` line, and gives this number.
pub open spec fn is_last_fault(
    statements: Seq<Result<Entry<Seq<char>>, ConfigError>>,
    i: int,
    n_fault: usize,
) -> bool {
    &&& 0 <= i < statements.len()
    &&& statements[i] == Ok::<Entry<Seq<char>>, ConfigError>(Entry::Fault(n_fault))
    &&& forall|j: int|
        i < j < statements.len() ==> !((#[trigger] statements[j]) matches Ok(Entry::Fault(_)))
}

/// Statement `i` is the last `multicast` line, and gives this address.
pub open spec fn is_last_multicast(
    statements: Seq<Result<Entry<Seq<char>>, ConfigError>>,
    i: int,
    text: Seq<char>,
) -> bool {
    &&& 0 <= i < statements.len()
    &&& statements[i] == Ok::<Entry<Seq<char>>, ConfigError>(Entry::Multicast(text))
    &&& forall|j: int|
        i < j < statements.len() ==> !((#[trigger] statements[j]) matches Ok(Entry::Multicast(_)))
}

/// What is known after `statements` agrees with what they say, given what was
/// known before.
spec fn agrees<A>(
    answers: spec_fn(Seq<char>, Option<A>) -> bool,
    known: Entries<A>,
    statements: Seq<Result<Entry<Seq<char>>, ConfigError>>,
    entries: Entries<A>,
) -> bool {
    let texts = replica_texts(statements);
    let n = known.replica_address.len() as int;
    &&& entries.replica_address.len() == n + texts.len()
    &&& forall|i: int|
        0 <= i < n ==> #[trigger] entries.replica_address[i] == known.replica_address[i]
    &&& forall|i: int|
        0 <= i < texts.len() ==> answers(
            #[trigger] texts[i],
            Some(entries.replica_address[n + i]),
        )
    &&& {
        ||| exists|i: int, n_fault: usize| #[trigger]
            is_last_fault(statements, i, n_fault) && entries.n_fault == Some(n_fault)
        ||| entries.n_fault == known.n_fault && forall|i: int|
            0 <= i < statements.len() ==> !((#[trigger] statements[i]) matches Ok(Entry::Fault(_)))
    }
    &&& {
        ||| exists|i: int, text: Seq<char>| #[trigger]
            is_last_multicast(statements, i, text) && entries.multicast_address is Some && answers(
                text,
                entries.multicast_address,
            )
        ||| entries.multicast_address == known.multicast_address && forall|i: int|
            0 <= i < statements.len() ==> !((#[trigger] statements[i]) matches Ok(
                Entry::Multicast(_),
            ))
    }
}

proof fn lemma_agrees_after_one<A>(
    answers: spec_fn(Seq<char>, Option<A>) -> bool,
    known: Entries<A>,
    next: Entries<A>,
    statements: Seq<Result<Entry<Seq<char>>, ConfigError>>,
    entries: Entries<A>,
)
    requires
        statements.len() > 0,
        agrees(answers, next, statements.skip(1), entries),
        match statements[0] {
            Err(_) => false,
            Ok(Entry::Fault(n_fault)) => {
                &&& next.replica_address == known.replica_address
                &&& next.multicast_address == known.multicast_address
                &&& next.n_fault == Some(n_fault)
            },
            Ok(Entry::Replica(text)) => {
                &&& exists|address: A| #[trigger]
                    answers(text, Some(address)) && next.replica_address
                        == known.replica_address.push(address)
                &&& next.multicast_address == known.multicast_address
                &&& next.n_fault == known.n_fault
            },
            Ok(Entry::Multicast(text)) => {
                &&& next.replica_address == known.replica_address
                &&& next.multicast_address is Some && answers(text, next.multicast_address)
                &&& next.n_fault == known.n_fault
            },
        },
    ensures
        agrees(answers, known, statements, entries),
{
    let rest = statements.skip(1);
    let texts = replica_texts(statements);
    let later = replica_texts(rest);
    let n = known.replica_address.len() as int;
    assert forall|i: int| 0 <= i < rest.len() implies #[trigger] rest[i] == statements[i + 1] by {}
    assert forall|i: int| 0 <= i < n implies #[trigger] entries.replica_address[i]
        == known.replica_address[i] by {
        assert(next.replica_address[i] == known.replica_address[i]);
        assert(entries.replica_address[i] == next.replica_address[i]);
    }
    assert forall|i: int| 0 <= i < texts.len() implies answers(
        #[trigger] texts[i],
        Some(entries.replica_address[n + i]),
    ) by {
        if let Ok(Entry::Replica(text)) = statements[0] {
            if i == 0 {
                assert(entries.replica_address[n] == next.replica_address[n]);
            } else {
                assert(texts[i] == later[i - 1]);
            }
        } else {
            assert(texts[i] == later[i]);
        }
    }
    if exists|i: int, n_fault: usize| #[trigger]
        is_last_fault(rest, i, n_fault) && entries.n_fault == Some(n_fault) {
        let (i, n_fault) = choose|i: int, n_fault: usize| #[trigger]
            is_last_fault(rest, i, n_fault) && entries.n_fault == Some(n_fault);
        assert(is_last_fault(statements, i + 1, n_fault)) by {
            assert forall|j: int| i + 1 < j < statements.len() implies !((
            #[trigger] statements[j]) matches Ok(Entry::Fault(_))) by {
                assert(rest[j - 1] == statements[j]);
            }
        }
    } else {
        assert forall|j: int| 0 < j < statements.len() implies !((
        #[trigger] statements[j]) matches Ok(Entry::Fault(_))) by {
            assert(rest[j - 1] == statements[j]);
        }
        if let Ok(Entry::Fault(n_fault)) = statements[0] {
            assert(is_last_fault(statements, 0, n_fault));
        }
    }
    if exists|i: int, text: Seq<char>| #[trigger]
        is_last_multicast(rest, i, text) && entries.multicast_address is Some && answers(
            text,
            entries.multicast_address,
        ) {
        let (i, text) = choose|i: int, text: Seq<char>| #[trigger]
            is_last_multicast(rest, i, text) && entries.multicast_address is Some && answers(
                text,
                entries.multicast_address,
            );
        assert(is_last_multicast(statements, i + 1, text)) by {
            assert forall|j: int| i + 1 < j < statements.len() implies !((
            #[trigger] statements[j]) matches Ok(Entry::Multicast(_))) by {
                assert(rest[j - 1] == statements[j]);
            }
        }
    } else {
        assert forall|j: int| 0 < j < statements.len() implies !((
        #[trigger] statements[j]) matches Ok(Entry::Multicast(_))) by {
            assert(rest[j - 1] == statements[j]);
        }
        if let Ok(Entry::Multicast(text)) = statements[0] {
            assert(is_last_multicast(statements, 0, text));
        }
    }
}

proof fn lemma_reads_agrees<A>(
    answers: spec_fn(Seq<char>, Option<A>) -> bool,
    known: Entries<A>,
    statements: Seq<Result<Entry<Seq<char>>, ConfigError>>,
    entries: Entries<A>,
)
    requires
        reads(answers, known, statements, Ok(entries)),
    ensures
        agrees(answers, known, statements, entries),
    decreases statements.len(),
{
    if statements.len() > 0 {
        let rest = statements.skip(1);
        match statements[0] {
            Err(_) => {},
            Ok(Entry::Fault(n_fault)) => {
                let next = known.with(Entry::Fault(n_fault));
                lemma_reads_agrees(answers, next, rest, entries);
                lemma_agrees_after_one(answers, known, next, statements, entries);
            },
            Ok(Entry::Replica(text)) => {
                let address = choose|address: Option<A>| #[trigger]
                    answers(text, address) && address is Some && reads(
                        answers,
                        known.with(Entry::Replica(address->0)),
                        rest,
                        Ok(entries),
                    );
                let next = known.with(Entry::Replica(address->0));
                lemma_reads_agrees(answers, next, rest, entries);
                assert(answers(text, Some(address->0)));
                lemma_agrees_after_one(answers, known, next, statements, entries);
            },
            Ok(Entry::Multicast(text)) => {
                let address = choose|address: Option<A>| #[trigger]
                    answers(text, address) && address is Some && reads(
                        answers,
                        known.with(Entry::Multicast(address->0)),
                        rest,
                        Ok(entries),
                    );
                let next = known.with(Entry::Multicast(address->0));
                lemma_reads_agrees(answers, next, rest, entries);
                lemma_agrees_after_one(answers, known, next, statements, entries);
            },
        }
    }
}

/// Where a text is read without error, there is one replica for each `replica`
/// line, in the order of the lines, with the address that its line was answered
/// with, whatever stands among these lines.
pub proof fn law_every_replica_line_is_a_replica<A>(
    answers: spec_fn(Seq<char>, Option<A>) -> bool,
    statements: Seq<Result<Entry<Seq<char>>, ConfigError>>,
    entries: Entries<A>,
)
    requires
        reads(answers, Entries::none(), statements, Ok(entries)),
    ensures
        entries.replica_address.len() == replica_texts(statements).len(),
        forall|i: int|
            0 <= i < entries.replica_address.len() ==> answers(
                replica_texts(statements)[i],
                Some(#[trigger] entries.replica_address[i]),
            ),
{
    lemma_reads_agrees(answers, Entries::none(), statements, entries);
    let texts = replica_texts(statements);
    assert forall|i: int| 0 <= i < entries.replica_address.len() implies answers(
        texts[i],
        Some(#[trigger] entries.replica_address[i]),
    ) by {
        assert(answers(texts[i], Some(entries.replica_address[0 + i])));
    }
}

/// Where a text is read without error, the last `f` line gives the number of
/// faulty replicas and the last `multicast` line the multicast address; there is
/// none of either only if no such line is there.
pub proof fn law_last_line_counts<A>(
    answers: spec_fn(Seq<char>, Option<A>) -> bool,
    statements: Seq<Result<Entry<Seq<char>>, ConfigError>>,
    entries: Entries<A>,
)
    requires
        reads(answers, Entries::none(), statements, Ok(entries)),
    ensures
        match entries.n_fault {
            Some(n_fault) => exists|i: int| #[trigger] is_last_fault(statements, i, n_fault),
            None => forall|i: int|
                0 <= i < statements.len() ==> !((#[trigger] statements[i]) matches Ok(
                    Entry::Fault(_),
                )),
        },
        match entries.multicast_address {
            Some(address) => exists|i: int, text: Seq<char>| #[trigger]
                is_last_multicast(statements, i, text) && answers(text, Some(address)),
            None => forall|i: int|
                0 <= i < statements.len() ==> !((#[trigger] statements[i]) matches Ok(
                    Entry::Multicast(_),
                )),
        },
{
    lemma_reads_agrees(answers, Entries::none(), statements, entries);
    if let Some(n_fault) = entries.n_fault {
        let (i, found) = choose|i: int, found: usize| #[trigger]
            is_last_fault(statements, i, found) && entries.n_fault == Some(found);
        assert(is_last_fault(statements, i, n_fault));
    }
}

/// The same of a text whose addresses are kept as they stand: the addresses are
/// exactly those of the `replica` lines, in order, and the last `f` and
/// `multicast` lines count.
pub proof fn law_texts_are_kept(
    statements: Seq<Result<Entry<Seq<char>>, ConfigError>>,
    entries: Entries<Seq<char>>,
)
    requires
        Entries::none().read(statements) == Ok::<Entries<Seq<char>>, ConfigError>(entries),
    ensures
        entries.replica_address == replica_texts(statements),
        match entries.n_fault {
            Some(n_fault) => exists|i: int| #[trigger] is_last_fault(statements, i, n_fault),
            None => forall|i: int|
                0 <= i < statements.len() ==> !((#[trigger] statements[i]) matches Ok(
                    Entry::Fault(_),
                )),
        },
        match entries.multicast_address {
            Some(text) => exists|i: int| #[trigger] is_last_multicast(statements, i, text),
            None => forall|i: int|
                0 <= i < statements.len() ==> !((#[trigger] statements[i]) matches Ok(
                    Entry::Multicast(_),
                )),
        },
{
    let same = |text: Seq<char>, address: Option<Seq<char>>| address == Some(text);
    lemma_read_is_reads(Entries::none(), statements);
    law_every_replica_line_is_a_replica(same, statements, entries);
    law_last_line_counts(same, statements, entries);
    assert forall|i: int| 0 <= i < entries.replica_address.len() implies #[trigger]
        entries.replica_address[i] == replica_texts(statements)[i] by {
        assert(same(replica_texts(statements)[i], Some(entries.replica_address[i])));
    }
    assert(entries.replica_address =~= replica_texts(statements));
    if let Some(text) = entries.multicast_address {
        let (i, found) = choose|i: int, found: Seq<char>| #[trigger]
            is_last_multicast(statements, i, found) && same(found, Some(text));
        assert(found == text);
        assert(is_last_multicast(statements, i, text));
    }
}

/// Keeping addresses as they stand is reading with texts as their own answers.
proof fn lemma_read_is_reads(
    known: Entries<Seq<char>>,
    statements: Seq<Result<Entry<Seq<char>>, ConfigError>>,
)
    ensures
        reads(
            |text: Seq<char>, address: Option<Seq<char>>| address == Some(text),
            known,
            statements,
            known.read(statements),
        ),
    decreases statements.len(),
{
    let same = |text: Seq<char>, address: Option<Seq<char>>| address == Some(text);
    if statements.len() > 0 {
        if let Ok(entry) = statements[0] {
            lemma_read_is_reads(known.with(entry), statements.skip(1));
            match entry {
                Entry::Replica(text) => {
                    assert(same(text, Some(text)));
                },
                Entry::Multicast(text) => {
                    assert(same(text, Some(text)));
                },
                _ => {},
            }
        }
    }
}

/// The text of the address in a statement, if there is one.
pub open spec fn address_text(statement: Result<Entry<Seq<char>>, ConfigError>) -> Option<
    Seq<char>,
> {
    match statement {
        Ok(Entry::Replica(text)) => Some(text),
        Ok(Entry::Multicast(text)) => Some(text),
        _ => None,
    }
}

/// Statement `i` is why a text is refused with `error`: it is this error, or
/// its address may be answered with `None`; and every earlier one was passed.
pub open spec fn is_reason<A>(
    answers: spec_fn(Seq<char>, Option<A>) -> bool,
    statements: Seq<Result<Entry<Seq<char>>, ConfigError>>,
    i: int,
    error: ConfigError,
) -> bool {
    &&& 0 <= i < statements.len()
    &&& {
        ||| statements[i] == Err::<Entry<Seq<char>>, ConfigError>(error)
        ||| error == ConfigError::InvalidAddress && address_text(statements[i]) is Some && answers(
            address_text(statements[i])->0,
            None,
        )
    }
    &&& forall|j: int| 0 <= j < i ==> may_pass(answers, #[trigger] statements[j])
}

/// A statement that reading may go on after: it is no error, and its address, if
/// there is one, may be answered with an address.
pub open spec fn may_pass<A>(
    answers: spec_fn(Seq<char>, Option<A>) -> bool,
    statement: Result<Entry<Seq<char>>, ConfigError>,
) -> bool {
    match statement {
        Err(_) => false,
        Ok(Entry::Fault(_)) => true,
        Ok(Entry::Replica(text)) => exists|address: Option<A>| #[trigger]
            answers(text, address) && address is Some,
        Ok(Entry::Multicast(text)) => exists|address: Option<A>| #[trigger]
            answers(text, address) && address is Some,
    }
}

/// A text is refused only for a reason, and the error is that of the reason. In
/// particular a text without erroneous lines whose addresses are never answered
/// with `None` is read without error.
pub proof fn law_refusal_has_a_reason<A>(
    answers: spec_fn(Seq<char>, Option<A>) -> bool,
    known: Entries<A>,
    statements: Seq<Result<Entry<Seq<char>>, ConfigError>>,
    error: ConfigError,
)
    requires
        reads(answers, known, statements, Err(error)),
    ensures
        exists|i: int| #[trigger] is_reason(answers, statements, i, error),
    decreases statements.len(),
{
    if statements.len() > 0 {
        let rest = statements.skip(1);
        let refused = error == ConfigError::InvalidAddress;
        match statements[0] {
            Err(_) => {
                assert(is_reason(answers, statements, 0, error));
            },
            Ok(Entry::Fault(n_fault)) => {
                law_refusal_has_a_reason(answers, known.with(Entry::Fault(n_fault)), rest, error);
                lemma_reason_is_further_on(answers, statements, error);
            },
            Ok(Entry::Replica(text)) => {
                if refused && answers(text, None) {
                    assert(is_reason(answers, statements, 0, error));
                } else {
                    let address = choose|address: Option<A>| #[trigger]
                        answers(text, address) && address is Some && reads(
                            answers,
                            known.with(Entry::Replica(address->0)),
                            rest,
                            Err(error),
                        );
                    let next = known.with(Entry::Replica(address->0));
                    assert(address is Some && answers(text, address));
                    assert(may_pass(answers, statements[0]));
                    law_refusal_has_a_reason(answers, next, rest, error);
                    lemma_reason_is_further_on(answers, statements, error);
                }
            },
            Ok(Entry::Multicast(text)) => {
                if refused && answers(text, None) {
                    assert(is_reason(answers, statements, 0, error));
                } else {
                    let address = choose|address: Option<A>| #[trigger]
                        answers(text, address) && address is Some && reads(
                            answers,
                            known.with(Entry::Multicast(address->0)),
                            rest,
                            Err(error),
                        );
                    let next = known.with(Entry::Multicast(address->0));
                    assert(address is Some && answers(text, address));
                    assert(may_pass(answers, statements[0]));
                    law_refusal_has_a_reason(answers, next, rest, error);
                    lemma_reason_is_further_on(answers, statements, error);
                }
            },
        }
    }
}

proof fn lemma_reason_is_further_on<A>(
    answers: spec_fn(Seq<char>, Option<A>) -> bool,
    statements: Seq<Result<Entry<Seq<char>>, ConfigError>>,
    error: ConfigError,
)
    requires
        statements.len() > 0,
        may_pass(answers, statements[0]),
        exists|i: int| #[trigger] is_reason(answers, statements.skip(1), i, error),
    ensures
        exists|i: int| #[trigger] is_reason(answers, statements, i, error),
{
    let rest = statements.skip(1);
    let i = choose|i: int| #[trigger] is_reason(answers, rest, i, error);
    assert(rest[i] == statements[i + 1]);
    assert forall|j: int| 0 <= j < i + 1 implies may_pass(
        answers,
        #[trigger] statements[j],
    ) by {
        if j > 0 {
            assert(rest[j - 1] == statements[j]);
        }
    }
    assert(is_reason(answers, statements, i + 1, error));
}

/// Where addresses are kept as they stand, the first erroneous line decides: a
/// text is refused with its error, and a text without such a line is read.
pub proof fn law_first_error_decides(
    known: Entries<Seq<char>>,
    statements: Seq<Result<Entry<Seq<char>>, ConfigError>>,
    i: int,
)
    requires
        0 <= i <= statements.len(),
        forall|j: int| 0 <= j < i ==> (#[trigger] statements[j]) is Ok,
        i < statements.len() ==> statements[i] is Err,
    ensures
        i == statements.len() ==> known.read(statements) is Ok,
        i < statements.len() ==> known.read(statements) == Err::<
            Entries<Seq<char>>,
            ConfigError,
        >(statements[i]->Err_0),
    decreases statements.len(),
{
    if i > 0 {
        let rest = statements.skip(1);
        assert(statements[0] is Ok);
        assert forall|j: int| 0 <= j < i - 1 implies (#[trigger] rest[j]) is Ok by {
            assert(rest[j] == statements[j + 1]);
        }
        law_first_error_decides(known.with(statements[0]->Ok_0), rest, i - 1);
    }
}

/// The configuration that a text stands for has just what was read of it, and
/// no signing keys. The text is refused if it could not be read, or if it gives
/// no number of faulty replicas, and for no other reason.
pub proof fn law_configuration_is_what_was_read<A, K>(
    config: Result<Config<A, K>, ConfigError>,
    read: Result<Entries<A>, ConfigError>,
)
    requires
        stands_for(config, read),
    ensures
        match config {
            Ok(config) => {
                &&& read matches Ok(entries)
                &&& config.replica_address@ == entries.replica_address
                &&& config.multicast_address == entries.multicast_address
                &&& entries.n_fault == Some(config.n_fault)
                &&& config.signing_key@.dom() == Set::<A>::empty()
            },
            Err(error) => {
                ||| read == Err::<Entries<A>, ConfigError>(error)
                ||| error == ConfigError::MissingFault && read is Ok && read->Ok_0.n_fault is None
            },
        },
{
    if let Ok(config) = config {
        assert(config.signing_key@.dom() =~= Set::empty());
    }
}

/// The answers on a text are what `parse` may return on a string with these
/// characters.
pub proof fn law_answers_are_those_of_parse<A, F: Fn(&str) -> Option<A>>(
    parse: F,
    string: &str,
    text: Seq<char>,
    address: Option<A>,
)
    ensures
        call_ensures(parse, (string,), address) ==> answers(parse)(string@, address),
        answers(parse)(text, address) ==> exists|found: &str|
            found@ == text && #[trigger] call_ensures(parse, (found,), address),
{
    if call_ensures(parse, (string,), address) {
        assert(parses(parse, string@, address));
    }
}

// ---------------------------------------------------------------------------
// Keys

/// Of several replicas with one address the key of the last one is found under
/// it, and under every other address what was there before.
pub proof fn law_last_replica_of_an_address_counts<A, K>(
    keys: Map<A, K>,
    addresses: Seq<A>,
    collected: Seq<K>,
    address: A,
)
    requires
        addresses.len() == collected.len(),
    ensures
        ({
            let after = keys_collected(keys, addresses, collected);
            &&& forall|i: int|
                0 <= i < addresses.len() && #[trigger] addresses[i] == address && (forall|j: int|
                    i < j < addresses.len() ==> #[trigger] addresses[j] != address)
                    ==> after.contains_key(address) && after[address] == collected[i]
            &&& !addresses.contains(address) ==> after.contains_key(address) == keys.contains_key(
                address,
            ) && (keys.contains_key(address) ==> after[address] == keys[address])
        }),
    decreases addresses.len(),
{
    let after = keys_collected(keys, addresses, collected);
    if addresses.len() > 0 {
        let earlier = addresses.drop_last();
        let n = addresses.len() - 1;
        law_last_replica_of_an_address_counts(keys, earlier, collected.drop_last(), address);
        assert(addresses[n] == addresses.last());
        assert forall|i: int|
            0 <= i < addresses.len() && #[trigger] addresses[i] == address && (forall|j: int|
                i < j < addresses.len() ==> #[trigger] addresses[j] != address) implies
            after.contains_key(address) && after[address] == collected[i] by {
            if i < n {
                assert(addresses[n] != address);
                assert(earlier[i] == address);
                assert forall|j: int| i < j < earlier.len() implies #[trigger] earlier[j]
                    != address by {
                    assert(addresses[j] != address);
                }
            }
        }
        if !addresses.contains(address) {
            assert(addresses[n] != address);
            if earlier.contains(address) {
                let i = choose|i: int| 0 <= i < earlier.len() && earlier[i] == address;
                assert(addresses[i] == address);
            }
        }
    }
}

/// Nothing more is asked of addresses to be keys than that hashing and
/// comparing them is consistent and that a clone is the same address.
pub proof fn law_what_keys_are<A: Clone>()
    ensures
        are_keys::<A>() <==> vstd::std_specs::hash::obeys_key_model::<A>() && forall|a: A, b: A|
            #[trigger] cloned(a, b) ==> a == b,
{
}

/// Integers can be keys of a map.
pub proof fn law_integers_are_keys()
    ensures
        are_keys::<u8>(),
        are_keys::<u16>(),
        are_keys::<u32>(),
        are_keys::<u64>(),
        are_keys::<usize>(),
{
    broadcast use vstd::std_specs::hash::group_hash_axioms;

}

} // verus!
