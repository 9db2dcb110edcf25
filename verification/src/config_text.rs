//! The text form of a configuration.
//!
//! A text has one entry per line. What follows a `#` is a comment, and lines
//! that hold nothing else are ignored. An entry is a keyword, one white space
//! character and a value:
//!
//! ```text
//! f 1                   # how many replicas may be faulty
//! replica 10.0.0.1:3000 # one line per replica, in the order of their ids
//! multicast 10.0.0.255:3000
//! ```
//!
//! Of several `f` or `multicast` entries the last one counts, and each of them
//! has to be well formed.

use std::collections::HashMap;
use vstd::prelude::*;

use crate::config::Config;
use crate::text::{
    characters, find, find_white_space, is_word, length_before, lines, number_value, parse_number,
    trim, trimmed_end, trimmed_start, white_space,
};

verus! {

/// Why a text is no configuration.
#[derive(Clone, Copy, Debug, PartialEq, Eq, Structural)]
pub enum ConfigError {
    /// A line holds a keyword and nothing else.
    MissingValue,
    /// A line starts with something else than a keyword.
    UnknownKeyword,
    /// The number of faulty replicas is not a number.
    InvalidFault,
    /// The number of faulty replicas is missing.
    MissingFault,
    /// An address is not well formed.
    InvalidAddress,
}

/// An entry of a configuration text, with addresses of type `T`.
pub enum Entry<T> {
    Fault(usize),
    Replica(T),
    Multicast(T),
}

/// What has been read of a configuration text, with addresses of type `T`.
pub struct Entries<T> {
    pub replica_address: Seq<T>,
    pub multicast_address: Option<T>,
    pub n_fault: Option<usize>,
}

/// What is left of a line without its comment and the white space around.
pub open spec fn content_of(line: Seq<char>) -> Seq<char> {
    trimmed_end(trimmed_start(line.take(length_before(line, |c: char| c == '#') as int)))
}

/// The entry in a line, if there is one.
pub open spec fn entry_of(line: Seq<char>) -> Result<Option<Entry<Seq<char>>>, ConfigError> {
    let content = content_of(line);
    let n = length_before(content, |c: char| white_space(c)) as int;
    let keyword = content.take(n);
    let value = content.skip(n + 1);
    if content.len() == 0 {
        Ok(None)
    } else if n == content.len() {
        Err(ConfigError::MissingValue)
    } else if keyword == "f"@ {
        match number_value(value) {
            Some(n_fault) => Ok(Some(Entry::Fault(n_fault))),
            None => Err(ConfigError::InvalidFault),
        }
    } else if keyword == "replica"@ {
        Ok(Some(Entry::Replica(value)))
    } else if keyword == "multicast"@ {
        Ok(Some(Entry::Multicast(value)))
    } else {
        Err(ConfigError::UnknownKeyword)
    }
}

/// What the lines of a text say, one after another: entries and errors.
pub open spec fn statements(lines: Seq<Seq<char>>) -> Seq<Result<Entry<Seq<char>>, ConfigError>>
    decreases lines.len(),
{
    if lines.len() == 0 {
        seq![]
    } else {
        let rest = statements(lines.skip(1));
        match entry_of(lines[0]) {
            Ok(None) => rest,
            Ok(Some(entry)) => seq![Ok(entry)] + rest,
            Err(error) => seq![Err(error)] + rest,
        }
    }
}

impl<T> Entries<T> {
    pub open spec fn none() -> Self {
        Entries { replica_address: seq![], multicast_address: None, n_fault: None }
    }

    /// What is known after one more entry.
    pub open spec fn with(self, entry: Entry<T>) -> Self {
        match entry {
            Entry::Fault(n_fault) => Entries { n_fault: Some(n_fault), ..self },
            Entry::Replica(address) => Entries {
                replica_address: self.replica_address.push(address),
                ..self
            },
            Entry::Multicast(address) => Entries { multicast_address: Some(address), ..self },
        }
    }
}

impl Entries<Seq<char>> {
    /// What is known after `statements`, unless one of them is an error: then
    /// the first error decides.
    pub open spec fn read(
        self,
        statements: Seq<Result<Entry<Seq<char>>, ConfigError>>,
    ) -> Result<Self, ConfigError>
        decreases statements.len(),
    {
        if statements.len() == 0 {
            Ok(self)
        } else {
            match statements[0] {
                Ok(entry) => self.with(entry).read(statements.skip(1)),
                Err(error) => Err(error),
            }
        }
    }
}

/// `parse` may answer `address` on a string with these characters.
pub open spec fn parses<A, F: Fn(&str) -> Option<A>>(
    parse: F,
    text: Seq<char>,
    address: Option<A>,
) -> bool {
    exists|string: &str| string@ == text && #[trigger] call_ensures(parse, (string,), address)
}

/// The answers that `parse` may give on texts.
pub open spec fn answers<A, F: Fn(&str) -> Option<A>>(parse: F) -> spec_fn(
    Seq<char>,
    Option<A>,
) -> bool {
    |text: Seq<char>, address: Option<A>| parses(parse, text, address)
}

/// `known` and then `statements` may end in `result`, where `answers` says how
/// the text of an address may be answered: with the address or, if it is not
/// well formed, with `None`. Whatever is wrong first decides, a line or an
/// address.
pub open spec fn reads<A>(
    answers: spec_fn(Seq<char>, Option<A>) -> bool,
    known: Entries<A>,
    statements: Seq<Result<Entry<Seq<char>>, ConfigError>>,
    result: Result<Entries<A>, ConfigError>,
) -> bool
    decreases statements.len(),
{
    if statements.len() == 0 {
        result == Ok::<Entries<A>, ConfigError>(known)
    } else {
        let rest = statements.skip(1);
        match statements[0] {
            Err(error) => result == Err::<Entries<A>, ConfigError>(error),
            Ok(Entry::Fault(n_fault)) => reads(
                answers,
                known.with(Entry::Fault(n_fault)),
                rest,
                result,
            ),
            Ok(Entry::Replica(text)) => exists|address: Option<A>| #[trigger]
                answers(text, address) && match address {
                    None => result == Err::<Entries<A>, ConfigError>(ConfigError::InvalidAddress),
                    Some(address) => reads(
                        answers,
                        known.with(Entry::Replica(address)),
                        rest,
                        result,
                    ),
                },
            Ok(Entry::Multicast(text)) => exists|address: Option<A>| #[trigger]
                answers(text, address) && match address {
                    None => result == Err::<Entries<A>, ConfigError>(ConfigError::InvalidAddress),
                    Some(address) => reads(
                        answers,
                        known.with(Entry::Multicast(address)),
                        rest,
                        result,
                    ),
                },
        }
    }
}

/// `config` is the configuration that a text with these entries stands for:
/// it needs a number of faulty replicas and has no signing keys.
pub open spec fn stands_for<A, K>(
    config: Result<Config<A, K>, ConfigError>,
    read: Result<Entries<A>, ConfigError>,
) -> bool {
    match read {
        Err(error) => config == Err::<Config<A, K>, ConfigError>(error),
        Ok(entries) => match entries.n_fault {
            None => config == Err::<Config<A, K>, ConfigError>(ConfigError::MissingFault),
            Some(n_fault) => config matches Ok(config) && {
                &&& config.replica_address@ == entries.replica_address
                &&& config.multicast_address == entries.multicast_address
                &&& config.n_fault == n_fault
                &&& config.signing_key@ == Map::<A, K>::empty()
            },
        },
    }
}

/// Reads the entry in one line: the characters `from` to `to` of `text`.
fn read_line<'a>(text: &'a str, chars: &Vec<char>, from: usize, to: usize) -> (entry: Result<
    Option<Entry<&'a str>>,
    ConfigError,
>)
    requires
        chars@ == text@,
        from <= to <= chars.len(),
    ensures
        match entry_of(text@.subrange(from as int, to as int)) {
            Err(error) => entry == Err::<Option<Entry<&'a str>>, ConfigError>(error),
            Ok(None) => entry == Ok::<Option<Entry<&'a str>>, ConfigError>(None),
            Ok(Some(Entry::Fault(n_fault))) => entry == Ok::<
                Option<Entry<&'a str>>,
                ConfigError,
            >(Some(Entry::Fault(n_fault))),
            Ok(Some(Entry::Replica(value))) => entry matches Ok(Some(Entry::Replica(address)))
                && address@ == value,
            Ok(Some(Entry::Multicast(value))) => entry matches Ok(Some(Entry::Multicast(address)))
                && address@ == value,
        },
{
    let ghost line = text@.subrange(from as int, to as int);
    let comment = find(chars, from, to, '#');
    assert(line.take(comment - from) =~= text@.subrange(from as int, comment as int));
    let (low, high) = trim(chars, from, comment);
    let ghost content = text@.subrange(low as int, high as int);
    if low == high {
        return Ok(None);
    }
    let end = find_white_space(chars, low, high);
    if end == high {
        return Err(ConfigError::MissingValue);
    }
    let ghost value = text@.subrange(end + 1, high as int);
    assert(content.take(end - low) =~= text@.subrange(low as int, end as int));
    assert(content.skip(end - low + 1) =~= value);
    if is_word(chars, low, end, "f") {
        match parse_number(chars, end + 1, high) {
            Some(n_fault) => Ok(Some(Entry::Fault(n_fault))),
            None => Err(ConfigError::InvalidFault),
        }
    } else if is_word(chars, low, end, "replica") {
        Ok(Some(Entry::Replica(text.substring_char(end + 1, high))))
    } else if is_word(chars, low, end, "multicast") {
        Ok(Some(Entry::Multicast(text.substring_char(end + 1, high))))
    } else {
        Err(ConfigError::UnknownKeyword)
    }
}

/// The entries read so far.
struct Reading<A> {
    replica_address: Vec<A>,
    multicast_address: Option<A>,
    n_fault: Option<usize>,
}

impl<A> Reading<A> {
    spec fn view(&self) -> Entries<A> {
        Entries {
            replica_address: self.replica_address@,
            multicast_address: self.multicast_address,
            n_fault: self.n_fault,
        }
    }
}

impl<A, K> Config<A, K> {
    /// What a configuration text says, without signing keys. Each address is
    /// handed to `parse` when its line is read.
    pub fn read_with<F: Fn(&str) -> Option<A>>(text: &str, parse: F) -> (config: Result<
        Self,
        ConfigError,
    >)
        requires
            forall|text: &str| #[trigger] call_requires(parse, (text,)),
        ensures
            exists|read: Result<Entries<A>, ConfigError>| #[trigger]
                reads(answers(parse), Entries::none(), statements(lines(text@)), read) && stands_for(
                    config,
                    read,
                ),
    {
        let chars = characters(text);
        let ghost rule = answers(parse);
        let ghost all = statements(lines(text@));
        let mut reading: Reading<A> = Reading {
            replica_address: Vec::new(),
            multicast_address: None,
            n_fault: None,
        };
        assert(reading@.replica_address =~= seq![]);
        assert(text@.skip(0) =~= text@);
        let mut position: usize = 0;
        loop
            invariant_except_break
                forall|read: Result<Entries<A>, ConfigError>| #[trigger]
                    reads(
                        rule,
                        reading@,
                        statements(lines(text@.skip(position as int))),
                        read,
                    ) ==> reads(rule, Entries::none(), all, read),
            invariant
                rule == answers(parse),
                all == statements(lines(text@)),
                forall|text: &str| #[trigger] call_requires(parse, (text,)),
                chars@ == text@,
                position <= chars.len(),
            ensures
                reads(rule, Entries::none(), all, Ok::<Entries<A>, ConfigError>(reading@)),
            decreases chars.len() - position,
        {
            let ghost rest = text@.skip(position as int);
            let ghost known = reading@;
            let end = find(&chars, position, chars.len(), '\n');
            let entry = read_line(text, &chars, position, end);
            let ghost line = rest.take(end - position);
            let ghost later = if end < chars.len() {
                lines(text@.skip(end + 1))
            } else {
                seq![]
            };
            proof {
                assert(rest =~= chars@.subrange(position as int, chars.len() as int));
                assert(line =~= text@.subrange(position as int, end as int));
                if end < chars.len() {
                    assert(rest.skip(end - position + 1) =~= text@.skip(end + 1));
                }
                assert(lines(rest) =~= seq![line] + later);
                assert(lines(rest).skip(1) =~= later);
            }
            match entry {
                Ok(None) => {},
                Ok(Some(Entry::Fault(n_fault))) => {
                    reading.n_fault = Some(n_fault);
                    assert(reading@ == known.with(Entry::Fault(n_fault)));
                },
                Ok(Some(Entry::Replica(value))) => {
                    let address = parse(value);
                    assert(rule(value@, address));
                    match address {
                        Some(address) => {
                            reading.replica_address.push(address);
                            assert(reading@ == known.with(Entry::Replica(address)));
                        },
                        None => {
                            assert(reads(
                                rule,
                                known,
                                statements(lines(rest)),
                                Err::<Entries<A>, ConfigError>(ConfigError::InvalidAddress),
                            ));
                            return Err(ConfigError::InvalidAddress);
                        },
                    }
                },
                Ok(Some(Entry::Multicast(value))) => {
                    let address = parse(value);
                    assert(rule(value@, address));
                    match address {
                        Some(address) => {
                            reading.multicast_address = Some(address);
                            assert(reading@ == known.with(Entry::Multicast(address)));
                        },
                        None => {
                            assert(reads(
                                rule,
                                known,
                                statements(lines(rest)),
                                Err::<Entries<A>, ConfigError>(ConfigError::InvalidAddress),
                            ));
                            return Err(ConfigError::InvalidAddress);
                        },
                    }
                },
                Err(error) => {
                    assert(reads(
                        rule,
                        known,
                        statements(lines(rest)),
                        Err::<Entries<A>, ConfigError>(error),
                    ));
                    return Err(error);
                },
            }
            assert forall|read: Result<Entries<A>, ConfigError>| #[trigger]
                reads(rule, reading@, statements(later), read) implies reads(
                rule,
                Entries::none(),
                all,
                read,
            ) by {
                assert(statements(lines(rest)).len() > statements(later).len() ==> statements(
                    lines(rest),
                ).skip(1) =~= statements(later));
                assert(reads(rule, known, statements(lines(rest)), read));
            }
            if end == chars.len() {
                assert(reads(
                    rule,
                    reading@,
                    statements(later),
                    Ok::<Entries<A>, ConfigError>(reading@),
                ));
                break;
            }
            position = end + 1;
        }
        let ghost read = Ok::<Entries<A>, ConfigError>(reading@);
        let config = match reading.n_fault {
            Some(n_fault) => Ok(
                Config {
                    replica_address: reading.replica_address,
                    multicast_address: reading.multicast_address,
                    n_fault,
                    signing_key: HashMap::new(),
                },
            ),
            None => Err(ConfigError::MissingFault),
        };
        assert(stands_for(config, read));
        config
    }
}

impl Entries<String> {
    /// The same with the texts of the addresses.
    pub open spec fn texts(self) -> Entries<Seq<char>> {
        Entries {
            replica_address: self.replica_address.map_values(|address: String| address@),
            multicast_address: match self.multicast_address {
                Some(address) => Some(address@),
                None => None,
            },
            n_fault: self.n_fault,
        }
    }
}

/// Where every address is its own text, there is one way to read a text.
proof fn lemma_reads_texts(
    answers: spec_fn(Seq<char>, Option<String>) -> bool,
    known: Entries<String>,
    statements: Seq<Result<Entry<Seq<char>>, ConfigError>>,
    result: Result<Entries<String>, ConfigError>,
)
    requires
        forall|text: Seq<char>, address: Option<String>| #[trigger]
            answers(text, address) ==> address is Some && address->0@ == text,
        reads(answers, known, statements, result),
    ensures
        known.texts().read(statements) == match result {
            Ok(entries) => Ok::<Entries<Seq<char>>, ConfigError>(entries.texts()),
            Err(error) => Err(error),
        },
    decreases statements.len(),
{
    if statements.len() > 0 {
        let rest = statements.skip(1);
        match statements[0] {
            Err(_) => {},
            Ok(Entry::Fault(n_fault)) => {
                let next = known.with(Entry::Fault(n_fault));
                lemma_reads_texts(answers, next, rest, result);
                assert(next.texts() == known.texts().with(Entry::Fault(n_fault)));
            },
            Ok(Entry::Replica(text)) => {
                let address = choose|address: Option<String>| #[trigger]
                    answers(text, address) && match address {
                        None => result == Err::<Entries<String>, ConfigError>(
                            ConfigError::InvalidAddress,
                        ),
                        Some(address) => reads(
                            answers,
                            known.with(Entry::Replica(address)),
                            rest,
                            result,
                        ),
                    };
                let next = known.with(Entry::Replica(address->0));
                lemma_reads_texts(answers, next, rest, result);
                assert(next.texts().replica_address =~= known.texts().replica_address.push(text));
                assert(next.texts() == known.texts().with(Entry::Replica(text)));
            },
            Ok(Entry::Multicast(text)) => {
                let address = choose|address: Option<String>| #[trigger]
                    answers(text, address) && match address {
                        None => result == Err::<Entries<String>, ConfigError>(
                            ConfigError::InvalidAddress,
                        ),
                        Some(address) => reads(
                            answers,
                            known.with(Entry::Multicast(address)),
                            rest,
                            result,
                        ),
                    };
                let next = known.with(Entry::Multicast(address->0));
                lemma_reads_texts(answers, next, rest, result);
                assert(next.texts() == known.texts().with(Entry::Multicast(text)));
            },
        }
    }
}

impl<K> Config<String, K> {
    /// What a configuration text says, with the addresses as they stand
    /// there and without signing keys.
    pub fn from_str(text: &str) -> (config: Result<Self, ConfigError>)
        ensures
            match Entries::none().read(statements(lines(text@))) {
                Err(error) => config == Err::<Self, ConfigError>(error),
                Ok(entries) => match entries.n_fault {
                    None => config == Err::<Self, ConfigError>(ConfigError::MissingFault),
                    Some(n_fault) => config matches Ok(config) && {
                        &&& config.replica_address@.map_values(|address: String| address@)
                            == entries.replica_address
                        &&& config.multicast_address is Some
                            <==> entries.multicast_address is Some
                        &&& config.multicast_address matches Some(address)
                            ==> entries.multicast_address == Some(address@)
                        &&& config.n_fault == n_fault
                        &&& config.signing_key@ == Map::<String, K>::empty()
                    },
                },
            },
    {
        let keep = |value: &str| -> (address: Option<String>)
            ensures
                address is Some && address->0@ == value@,
            { Some(value.to_string()) };
        let config = Self::read_with(text, keep);
        proof {
            let all = statements(lines(text@));
            let read = choose|read: Result<Entries<String>, ConfigError>| #[trigger]
                reads(answers(keep), Entries::none(), all, read) && stands_for(config, read);
            lemma_reads_texts(answers(keep), Entries::none(), all, read);
            assert(Entries::<String>::none().texts().replica_address =~= seq![]);
        }
        config
    }
}

/// Nothing but white space.
pub open spec fn all_white_space(text: Seq<char>) -> bool {
    forall|i: int| 0 <= i < text.len() ==> white_space(#[trigger] text[i])
}

/// `line` is `plain` between two stretches of white space, with or without a
/// comment behind.
pub open spec fn around(
    before: Seq<char>,
    plain: Seq<char>,
    after: Seq<char>,
    comment: Seq<char>,
    line: Seq<char>,
) -> bool {
    &&& all_white_space(before)
    &&& all_white_space(after)
    &&& {
        ||| line == before + plain + after
        ||| line == before + plain + after + seq!['#'] + comment
    }
}

/// `line` is `plain` with white space around it and perhaps a comment.
pub open spec fn padded(plain: Seq<char>, line: Seq<char>) -> bool {
    exists|before: Seq<char>, after: Seq<char>, comment: Seq<char>| #[trigger]
        around(before, plain, after, comment, line)
}

/// `decorated` has the lines of `plain`, padded, and among them lines that
/// hold only white space and perhaps a comment.
pub open spec fn decorates(plain: Seq<Seq<char>>, decorated: Seq<Seq<char>>) -> bool
    decreases decorated.len(),
{
    if decorated.len() == 0 {
        plain.len() == 0
    } else {
        ||| padded(seq![], decorated[0]) && decorates(plain, decorated.skip(1))
        ||| plain.len() > 0 && padded(plain[0], decorated[0]) && decorates(
            plain.skip(1),
            decorated.skip(1),
        )
    }
}

/// Where the first such character stands, if there is one.
proof fn lemma_length_before(text: Seq<char>, stop: char)
    ensures
        ({
            let n = length_before(text, |c: char| c == stop);
            &&& n <= text.len()
            &&& n < text.len() ==> text[n as int] == stop
            &&& forall|i: int| 0 <= i < n ==> #[trigger] text[i] != stop
        }),
    decreases text.len(),
{
    if text.len() > 0 && text[0] != stop {
        let rest = text.skip(1);
        let n = length_before(rest, |c: char| c == stop) as int;
        lemma_length_before(rest, stop);
        assert forall|i: int| 0 <= i < n + 1 implies #[trigger] text[i] != stop by {
            if i > 0 {
                assert(rest[i - 1] == text[i]);
            }
        }
        if n < rest.len() {
            assert(rest[n] == text[n + 1]);
        }
    }
}

/// A text without the character goes up to where the character follows.
proof fn lemma_length_before_is(text: Seq<char>, stop: char, rest: Seq<char>)
    requires
        forall|i: int| 0 <= i < text.len() ==> #[trigger] text[i] != stop,
        rest.len() == 0 || rest[0] == stop,
    ensures
        length_before(text + rest, |c: char| c == stop) == text.len(),
{
    let whole = text + rest;
    let n = length_before(whole, |c: char| c == stop);
    lemma_length_before(whole, stop);
    if n < text.len() {
        assert(whole[n as int] == text[n as int]);
    } else if n > text.len() {
        assert(whole[text.len() as int] == rest[0]);
    }
}

/// Trailing white space is trimmed before or after the leading one.
proof fn lemma_trimmed_push(text: Seq<char>, after: char)
    requires
        white_space(after),
    ensures
        trimmed_end(trimmed_start(text.push(after))) == trimmed_end(trimmed_start(text)),
    decreases text.len(),
{
    let whole = text.push(after);
    if text.len() == 0 {
        assert(whole.skip(1) =~= text);
    } else if white_space(text[0]) {
        assert(whole.skip(1) =~= text.skip(1).push(after));
        lemma_trimmed_push(text.skip(1), after);
    } else {
        assert(whole.drop_last() =~= text);
    }
}

/// White space around is trimmed.
proof fn lemma_trimmed_around(before: Seq<char>, text: Seq<char>, after: Seq<char>)
    requires
        all_white_space(before),
        all_white_space(after),
    ensures
        trimmed_end(trimmed_start(before + text + after)) == trimmed_end(trimmed_start(text)),
    decreases before.len() + after.len(),
{
    let whole = before + text + after;
    if before.len() > 0 {
        assert(whole[0] == before[0]);
        assert(whole.skip(1) =~= before.skip(1) + text + after);
        lemma_trimmed_around(before.skip(1), text, after);
    } else if after.len() > 0 {
        assert(whole =~= (before + text + after.drop_last()).push(after.last()));
        lemma_trimmed_push(before + text + after.drop_last(), after.last());
        lemma_trimmed_around(before, text, after.drop_last());
    } else {
        assert(whole =~= text);
    }
}

/// White space around a line and a comment behind it do not change what the
/// line says.
pub proof fn law_padding_is_ignored(plain: Seq<char>, line: Seq<char>)
    requires
        padded(plain, line),
    ensures
        content_of(line) == content_of(plain),
        entry_of(line) == entry_of(plain),
{
    let (before, after, comment) = choose|
        before: Seq<char>,
        after: Seq<char>,
        comment: Seq<char>,
    | #[trigger] around(before, plain, after, comment, line);
    let n = length_before(plain, |c: char| c == '#') as int;
    let said = plain.take(n);
    lemma_length_before(plain, '#');
    let end = if line == before + plain + after {
        Seq::<char>::empty()
    } else {
        seq!['#'] + comment
    };
    assert(line =~= before + plain + after + end);
    if n < plain.len() {
        let kept = before + said;
        let rest = plain.skip(n) + after + end;
        assert(line =~= kept + rest);
        lemma_length_before_is(kept, '#', rest);
        assert(line.take(kept.len() as int) =~= kept + Seq::<char>::empty());
        lemma_trimmed_around(before, said, seq![]);
    } else {
        let kept = before + plain + after;
        assert(said =~= plain);
        assert(line =~= kept + end);
        lemma_length_before_is(kept, '#', end);
        assert(line.take(kept.len() as int) =~= kept);
        lemma_trimmed_around(before, plain, after);
    }
}

proof fn lemma_decorated_statements(plain: Seq<Seq<char>>, decorated: Seq<Seq<char>>)
    requires
        decorates(plain, decorated),
    ensures
        statements(decorated) == statements(plain),
    decreases decorated.len(),
{
    if decorated.len() > 0 {
        if padded(seq![], decorated[0]) && decorates(plain, decorated.skip(1)) {
            law_padding_is_ignored(seq![], decorated[0]);
            assert(content_of(seq![]).len() == 0) by {
                let nothing = Seq::<char>::empty();
                assert(nothing.take(0) =~= nothing);
            }
            lemma_decorated_statements(plain, decorated.skip(1));
        } else {
            law_padding_is_ignored(plain[0], decorated[0]);
            lemma_decorated_statements(plain.skip(1), decorated.skip(1));
        }
    }
}

/// Blank lines, lines with only a comment, comments behind a line and white
/// space around it do not change what a text says: it reads the same, however
/// addresses are parsed.
pub proof fn law_decoration_is_ignored<A>(
    plain: Seq<char>,
    decorated: Seq<char>,
    answers: spec_fn(Seq<char>, Option<A>) -> bool,
    result: Result<Entries<A>, ConfigError>,
)
    requires
        decorates(lines(plain), lines(decorated)),
    ensures
        statements(lines(decorated)) == statements(lines(plain)),
        Entries::<Seq<char>>::none().read(statements(lines(decorated))) == Entries::<
            Seq<char>,
        >::none().read(statements(lines(plain))),
        reads(answers, Entries::none(), statements(lines(decorated)), result) == reads(
            answers,
            Entries::none(),
            statements(lines(plain)),
            result,
        ),
{
    lemma_decorated_statements(lines(plain), lines(decorated));
}

/// No answer on this text is an address.
pub open spec fn refuses<A>(
    answers: spec_fn(Seq<char>, Option<A>) -> bool,
    text: Seq<char>,
) -> bool {
    forall|address: Option<A>| #[trigger] answers(text, address) ==> address is None
}

/// A line is erroneous, or the address in it is refused.
pub open spec fn is_wrong<A>(
    answers: spec_fn(Seq<char>, Option<A>) -> bool,
    statement: Result<Entry<Seq<char>>, ConfigError>,
) -> bool {
    match statement {
        Err(_) => true,
        Ok(Entry::Fault(_)) => false,
        Ok(Entry::Replica(text)) => refuses(answers, text),
        Ok(Entry::Multicast(text)) => refuses(answers, text),
    }
}

/// No wrong line is passed over: a text with an erroneous line, or with an
/// address that is not well formed, is refused, also where a later line would
/// have replaced what this one says.
pub proof fn law_wrong_lines_are_refused<A>(
    answers: spec_fn(Seq<char>, Option<A>) -> bool,
    known: Entries<A>,
    statements: Seq<Result<Entry<Seq<char>>, ConfigError>>,
    i: int,
    result: Result<Entries<A>, ConfigError>,
)
    requires
        0 <= i < statements.len(),
        is_wrong(answers, statements[i]),
        reads(answers, known, statements, result),
    ensures
        result is Err,
    decreases statements.len(),
{
    if i > 0 {
        let rest = statements.skip(1);
        assert(rest[i - 1] == statements[i]);
        match statements[0] {
            Err(_) => {},
            Ok(Entry::Fault(n_fault)) => {
                law_wrong_lines_are_refused(
                    answers,
                    known.with(Entry::Fault(n_fault)),
                    rest,
                    i - 1,
                    result,
                );
            },
            Ok(Entry::Replica(text)) => {
                if result is Ok {
                    let address = choose|address: Option<A>| #[trigger]
                        answers(text, address) && address is Some && reads(
                            answers,
                            known.with(Entry::Replica(address->0)),
                            rest,
                            result,
                        );
                    law_wrong_lines_are_refused(
                        answers,
                        known.with(Entry::Replica(address->0)),
                        rest,
                        i - 1,
                        result,
                    );
                }
            },
            Ok(Entry::Multicast(text)) => {
                if result is Ok {
                    let address = choose|address: Option<A>| #[trigger]
                        answers(text, address) && address is Some && reads(
                            answers,
                            known.with(Entry::Multicast(address->0)),
                            rest,
                            result,
                        );
                    law_wrong_lines_are_refused(
                        answers,
                        known.with(Entry::Multicast(address->0)),
                        rest,
                        i - 1,
                        result,
                    );
                }
            },
        }
    }
}

} // verus!
