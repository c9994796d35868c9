//! Query texts that take over the query texts of other languages.
use crate::byte_text::{
    between, byte_len, fits, lemma_ends_are_boundaries, same_text, str_between, str_len,
};
use crate::parts::{parts_of, split_text, texts_of};
use crate::regexes::{compile_regex, find_groups, group_matches, lie_apart, regex_of, GroupMatch};
use regex::Regex;
use vstd::prelude::*;

verus! {

/// A directive that names the languages whose query texts are to be put in its place.
pub const INHERITS: &'static str = r";+\s*inherits\s*:?\s*([a-z_,()-]+)\s*";

/// How deep languages may inherit from each other.
pub const INHERIT_DEPTH: u32 = 0xffff_ffff;

/// Why a query text cannot be put together.
#[derive(Debug, PartialEq, Eq)]
pub enum ReadQueryError<E> {
    /// The query text of a language cannot be read.
    Read { language: String, source: E },
    /// A language inherits from itself, by way of the others in the chain.
    Cycle { chain: Vec<String> },
    /// Languages inherit from ever new languages.
    Endless { language: String },
}

/// Why a query text cannot be put together, with strings as sequences of characters.
#[verifier::ext_equal]
pub enum ReadQueryErrorView<E> {
    Read { language: Seq<char>, source: E },
    Cycle { chain: Seq<Seq<char>> },
    Endless { language: Seq<char> },
}

impl<E> View for ReadQueryError<E> {
    type V = ReadQueryErrorView<E>;

    open spec fn view(&self) -> ReadQueryErrorView<E> {
        match *self {
            ReadQueryError::Read { language, source } => ReadQueryErrorView::Read {
                language: language@,
                source,
            },
            ReadQueryError::Cycle { chain } => ReadQueryErrorView::Cycle {
                chain: texts_of(chain@),
            },
            ReadQueryError::Endless { language } => ReadQueryErrorView::Endless {
                language: language@,
            },
        }
    }
}

/// Languages with arrows between them.
pub open spec fn with_arrows(chain: Seq<Seq<char>>) -> Seq<char>
    decreases chain.len(),
{
    if chain.len() == 0 {
        Seq::empty()
    } else if chain.len() == 1 {
        chain[0]
    } else {
        with_arrows(chain.drop_last()) + " -> "@ + chain.last()
    }
}

/// What is said of an error whose source is a text.
pub open spec fn message_of(error: ReadQueryErrorView<String>) -> Seq<char> {
    match error {
        ReadQueryErrorView::Read { language, source } => "failed to read query for language "@
            + language + ": "@ + source@,
        ReadQueryErrorView::Cycle { chain } => if chain.len() == 0 {
            Seq::empty()
        } else {
            "cyclic query inherits: "@ + with_arrows(chain)
        },
        ReadQueryErrorView::Endless { language } => "endless query inherits: "@ + language,
    }
}

impl ReadQueryError<String> {
    /// Says what is wrong.
    pub fn message(&self) -> (text: String)
        ensures
            text@ == message_of(self@),
    {
        let mut text = String::new();
        assert(text@ =~= Seq::empty());
        match self {
            ReadQueryError::Read { language, source } => {
                text.append("failed to read query for language ");
                text.append(language);
                text.append(": ");
                text.append(source);
                assert(text@ =~= message_of(self@));
            },
            ReadQueryError::Cycle { chain } => {
                let ghost all = texts_of(chain@);
                if chain.len() > 0 {
                    text.append("cyclic query inherits: ");
                }
                let ghost start = text@;
                assert(all.take(0) =~= Seq::empty());
                assert(start + Seq::<char>::empty() =~= start);
                for i in 0..chain.len()
                    invariant
                        all == texts_of(chain@),
                        text@ == start + with_arrows(all.take(i as int)),
                {
                    proof {
                        assert(all.take(i + 1).drop_last() =~= all.take(i as int));
                        assert(all.take(i + 1).last() == chain@[i as int]@);
                    }
                    if i > 0 {
                        text.append(" -> ");
                    }
                    text.append(&chain[i]);
                    assert(text@ =~= start + with_arrows(all.take(i + 1)));
                }
                assert(all.take(chain.len() as int) =~= all);
                assert(text@ =~= message_of(self@));
            },
            ReadQueryError::Endless { language } => {
                text.append("endless query inherits: ");
                text.append(language);
                assert(text@ =~= message_of(self@));
            },
        }
        text
    }
}

/// The regular expression of inherit directives.
pub open spec fn inherits_regex() -> Option<Regex> {
    match regex_of(INHERITS@) {
        Ok(regex) => Some(regex),
        Err(_) => None,
    }
}

/// The directives of a query text.
pub open spec fn directives(query: Seq<char>) -> Seq<GroupMatch> {
    match inherits_regex() {
        Some(regex) => group_matches(regex, query),
        None => Seq::empty(),
    }
}

/// The languages that a directive names.
pub open spec fn named_languages(query: Seq<char>, directive: GroupMatch) -> Seq<Seq<char>> {
    match directive.group {
        Some(group) => parts_of(between(query, group.0 as int, group.1 as int), ','),
        None => Seq::empty(),
    }
}

/// The chain by which a language inherits from itself.
pub open spec fn cycle(stack: Seq<Seq<char>>, language: Seq<char>) -> Seq<Seq<char>> {
    stack.skip(stack.index_of_first(language)->0).push(language)
}

/// The query text of a language with the texts that it inherits; `stack` holds the languages that
/// are being put together.
pub open spec fn expanded<E>(
    texts: spec_fn(Seq<char>) -> Result<Seq<char>, E>,
    language: Seq<char>,
    stack: Seq<Seq<char>>,
    depth: nat,
) -> Result<Seq<char>, ReadQueryErrorView<E>>
    decreases depth, 0nat, 0nat,
{
    if stack.contains(language) {
        Err(ReadQueryErrorView::Cycle { chain: cycle(stack, language) })
    } else if depth == 0 {
        Err(ReadQueryErrorView::Endless { language })
    } else {
        match texts(language) {
            Err(source) => Err(ReadQueryErrorView::Read { language, source }),
            Ok(query) => spliced(
                texts,
                query,
                directives(query),
                0,
                stack.push(language),
                (depth - 1) as nat,
            ),
        }
    }
}

/// A query text from byte `from` on, with its directives replaced by what they name.
pub open spec fn spliced<E>(
    texts: spec_fn(Seq<char>) -> Result<Seq<char>, E>,
    query: Seq<char>,
    matches: Seq<GroupMatch>,
    from: int,
    stack: Seq<Seq<char>>,
    depth: nat,
) -> Result<Seq<char>, ReadQueryErrorView<E>>
    decreases depth, 2nat, matches.len(),
{
    if matches.len() == 0 {
        Ok(between(query, from, byte_len(query) as int))
    } else {
        match inherited(texts, named_languages(query, matches[0]), stack, depth) {
            Err(error) => Err(error),
            Ok(text) => match spliced(
                texts,
                query,
                matches.drop_first(),
                matches[0].end as int,
                stack,
                depth,
            ) {
                Err(error) => Err(error),
                Ok(rest) => Ok(between(query, from, matches[0].start as int) + text + rest),
            },
        }
    }
}

/// The query texts of some languages, each between two line feeds.
pub open spec fn inherited<E>(
    texts: spec_fn(Seq<char>) -> Result<Seq<char>, E>,
    languages: Seq<Seq<char>>,
    stack: Seq<Seq<char>>,
    depth: nat,
) -> Result<Seq<char>, ReadQueryErrorView<E>>
    decreases depth, 1nat, languages.len(),
{
    if languages.len() == 0 {
        Ok(Seq::empty())
    } else {
        match expanded(texts, languages[0], stack, depth) {
            Err(error) => Err(error),
            Ok(text) => match inherited(texts, languages.drop_first(), stack, depth) {
                Err(error) => Err(error),
                Ok(rest) => Ok("\n"@ + text + "\n"@ + rest),
            },
        }
    }
}

/// Whether a reader of query texts answers as `texts` does.
pub open spec fn answers_by<E, F>(
    read: &F,
    texts: spec_fn(Seq<char>) -> Result<Seq<char>, E>,
) -> bool where F: Fn(&str) -> Result<String, E> {
    forall|language: &str, answer: Result<String, E>| #[trigger]
        call_ensures(read, (language,), answer) ==> texts(language@) == match answer {
            Ok(text) => Ok::<Seq<char>, E>(text@),
            Err(error) => Err::<Seq<char>, E>(error),
        }
}

/// Whether a result is what it should be.
pub open spec fn comes_to<E>(
    res: Result<String, ReadQueryError<E>>,
    expected: Result<Seq<char>, ReadQueryErrorView<E>>,
) -> bool {
    match res {
        Ok(text) => expected == Ok::<Seq<char>, ReadQueryErrorView<E>>(text@),
        Err(error) => expected == Err::<Seq<char>, ReadQueryErrorView<E>>(error@),
    }
}

/// Finds a language among those that are being put together.
fn position_of(stack: &Vec<String>, language: &str) -> (position: Option<usize>)
    ensures
        match position {
            Some(at) => at < stack.len() && texts_of(stack@).contains(language@) && texts_of(stack@).index_of_first(
                language@,
            ) == Some(at as int),
            None => !texts_of(stack@).contains(language@),
        },
{
    let ghost texts = texts_of(stack@);
    for i in 0..stack.len()
        invariant
            texts == texts_of(stack@),
            forall|k: int| 0 <= k < i ==> #[trigger] texts[k] != language@,
    {
        if same_text(&stack[i], language) {
            proof {
                assert(texts[i as int] == language@);
                texts.index_of_first_ensures(language@);
                let first = texts.index_of_first(language@)->0;
                assert(texts[first] == language@);
            }
            return Some(i);
        }
    }
    None
}

/// Reads the query text of a language, and puts in what it inherits.
fn expand<E, F>(
    language: &str,
    read: &F,
    regex: &Option<Regex>,
    stack: &mut Vec<String>,
    depth: u32,
) -> (res: Result<String, ReadQueryError<E>>) where F: Fn(&str) -> Result<String, E>
    requires
        *regex == inherits_regex(),
        forall|name: &str| #[trigger] call_requires(read, (name,)),
    ensures
        final(stack)@ == old(stack)@,
        forall|texts: spec_fn(Seq<char>) -> Result<Seq<char>, E>| #[trigger]
            answers_by(read, texts) ==> comes_to(
                res,
                expanded(texts, language@, texts_of(old(stack)@), depth as nat),
            ),
    decreases depth, 0nat,
{
    let ghost given = texts_of(stack@);
    if let Some(at) = position_of(stack, language) {
        let mut chain: Vec<String> = Vec::new();
        for i in at..stack.len()
            invariant
                at <= stack.len(),
                stack@ == old(stack)@,
                given == texts_of(stack@),
                texts_of(chain@) == given.subrange(at as int, i as int),
        {
            let ghost before = texts_of(chain@);
            chain.push(stack[i].clone());
            assert(texts_of(chain@) =~= before.push(stack@[i as int]@));
            assert(given.subrange(at as int, i + 1) =~= before.push(given[i as int]));
        }
        let ghost before = texts_of(chain@);
        chain.push(language.to_owned());
        proof {
            assert(texts_of(chain@) =~= before.push(language@));
            assert(given.skip(at as int) =~= before);
        }
        return Err(ReadQueryError::Cycle { chain });
    }
    if depth == 0 {
        return Err(ReadQueryError::Endless { language: language.to_owned() });
    }
    let answer = read(language);
    let ghost answered = answer;
    assert(forall|texts: spec_fn(Seq<char>) -> Result<Seq<char>, E>| #[trigger]
        answers_by(read, texts) ==> texts(language@) == match answered {
            Ok(text) => Ok::<Seq<char>, E>(text@),
            Err(error) => Err::<Seq<char>, E>(error),
        });
    let query = match answer {
        Ok(query) => query,
        Err(source) => {
            return Err(ReadQueryError::Read { language: language.to_owned(), source });
        },
    };
    let ghost on_stack = stack@;
    stack.push(language.to_owned());
    assert(texts_of(stack@) =~= given.push(language@));
    let res = splice(&query, read, regex, stack, depth - 1);
    let popped = stack.pop();
    assert(stack@ =~= on_stack);
    res
}

/// Puts in what the directives of a query text name.
fn splice<E, F>(
    query: &str,
    read: &F,
    regex: &Option<Regex>,
    stack: &mut Vec<String>,
    depth: u32,
) -> (res: Result<String, ReadQueryError<E>>) where F: Fn(&str) -> Result<String, E>
    requires
        *regex == inherits_regex(),
        forall|name: &str| #[trigger] call_requires(read, (name,)),
    ensures
        final(stack)@ == old(stack)@,
        forall|texts: spec_fn(Seq<char>) -> Result<Seq<char>, E>| #[trigger]
            answers_by(read, texts) ==> comes_to(
                res,
                spliced(
                    texts,
                    query@,
                    directives(query@),
                    0,
                    texts_of(old(stack)@),
                    depth as nat,
                ),
            ),
    decreases depth, 2nat,
{
    let ghost given = texts_of(stack@);
    let ghost whole = query@;
    let matches: Vec<GroupMatch> = match regex {
        Some(regex) => find_groups(regex, query),
        None => Vec::new(),
    };
    let ghost all = directives(whole);
    proof {
        assert(matches@ =~= all);
        lemma_ends_are_boundaries(whole);
        assert(all.skip(0) =~= all);
    }
    let mut output = String::new();
    let mut from: usize = 0;
    proof {
        assert forall|texts: spec_fn(Seq<char>) -> Result<Seq<char>, E>| #[trigger]
            answers_by(read, texts) implies continues(
            texts,
            whole,
            all,
            0,
            output@,
            from as int,
            given,
            depth as nat,
        ) by {
            lemma_starts(texts, whole, all, given, depth as nat);
        }
    }
    for i in 0..matches.len()
        invariant
            whole == query@,
            *regex == inherits_regex(),
            forall|name: &str| #[trigger] call_requires(read, (name,)),
            stack@ == old(stack)@,
            given == texts_of(stack@),
            matches@ == all,
            all == directives(whole),
            matches.len() > 0 ==> lie_apart(all, whole),
            from == if i == 0 { 0 } else { all[i - 1].end },
            forall|texts: spec_fn(Seq<char>) -> Result<Seq<char>, E>| #[trigger]
                answers_by(read, texts) ==> continues(
                    texts,
                    whole,
                    all,
                    i as int,
                    output@,
                    from as int,
                    given,
                    depth as nat,
                ),
    {
        let found = matches[i];
        proof {
            lemma_ends_are_boundaries(whole);
            assert(fits(whole, all[i as int].start as int, all[i as int].end as int));
            if i > 0 {
                assert(fits(whole, all[i - 1].start as int, all[i - 1].end as int));
                assert(all[i - 1].end <= all[i as int].start);
            }
        }
        let ghost before = output@;
        output.append(str_between(query, from, found.start));
        let names = match found.group {
            Some(group) => split_text(str_between(query, group.0, group.1), ','),
            None => Vec::new(),
        };
        assert(texts_of(names@) =~= named_languages(whole, all[i as int]));
        match inherit(&names, read, regex, stack, depth) {
            Ok(text) => {
                output.append(&text);
                proof {
                    assert forall|texts: spec_fn(Seq<char>) -> Result<Seq<char>, E>| #[trigger]
                        answers_by(read, texts) implies continues(
                        texts,
                        whole,
                        all,
                        i + 1,
                        output@,
                        all[i as int].end as int,
                        given,
                        depth as nat,
                    ) by {
                        lemma_goes_on(
                            texts,
                            whole,
                            all,
                            i as int,
                            before,
                            from as int,
                            given,
                            depth as nat,
                            text@,
                        );
                        assert(output@ =~= before + between(
                            whole,
                            from as int,
                            all[i as int].start as int,
                        ) + text@);
                    }
                }
            },
            Err(error) => {
                assert(forall|texts: spec_fn(Seq<char>) -> Result<Seq<char>, E>| #[trigger]
                    answers_by(read, texts) ==> continues(
                        texts,
                        whole,
                        all,
                        i as int,
                        before,
                        from as int,
                        given,
                        depth as nat,
                    ));
                assert(all.skip(i as int)[0] == all[i as int]);
                return Err(error);
            },
        }
        from = found.end;
    }
    proof {
        lemma_ends_are_boundaries(whole);
        if all.len() > 0 {
            assert(fits(
                whole,
                all[all.len() - 1].start as int,
                all[all.len() - 1].end as int,
            ));
            crate::byte_text::lemma_boundary_in_text(whole, from as int);
        }
        assert(all.skip(all.len() as int) =~= Seq::empty());
    }
    output.append(str_between(query, from, str_len(query)));
    Ok(output)
}

/// Whether `output`, with what comes of the rest of a query text behind it, is what comes of the
/// whole of it.
spec fn continues<E>(
    texts: spec_fn(Seq<char>) -> Result<Seq<char>, E>,
    query: Seq<char>,
    matches: Seq<GroupMatch>,
    done: int,
    output: Seq<char>,
    from: int,
    stack: Seq<Seq<char>>,
    depth: nat,
) -> bool {
    spliced(texts, query, matches, 0, stack, depth) == after(
        output,
        spliced(texts, query, matches.skip(done), from, stack, depth),
    )
}

/// A text with what comes behind it, if that is there.
spec fn after<E>(
    output: Seq<char>,
    rest: Result<Seq<char>, ReadQueryErrorView<E>>,
) -> Result<Seq<char>, ReadQueryErrorView<E>> {
    match rest {
        Ok(rest) => Ok(output + rest),
        Err(error) => Err(error),
    }
}

proof fn lemma_starts<E>(
    texts: spec_fn(Seq<char>) -> Result<Seq<char>, E>,
    query: Seq<char>,
    matches: Seq<GroupMatch>,
    stack: Seq<Seq<char>>,
    depth: nat,
)
    ensures
        continues(texts, query, matches, 0, Seq::empty(), 0, stack, depth),
{
    assert(matches.skip(0) =~= matches);
    if let Ok(text) = spliced(texts, query, matches, 0, stack, depth) {
        assert(Seq::<char>::empty() + text =~= text);
    }
}

proof fn lemma_goes_on<E>(
    texts: spec_fn(Seq<char>) -> Result<Seq<char>, E>,
    query: Seq<char>,
    matches: Seq<GroupMatch>,
    done: int,
    output: Seq<char>,
    from: int,
    stack: Seq<Seq<char>>,
    depth: nat,
    text: Seq<char>,
)
    requires
        0 <= done < matches.len(),
        continues(texts, query, matches, done, output, from, stack, depth),
        inherited(texts, named_languages(query, matches[done]), stack, depth) == Ok::<
            Seq<char>,
            ReadQueryErrorView<E>,
        >(text),
    ensures
        continues(
            texts,
            query,
            matches,
            done + 1,
            output + between(query, from, matches[done].start as int) + text,
            matches[done].end as int,
            stack,
            depth,
        ),
{
    let rest = matches.skip(done);
    assert(rest[0] == matches[done]);
    assert(rest.drop_first() =~= matches.skip(done + 1));
    if let Ok(tail) = spliced(
        texts,
        query,
        matches.skip(done + 1),
        matches[done].end as int,
        stack,
        depth,
    ) {
        let part = between(query, from, matches[done].start as int);
        assert(output + (part + text + tail) =~= output + part + text + tail);
    }
}

/// Reads the query texts of some languages.
fn inherit<E, F>(
    languages: &Vec<String>,
    read: &F,
    regex: &Option<Regex>,
    stack: &mut Vec<String>,
    depth: u32,
) -> (res: Result<String, ReadQueryError<E>>) where F: Fn(&str) -> Result<String, E>
    requires
        *regex == inherits_regex(),
        forall|name: &str| #[trigger] call_requires(read, (name,)),
    ensures
        final(stack)@ == old(stack)@,
        forall|texts: spec_fn(Seq<char>) -> Result<Seq<char>, E>| #[trigger]
            answers_by(read, texts) ==> comes_to(
                res,
                inherited(
                    texts,
                    texts_of(languages@),
                    texts_of(old(stack)@),
                    depth as nat,
                ),
            ),
    decreases depth, 1nat,
{
    let ghost given = texts_of(stack@);
    let ghost all = texts_of(languages@);
    let mut output = String::new();
    proof {
        assert(all.skip(0) =~= all);
        assert forall|texts: spec_fn(Seq<char>) -> Result<Seq<char>, E>| #[trigger]
            answers_by(read, texts) implies inherited(texts, all, given, depth as nat) == after(
            output@,
            inherited(texts, all.skip(0), given, depth as nat),
        ) by {
            if let Ok(text) = inherited(texts, all, given, depth as nat) {
                assert(Seq::<char>::empty() + text =~= text);
            }
        }
    }
    for i in 0..languages.len()
        invariant
            *regex == inherits_regex(),
            forall|name: &str| #[trigger] call_requires(read, (name,)),
            stack@ == old(stack)@,
            given == texts_of(stack@),
            all == texts_of(languages@),
            forall|texts: spec_fn(Seq<char>) -> Result<Seq<char>, E>| #[trigger]
                answers_by(read, texts) ==> inherited(texts, all, given, depth as nat) == after(
                    output@,
                    inherited(texts, all.skip(i as int), given, depth as nat),
                ),
    {
        let ghost before = output@;
        proof {
            assert(all.skip(i as int)[0] == languages@[i as int]@);
            assert(all.skip(i as int).drop_first() =~= all.skip(i + 1));
        }
        output.append("\n");
        match expand(&languages[i], read, regex, stack, depth) {
            Ok(text) => {
                output.append(&text);
                output.append("\n");
                proof {
                    assert forall|texts: spec_fn(Seq<char>) -> Result<Seq<char>, E>| #[trigger]
                        answers_by(read, texts) implies inherited(
                        texts,
                        all,
                        given,
                        depth as nat,
                    ) == after(
                        output@,
                        inherited(texts, all.skip(i + 1), given, depth as nat),
                    ) by {
                        if let Ok(rest) = inherited(texts, all.skip(i + 1), given, depth as nat) {
                            assert(before + ("\n"@ + text@ + "\n"@ + rest) =~= output@ + rest);
                        }
                    }
                }
            },
            Err(error) => {
                return Err(error);
            },
        }
    }
    proof {
        assert(all.skip(all.len() as int) =~= Seq::empty());
        assert(output@ + Seq::<char>::empty() =~= output@);
    }
    Ok(output)
}

/// Reads the query text of a language, and puts in the texts of the languages that it inherits
/// from.
pub fn read_query<E, F>(language: &str, read_query_text: F) -> (res: Result<
    String,
    ReadQueryError<E>,
>) where F: Fn(&str) -> Result<String, E>
    requires
        forall|name: &str| #[trigger] call_requires(read_query_text, (name,)),
    ensures
        forall|texts: spec_fn(Seq<char>) -> Result<Seq<char>, E>| #[trigger]
            answers_by(&read_query_text, texts) ==> comes_to(
                res,
                expanded(texts, language@, Seq::empty(), INHERIT_DEPTH as nat),
            ),
{
    let regex = match compile_regex(INHERITS) {
        Ok(regex) => Some(regex),
        Err(_) => None,
    };
    let mut stack: Vec<String> = Vec::new();
    assert(texts_of(stack@) =~= Seq::empty());
    expand(language, &read_query_text, &regex, &mut stack, INHERIT_DEPTH)
}

/// A query text without directives stands as it is.
pub proof fn lemma_without_directives<E>(
    texts: spec_fn(Seq<char>) -> Result<Seq<char>, E>,
    language: Seq<char>,
    depth: nat,
)
    requires
        depth > 0,
        texts(language) matches Ok(query) && directives(query).len() == 0,
    ensures
        expanded(texts, language, Seq::empty(), depth) == Ok::<Seq<char>, ReadQueryErrorView<E>>(
            texts(language)->Ok_0,
        ),
{
    crate::byte_text::lemma_between_all(texts(language)->Ok_0);
}

/// A language whose query text cannot be read is named by the error.
pub proof fn lemma_unreadable_language_is_named<E>(
    texts: spec_fn(Seq<char>) -> Result<Seq<char>, E>,
    language: Seq<char>,
    depth: nat,
)
    requires
        depth > 0,
        texts(language) is Err,
    ensures
        expanded(texts, language, Seq::empty(), depth) == Err::<Seq<char>, ReadQueryErrorView<E>>(
            ReadQueryErrorView::Read { language, source: texts(language)->Err_0 },
        ),
{
}

/// Whether an error, if it tells of a cycle, tells of one.
pub open spec fn closes<E>(res: Result<Seq<char>, ReadQueryErrorView<E>>) -> bool {
    res matches Err(ReadQueryErrorView::Cycle { chain }) ==> chain.len() >= 2 && chain.first()
        == chain.last()
}

/// The chain of a cycle begins and ends with the same language.
pub proof fn lemma_cycles_close<E>(
    texts: spec_fn(Seq<char>) -> Result<Seq<char>, E>,
    language: Seq<char>,
    stack: Seq<Seq<char>>,
    depth: nat,
)
    ensures
        closes(expanded(texts, language, stack, depth)),
    decreases depth, 0nat, 0nat,
{
    if stack.contains(language) {
        stack.index_of_first_ensures(language);
        let first = stack.index_of_first(language)->0;
        assert(cycle(stack, language)[0] == stack[first]);
    } else if depth > 0 {
        if let Ok(query) = texts(language) {
            lemma_spliced_cycles_close(
                texts,
                query,
                directives(query),
                0,
                stack.push(language),
                (depth - 1) as nat,
            );
        }
    }
}

proof fn lemma_spliced_cycles_close<E>(
    texts: spec_fn(Seq<char>) -> Result<Seq<char>, E>,
    query: Seq<char>,
    matches: Seq<GroupMatch>,
    from: int,
    stack: Seq<Seq<char>>,
    depth: nat,
)
    ensures
        closes(spliced(texts, query, matches, from, stack, depth)),
    decreases depth, 2nat, matches.len(),
{
    if matches.len() > 0 {
        lemma_inherited_cycles_close(texts, named_languages(query, matches[0]), stack, depth);
        lemma_spliced_cycles_close(
            texts,
            query,
            matches.drop_first(),
            matches[0].end as int,
            stack,
            depth,
        );
    }
}

proof fn lemma_inherited_cycles_close<E>(
    texts: spec_fn(Seq<char>) -> Result<Seq<char>, E>,
    languages: Seq<Seq<char>>,
    stack: Seq<Seq<char>>,
    depth: nat,
)
    ensures
        closes(inherited(texts, languages, stack, depth)),
    decreases depth, 1nat, languages.len(),
{
    if languages.len() > 0 {
        lemma_cycles_close(texts, languages[0], stack, depth);
        lemma_inherited_cycles_close(texts, languages.drop_first(), stack, depth);
    }
}

/// Whether an error, if it tells of a text that cannot be read, tells what the reader says.
pub open spec fn tells<E>(
    texts: spec_fn(Seq<char>) -> Result<Seq<char>, E>,
    res: Result<Seq<char>, ReadQueryErrorView<E>>,
) -> bool {
    res matches Err(ReadQueryErrorView::Read { language, source }) ==> texts(language) == Err::<
        Seq<char>,
        E,
    >(source)
}

/// An error that tells of a text that cannot be read names its language and what the reader says.
pub proof fn lemma_read_errors_tell<E>(
    texts: spec_fn(Seq<char>) -> Result<Seq<char>, E>,
    language: Seq<char>,
    stack: Seq<Seq<char>>,
    depth: nat,
)
    ensures
        tells(texts, expanded(texts, language, stack, depth)),
    decreases depth, 0nat, 0nat,
{
    if !stack.contains(language) && depth > 0 {
        if let Ok(query) = texts(language) {
            lemma_spliced_errors_tell(
                texts,
                query,
                directives(query),
                0,
                stack.push(language),
                (depth - 1) as nat,
            );
        }
    }
}

proof fn lemma_spliced_errors_tell<E>(
    texts: spec_fn(Seq<char>) -> Result<Seq<char>, E>,
    query: Seq<char>,
    matches: Seq<GroupMatch>,
    from: int,
    stack: Seq<Seq<char>>,
    depth: nat,
)
    ensures
        tells(texts, spliced(texts, query, matches, from, stack, depth)),
    decreases depth, 2nat, matches.len(),
{
    if matches.len() > 0 {
        lemma_inherited_errors_tell(texts, named_languages(query, matches[0]), stack, depth);
        lemma_spliced_errors_tell(
            texts,
            query,
            matches.drop_first(),
            matches[0].end as int,
            stack,
            depth,
        );
    }
}

proof fn lemma_inherited_errors_tell<E>(
    texts: spec_fn(Seq<char>) -> Result<Seq<char>, E>,
    languages: Seq<Seq<char>>,
    stack: Seq<Seq<char>>,
    depth: nat,
)
    ensures
        tells(texts, inherited(texts, languages, stack, depth)),
    decreases depth, 1nat, languages.len(),
{
    if languages.len() > 0 {
        lemma_read_errors_tell(texts, languages[0], stack, depth);
        lemma_inherited_errors_tell(texts, languages.drop_first(), stack, depth);
    }
}

/// The languages of a directive are what stands between the commas of its list.
pub proof fn lemma_named_languages(query: Seq<char>, directive: GroupMatch)
    ensures
        directive.group is None ==> named_languages(query, directive).len() == 0,
        directive.group matches Some((start, end)) ==> named_languages(query, directive)
            == parts_of(between(query, start as int, end as int), ','),
{
}

/// The texts of languages are put one behind the other in the order in which they are named, each
/// with a line feed before it and one behind it. The first one that cannot be put together stops
/// it.
pub proof fn lemma_inherited_text<E>(
    texts: spec_fn(Seq<char>) -> Result<Seq<char>, E>,
    languages: Seq<Seq<char>>,
    stack: Seq<Seq<char>>,
    depth: nat,
)
    ensures
        ({
            let res = inherited(texts, languages, stack, depth);
            &&& res is Ok <==> forall|i: int|
                0 <= i < languages.len() ==> expanded(texts, #[trigger] languages[i], stack, depth) is Ok
            &&& (res matches Ok(text) ==> text == Seq::new(
                languages.len(),
                |i: int| seq!['\n'] + expanded(texts, languages[i], stack, depth)->Ok_0 + seq!['\n'],
            ).flatten())
            &&& forall|i: int|
                0 <= i < languages.len() && expanded(texts, #[trigger] languages[i], stack, depth) is Err
                    && (forall|j: int|
                    0 <= j < i ==> expanded(texts, #[trigger] languages[j], stack, depth) is Ok)
                    ==> res == expanded(texts, languages[i], stack, depth)
        }),
    decreases languages.len(),
{
    reveal_strlit("\n");
    assert("\n"@ =~= seq!['\n']);
    let res = inherited(texts, languages, stack, depth);
    let f = |i: int| seq!['\n'] + expanded(texts, languages[i], stack, depth)->Ok_0 + seq!['\n'];
    let pieces = Seq::new(languages.len(), f);
    if languages.len() > 0 {
        let rest = languages.drop_first();
        lemma_inherited_text(texts, rest, stack, depth);
        let behind = Seq::new(
            rest.len(),
            |i: int| seq!['\n'] + expanded(texts, rest[i], stack, depth)->Ok_0 + seq!['\n'],
        );
        assert(pieces.drop_first() =~= behind);
        assert forall|i: int| 0 <= i < rest.len() implies #[trigger] rest[i] == languages[i + 1] by {}
        if res is Ok {
            assert forall|i: int| 0 <= i < languages.len() implies expanded(
                texts,
                #[trigger] languages[i],
                stack,
                depth,
            ) is Ok by {
                if i > 0 {
                    assert(expanded(texts, rest[i - 1], stack, depth) is Ok);
                }
            }
        }
        if forall|i: int|
            0 <= i < languages.len() ==> expanded(texts, #[trigger] languages[i], stack, depth) is Ok {
            assert(expanded(texts, languages[0], stack, depth) is Ok);
            assert forall|i: int| 0 <= i < rest.len() implies expanded(
                texts,
                #[trigger] rest[i],
                stack,
                depth,
            ) is Ok by {
                assert(expanded(texts, languages[i + 1], stack, depth) is Ok);
            }
        }
        assert forall|i: int|
            0 <= i < languages.len() && expanded(texts, #[trigger] languages[i], stack, depth) is Err
                && (forall|j: int|
                0 <= j < i ==> expanded(texts, #[trigger] languages[j], stack, depth) is Ok) implies res
            == expanded(texts, languages[i], stack, depth) by {
            if i > 0 {
                assert(expanded(texts, languages[0], stack, depth) is Ok);
                assert forall|j: int| 0 <= j < i - 1 implies expanded(
                    texts,
                    #[trigger] rest[j],
                    stack,
                    depth,
                ) is Ok by {
                    assert(expanded(texts, languages[j + 1], stack, depth) is Ok);
                }
                assert(rest[i - 1] == languages[i]);
            }
        }
        if res is Ok {
            assert(pieces.flatten() =~= pieces.first() + pieces.drop_first().flatten());
            assert(res->Ok_0 =~= pieces.flatten());
        }
    }
}

/// A query text keeps all that stands between its directives, and each directive is replaced by
/// the texts of the languages that it names.
pub proof fn lemma_spliced_text<E>(
    texts: spec_fn(Seq<char>) -> Result<Seq<char>, E>,
    query: Seq<char>,
    matches: Seq<GroupMatch>,
    from: int,
    stack: Seq<Seq<char>>,
    depth: nat,
)
    ensures
        ({
            let res = spliced(texts, query, matches, from, stack, depth);
            let n = matches.len() as int;
            &&& res is Ok <==> forall|i: int|
                0 <= i < n ==> inherited(
                    texts,
                    named_languages(query, #[trigger] matches[i]),
                    stack,
                    depth,
                ) is Ok
            &&& (res matches Ok(text) ==> text == Seq::new(
                matches.len(),
                |i: int|
                    between(
                        query,
                        if i == 0 {
                            from
                        } else {
                            matches[i - 1].end as int
                        },
                        matches[i].start as int,
                    ) + inherited(texts, named_languages(query, matches[i]), stack, depth)->Ok_0,
            ).flatten() + between(
                query,
                if n == 0 {
                    from
                } else {
                    matches[n - 1].end as int
                },
                byte_len(query) as int,
            ))
            &&& forall|i: int|
                0 <= i < n && inherited(
                    texts,
                    named_languages(query, #[trigger] matches[i]),
                    stack,
                    depth,
                ) is Err && (forall|j: int|
                    0 <= j < i ==> inherited(
                        texts,
                        named_languages(query, #[trigger] matches[j]),
                        stack,
                        depth,
                    ) is Ok) ==> res == inherited(
                    texts,
                    named_languages(query, matches[i]),
                    stack,
                    depth,
                )
        }),
    decreases matches.len(),
{
    let res = spliced(texts, query, matches, from, stack, depth);
    let n = matches.len() as int;
    let pieces = Seq::new(
        matches.len(),
        |i: int|
            between(
                query,
                if i == 0 {
                    from
                } else {
                    matches[i - 1].end as int
                },
                matches[i].start as int,
            ) + inherited(texts, named_languages(query, matches[i]), stack, depth)->Ok_0,
    );
    let tail = between(
        query,
        if n == 0 {
            from
        } else {
            matches[n - 1].end as int
        },
        byte_len(query) as int,
    );
    if n == 0 {
        assert(pieces.flatten() + tail =~= tail);
    } else {
        let rest = matches.drop_first();
        let next = matches[0].end as int;
        lemma_spliced_text(texts, query, rest, next, stack, depth);
        let behind = Seq::new(
            rest.len(),
            |i: int|
                between(
                    query,
                    if i == 0 {
                        next
                    } else {
                        rest[i - 1].end as int
                    },
                    rest[i].start as int,
                ) + inherited(texts, named_languages(query, rest[i]), stack, depth)->Ok_0,
        );
        assert(pieces.drop_first() =~= behind);
        assert forall|i: int| 0 <= i < rest.len() implies #[trigger] rest[i] == matches[i + 1] by {}
        if res is Ok {
            assert forall|i: int| 0 <= i < n implies inherited(
                texts,
                named_languages(query, #[trigger] matches[i]),
                stack,
                depth,
            ) is Ok by {
                if i > 0 {
                    assert(rest[i - 1] == matches[i]);
                }
            }
        }
        if forall|i: int|
            0 <= i < n ==> inherited(
                texts,
                named_languages(query, #[trigger] matches[i]),
                stack,
                depth,
            ) is Ok {
            assert(inherited(texts, named_languages(query, matches[0]), stack, depth) is Ok);
            assert forall|i: int| 0 <= i < rest.len() implies inherited(
                texts,
                named_languages(query, #[trigger] rest[i]),
                stack,
                depth,
            ) is Ok by {
                assert(rest[i] == matches[i + 1]);
            }
        }
        assert forall|i: int|
            0 <= i < n && inherited(
                texts,
                named_languages(query, #[trigger] matches[i]),
                stack,
                depth,
            ) is Err && (forall|j: int|
                0 <= j < i ==> inherited(
                    texts,
                    named_languages(query, #[trigger] matches[j]),
                    stack,
                    depth,
                ) is Ok) implies res == inherited(
            texts,
            named_languages(query, matches[i]),
            stack,
            depth,
        ) by {
            if i > 0 {
                assert(inherited(texts, named_languages(query, matches[0]), stack, depth) is Ok);
                assert forall|j: int| 0 <= j < i - 1 implies inherited(
                    texts,
                    named_languages(query, #[trigger] rest[j]),
                    stack,
                    depth,
                ) is Ok by {
                    assert(rest[j] == matches[j + 1]);
                }
                assert(rest[i - 1] == matches[i]);
            }
        }
        if res is Ok {
            assert(rest.len() > 0 ==> rest[rest.len() - 1] == matches[n - 1]);
            assert(pieces.flatten() =~= pieces.first() + behind.flatten());
            assert(res->Ok_0 =~= pieces.flatten() + tail);
        }
    }
}

/// The text of a language is its own text from the first byte on, with its directives replaced by
/// texts that must not lead back to the language.
pub proof fn lemma_text_of_a_language<E>(
    texts: spec_fn(Seq<char>) -> Result<Seq<char>, E>,
    language: Seq<char>,
    stack: Seq<Seq<char>>,
    depth: nat,
)
    requires
        depth > 0,
        !stack.contains(language),
        texts(language) is Ok,
        regex_of(INHERITS@) is Ok,
    ensures
        ({
            let query = texts(language)->Ok_0;
            expanded(texts, language, stack, depth) == spliced(
                texts,
                query,
                group_matches(regex_of(INHERITS@)->Ok_0, query),
                0,
                stack.push(language),
                (depth - 1) as nat,
            )
        }),
{
}

/// A language that is being put together already is refused. The chain leads from the place where
/// it came first to the place where it came again.
pub proof fn lemma_cycle_chain<E>(
    texts: spec_fn(Seq<char>) -> Result<Seq<char>, E>,
    language: Seq<char>,
    stack: Seq<Seq<char>>,
    depth: nat,
    at: int,
)
    requires
        0 <= at < stack.len(),
        stack[at] == language,
        forall|k: int| 0 <= k < at ==> #[trigger] stack[k] != language,
    ensures
        expanded(texts, language, stack, depth) matches Err(ReadQueryErrorView::Cycle { chain }) && {
            &&& chain.len() == stack.len() - at + 1
            &&& forall|k: int| 0 <= k < stack.len() - at ==> #[trigger] chain[k] == stack[at + k]
            &&& chain[stack.len() - at] == language
        },
{
    stack.index_of_first_ensures(language);
    let first = stack.index_of_first(language)->0;
    assert(stack[first] == language);
    assert(first == at);
}

} // verus!
