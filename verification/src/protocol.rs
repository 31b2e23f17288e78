//! The line protocol: parsing a command line into a typed request, answering
//! it from the registry, and rendering the answer as reply lines.
//!
//! A reply line is a byte string without its line ending; `frame` adds the
//! CR LF that ends every line on the wire. The body of a definition is one
//! such line whose inner line breaks are CR LF already.

use vstd::prelude::*;
use vstd::slice::slice_to_vec;
use vstd::string::StringSliceAdditionalSpecFns;
use vstd::utf8::encode_utf8;
use crate::dictionary::{both_names, Dictionary, MatchStrategy};
use crate::fallback::{define_command, fallback_command};
use crate::registry::{fallbacks, select, Dictionaries, WordSearchError};
use crate::text::{
    append, bytes_eq, copy_of, copy_range, decimal, dos2unix, has_crlf, lemma_line_ends_come_back,
    pairs, rows, split, split_spaces, to_decimal, to_dos, to_upper, trim_end, trim_trailing,
    unix2dos, unquote, unquoted, upper, CR, LF,
};

verus! {

/// Longest line, in bytes, that the protocol allows in either direction.
pub const MAX_LINE_BYTES: usize = 1024;

/// The verbs of the protocol.
#[derive(Clone, Copy, Debug, PartialEq, Eq, Structural)]
pub enum Command {
    Define,
    Match,
    Show,
    Client,
    Status,
    SetOption,
    Auth,
    SaslAuth,
    SaslResp,
    Quit,
}

/// What `SHOW` can be asked for.
#[derive(Clone, Copy, Debug, PartialEq, Eq, Structural)]
pub enum ItemToShow {
    Databases,
    Strategies,
    Info,
    Server,
    Client,
}

/// The verb that a token names, letter case aside.
pub open spec fn command_of(token: Seq<u8>) -> Option<Command> {
    let t = upper(token);
    if t == "DEFINE".spec_bytes() {
        Some(Command::Define)
    } else if t == "MATCH".spec_bytes() {
        Some(Command::Match)
    } else if t == "SHOW".spec_bytes() {
        Some(Command::Show)
    } else if t == "CLIENT".spec_bytes() {
        Some(Command::Client)
    } else if t == "STATUS".spec_bytes() {
        Some(Command::Status)
    } else if t == "OPTION".spec_bytes() {
        Some(Command::SetOption)
    } else if t == "AUTH".spec_bytes() {
        Some(Command::Auth)
    } else if t == "SASLAUTH".spec_bytes() {
        Some(Command::SaslAuth)
    } else if t == "SASLRESP".spec_bytes() {
        Some(Command::SaslResp)
    } else if t == "QUIT".spec_bytes() {
        Some(Command::Quit)
    } else {
        None
    }
}

/// The item that a token names, letter case aside.
pub open spec fn item_of(token: Seq<u8>) -> Option<ItemToShow> {
    let t = upper(token);
    if t == "DATABASES".spec_bytes() || t == "DB".spec_bytes() {
        Some(ItemToShow::Databases)
    } else if t == "STRATEGIES".spec_bytes() || t == "STRAT".spec_bytes() {
        Some(ItemToShow::Strategies)
    } else if t == "INFO".spec_bytes() {
        Some(ItemToShow::Info)
    } else if t == "SERVER".spec_bytes() {
        Some(ItemToShow::Server)
    } else if t == "CLIENT".spec_bytes() {
        Some(ItemToShow::Client)
    } else {
        None
    }
}

/// The strategy that a token names, letter case aside.
pub open spec fn strategy_of(token: Seq<u8>) -> Option<MatchStrategy> {
    let t = upper(token);
    if t == "EXACT".spec_bytes() {
        Some(MatchStrategy::Exact)
    } else if t == "PREFIX".spec_bytes() {
        Some(MatchStrategy::Prefix)
    } else {
        None
    }
}

/// A command line, understood.
#[derive(Debug)]
pub enum Request {
    Define { database: Vec<u8>, word: Vec<u8> },
    Match { database: Vec<u8>, strategy: MatchStrategy, word: Vec<u8> },
    ShowDatabases,
    ShowStrategies,
    /// `CLIENT`, with the text that follows the verb.
    Client { identity: Vec<u8> },
    Quit,
    /// A verb, or an item of `SHOW`, that is known and not served.
    Unimplemented { verb: Vec<u8> },
    UnknownCommand { verb: Vec<u8> },
    UnknownStrategy,
    /// Too few arguments, or an item that `SHOW` does not know.
    SyntaxError,
}

/// A request over byte strings.
pub enum RequestView {
    Define { database: Seq<u8>, word: Seq<u8> },
    Match { database: Seq<u8>, strategy: MatchStrategy, word: Seq<u8> },
    ShowDatabases,
    ShowStrategies,
    Client { identity: Seq<u8> },
    Quit,
    Unimplemented { verb: Seq<u8> },
    UnknownCommand { verb: Seq<u8> },
    UnknownStrategy,
    SyntaxError,
}

impl View for Request {
    type V = RequestView;

    open spec fn view(&self) -> RequestView {
        match self {
            Request::Define { database, word } => RequestView::Define {
                database: database@,
                word: word@,
            },
            Request::Match { database, strategy, word } => RequestView::Match {
                database: database@,
                strategy: *strategy,
                word: word@,
            },
            Request::ShowDatabases => RequestView::ShowDatabases,
            Request::ShowStrategies => RequestView::ShowStrategies,
            Request::Client { identity } => RequestView::Client { identity: identity@ },
            Request::Quit => RequestView::Quit,
            Request::Unimplemented { verb } => RequestView::Unimplemented { verb: verb@ },
            Request::UnknownCommand { verb } => RequestView::UnknownCommand { verb: verb@ },
            Request::UnknownStrategy => RequestView::UnknownStrategy,
            Request::SyntaxError => RequestView::SyntaxError,
        }
    }
}

/// What follows the verb and the space behind it.
pub open spec fn after_verb(line: Seq<u8>, verb: Seq<u8>) -> Seq<u8> {
    if line.len() > verb.len() {
        line.skip(verb.len() as int + 1)
    } else {
        Seq::empty()
    }
}

/// The request that a line makes. Blanks at the end of the line do not
/// count; the pieces between single spaces are the verb and its arguments;
/// arguments beyond those a verb takes are ignored.
pub open spec fn parse(line: Seq<u8>) -> RequestView {
    let trimmed = trim_end(line);
    let pieces = split(trimmed);
    let verb = pieces[0];
    match command_of(verb) {
        None => RequestView::UnknownCommand { verb },
        Some(Command::Define) => if pieces.len() < 3 {
            RequestView::SyntaxError
        } else {
            RequestView::Define { database: unquoted(pieces[1]), word: unquoted(pieces[2]) }
        },
        Some(Command::Match) => if pieces.len() < 4 {
            RequestView::SyntaxError
        } else {
            match strategy_of(unquoted(pieces[2])) {
                None => RequestView::UnknownStrategy,
                Some(strategy) => RequestView::Match {
                    database: unquoted(pieces[1]),
                    strategy,
                    word: unquoted(pieces[3]),
                },
            }
        },
        Some(Command::Show) => if pieces.len() < 2 {
            RequestView::SyntaxError
        } else {
            match item_of(unquoted(pieces[1])) {
                None => RequestView::SyntaxError,
                Some(ItemToShow::Databases) => RequestView::ShowDatabases,
                Some(ItemToShow::Strategies) => RequestView::ShowStrategies,
                Some(_) => RequestView::Unimplemented { verb },
            }
        },
        Some(Command::Client) => RequestView::Client { identity: after_verb(trimmed, verb) },
        Some(Command::Quit) => RequestView::Quit,
        Some(_) => RequestView::Unimplemented { verb },
    }
}

// The fixed lines of the protocol.

pub open spec fn greeting() -> Seq<u8> {
    "220 dict 0.1.0".spec_bytes()
}

pub open spec fn farewell() -> Seq<u8> {
    "221 bye".spec_bytes()
}

pub open spec fn ok_line() -> Seq<u8> {
    "250 ok".spec_bytes()
}

pub open spec fn dot_line() -> Seq<u8> {
    ".".spec_bytes()
}

pub open spec fn invalid_database() -> Seq<u8> {
    "550 invalid database, use SHOW DB for list".spec_bytes()
}

pub open spec fn invalid_strategy() -> Seq<u8> {
    "551 invalid strategy, use SHOW STRAT for list".spec_bytes()
}

pub open spec fn no_match() -> Seq<u8> {
    "552 No match".spec_bytes()
}

pub open spec fn syntax_error() -> Seq<u8> {
    "501 syntax error, illegal parameters".spec_bytes()
}

pub open spec fn unknown_command(verb: Seq<u8>) -> Seq<u8> {
    "500 Unknown command '".spec_bytes() + verb + "'".spec_bytes()
}

pub open spec fn unimplemented(verb: Seq<u8>) -> Seq<u8> {
    "502 '".spec_bytes() + verb + "' unimplemented".spec_bytes()
}

pub open spec fn all_databases() -> Seq<u8> {
    "all \"All databases\"".spec_bytes()
}

pub open spec fn exact_strategy() -> Seq<u8> {
    "EXACT \"Match headwords exactly\"".spec_bytes()
}

pub open spec fn prefix_strategy() -> Seq<u8> {
    "PREFIX \"Match prefixes\"".spec_bytes()
}

/// A status line that carries a count: the code, the count in decimal, the
/// rest.
pub open spec fn counted(code: Seq<u8>, n: nat, rest: Seq<u8>) -> Seq<u8> {
    code + decimal(n) + rest
}

/// `151 "word" shown`.
pub open spec fn definition_header(word: Seq<u8>, shown: Seq<u8>) -> Seq<u8> {
    "151 \"".spec_bytes() + word + "\" ".spec_bytes() + shown
}

/// `shown "head"`.
pub open spec fn match_line(shown: Seq<u8>, head: Seq<u8>) -> Seq<u8> {
    shown + " \"".spec_bytes() + head + "\"".spec_bytes()
}

/// For each definition its header, its text with CR LF line breaks, and a
/// line with a dot.
pub open spec fn definition_body(word: Seq<u8>, found: Seq<(Seq<u8>, Seq<u8>)>) -> Seq<Seq<u8>>
    decreases found.len(),
{
    if found.len() == 0 {
        Seq::empty()
    } else {
        definition_body(word, found.drop_last()) + seq![
            definition_header(word, found.last().0),
            unix2dos(found.last().1),
            dot_line(),
        ]
    }
}

/// The reply to `DEFINE` when definitions were found.
pub open spec fn definition_lines(word: Seq<u8>, found: Seq<(Seq<u8>, Seq<u8>)>) -> Seq<Seq<u8>> {
    seq![counted("150 ".spec_bytes(), found.len(), " definitions retrieved".spec_bytes())]
        + definition_body(word, found) + seq![ok_line()]
}

/// The reply to `MATCH` when matches were found.
pub open spec fn match_lines(found: Seq<(Seq<u8>, Seq<u8>)>) -> Seq<Seq<u8>> {
    seq![counted("152 ".spec_bytes(), found.len(), " matches found".spec_bytes())] + Seq::new(
        found.len(),
        |i: int| match_line(found[i].0, found[i].1),
    ) + seq![dot_line(), ok_line()]
}

/// The reply to `SHOW DB`.
pub open spec fn database_lines(dicts: Seq<Dictionary>) -> Seq<Seq<u8>> {
    seq![counted("110 ".spec_bytes(), dicts.len(), " databases present".spec_bytes())] + Seq::new(
        dicts.len(),
        |i: int| both_names(dicts[i].name_bytes(), dicts[i].long_name_bytes()),
    ) + seq![all_databases(), dot_line(), ok_line()]
}

/// The reply to `SHOW STRAT`.
pub open spec fn strategy_lines() -> Seq<Seq<u8>> {
    seq![
        counted("111 ".spec_bytes(), 2, " strategies present".spec_bytes()),
        exact_strategy(),
        prefix_strategy(),
        dot_line(),
        ok_line(),
    ]
}

/// The reply to a query, given its outcome: the lines, and whether the
/// session ends.
pub open spec fn found_or_not(
    outcome: Result<Seq<(Seq<u8>, Seq<u8>)>, WordSearchError>,
    lines: Seq<Seq<u8>>,
) -> (Seq<Seq<u8>>, bool) {
    match outcome {
        Err(WordSearchError::DbNotFoundErr) => (seq![invalid_database()], true),
        Err(WordSearchError::WordNotFoundErr) => (seq![no_match()], false),
        Ok(_) => (lines, false),
    }
}

/// The reply to `DEFINE word`, given what the registry answered.
pub open spec fn define_reply(
    word: Seq<u8>,
    outcome: Result<Seq<(Seq<u8>, Seq<u8>)>, WordSearchError>,
) -> (Seq<Seq<u8>>, bool) {
    found_or_not(
        outcome,
        match outcome {
            Ok(found) => definition_lines(word, found),
            Err(_) => Seq::empty(),
        },
    )
}

/// The reply to `MATCH`, given what the registry answered.
pub open spec fn match_reply(outcome: Result<Seq<(Seq<u8>, Seq<u8>)>, WordSearchError>) -> (
    Seq<Seq<u8>>,
    bool,
) {
    found_or_not(
        outcome,
        match outcome {
            Ok(found) => match_lines(found),
            Err(_) => Seq::empty(),
        },
    )
}

/// The reply to a request: the lines, and whether the session ends.
pub open spec fn reply_to(dicts: &Dictionaries, request: RequestView) -> (Seq<Seq<u8>>, bool) {
    match request {
        RequestView::Define { database, word } => define_reply(
            word,
            dicts.spec_lookup(word, database),
        ),
        RequestView::Match { database, strategy, word } => match_reply(
            dicts.spec_match(word, database, strategy),
        ),
        RequestView::ShowDatabases => (database_lines(dicts@), false),
        RequestView::ShowStrategies => (strategy_lines(), false),
        RequestView::Client { identity } => (seq![ok_line()], false),
        RequestView::Quit => (Seq::empty(), true),
        RequestView::Unimplemented { verb } => (seq![unimplemented(verb)], true),
        RequestView::UnknownCommand { verb } => (seq![unknown_command(verb)], true),
        RequestView::UnknownStrategy => (seq![invalid_strategy()], true),
        RequestView::SyntaxError => (seq![syntax_error()], true),
    }
}

/// Where the parts of a definition stand in the reply to `DEFINE`: after
/// the count come, for each definition in turn, its header, its text and a
/// dot; `250 ok` ends the reply.
pub proof fn lemma_definition_lines_at(word: Seq<u8>, found: Seq<(Seq<u8>, Seq<u8>)>, i: int)
    requires
        0 <= i < found.len(),
    ensures
        definition_lines(word, found).len() == 3 * found.len() + 2,
        definition_lines(word, found)[3 * i + 1] == definition_header(word, found[i].0),
        definition_lines(word, found)[3 * i + 2] == unix2dos(found[i].1),
        definition_lines(word, found)[3 * i + 3] == dot_line(),
        definition_lines(word, found).last() == ok_line(),
{
    lemma_definition_body_at(word, found, i);
}

proof fn lemma_definition_body_at(word: Seq<u8>, found: Seq<(Seq<u8>, Seq<u8>)>, i: int)
    requires
        0 <= i < found.len(),
    ensures
        definition_body(word, found).len() == 3 * found.len(),
        definition_body(word, found)[3 * i] == definition_header(word, found[i].0),
        definition_body(word, found)[3 * i + 1] == unix2dos(found[i].1),
        definition_body(word, found)[3 * i + 2] == dot_line(),
    decreases found.len(),
{
    lemma_definition_body_len(word, found.drop_last());
    if i < found.len() - 1 {
        lemma_definition_body_at(word, found.drop_last(), i);
    }
}

proof fn lemma_definition_body_len(word: Seq<u8>, found: Seq<(Seq<u8>, Seq<u8>)>)
    ensures
        definition_body(word, found).len() == 3 * found.len(),
    decreases found.len(),
{
    if found.len() > 0 {
        lemma_definition_body_len(word, found.drop_last());
    }
}

/// A definition comes back from the wire: in the reply to `DEFINE`, the
/// text of definition `i`, with its carriage returns before line feeds taken
/// out again, is the definition byte for byte, provided that the definition
/// itself has no carriage return before a line feed.
pub proof fn lemma_definition_comes_back(word: Seq<u8>, found: Seq<(Seq<u8>, Seq<u8>)>, i: int)
    requires
        0 <= i < found.len(),
        !has_crlf(found[i].1),
    ensures
        dos2unix(definition_lines(word, found)[3 * i + 2]) == found[i].1,
{
    lemma_definition_lines_at(word, found, i);
    lemma_line_ends_come_back(found[i].1);
}

/// Every `SHOW DB` on a registry gets the same reply: after the count, one
/// line for each dictionary in the order of registration.
pub proof fn lemma_show_db_stable(dicts: &Dictionaries, first: Seq<u8>, second: Seq<u8>)
    requires
        parse(first) == RequestView::ShowDatabases,
        parse(second) == RequestView::ShowDatabases,
    ensures
        reply_to(dicts, parse(first)) == reply_to(dicts, parse(second)),
        reply_to(dicts, parse(first)).0.len() == dicts@.len() + 4,
        forall|i: int|
            0 <= i < dicts@.len() ==> #[trigger] reply_to(dicts, parse(first)).0[i + 1]
                == both_names(dicts@[i].name_bytes(), dicts@[i].long_name_bytes()),
{
}

/// Another server to ask, and what to send it.
#[derive(Debug)]
pub struct Upstream {
    pub host: String,
    pub port: u32,
    pub command: Vec<u8>,
}

impl View for Upstream {
    type V = (Seq<char>, u32, Seq<u8>);

    open spec fn view(&self) -> (Seq<char>, u32, Seq<u8>) {
        (self.host@, self.port, self.command@)
    }
}

/// The server that the dictionary at `at` falls back on, with the command
/// that asks it for `word`.
pub open spec fn upstream_at(dicts: Seq<Dictionary>, at: usize, word: Seq<u8>) -> (
    Seq<char>,
    u32,
    Seq<u8>,
) {
    let f = dicts[at as int].spec_fallback()->0;
    (f.spec_host(), f.spec_port(), define_command(encode_utf8(f.spec_db()), word))
}

/// The servers to ask for a request: for a `DEFINE` that finds dictionaries
/// and no definition, those that the selected dictionaries fall back on; for
/// any other request, none.
pub open spec fn upstreams(dicts: &Dictionaries, request: RequestView) -> Seq<
    (Seq<char>, u32, Seq<u8>),
> {
    match request {
        RequestView::Define { database, word } => {
            if dicts.spec_lookup(word, database) == Err::<
                Seq<(Seq<u8>, Seq<u8>)>,
                WordSearchError,
            >(WordSearchError::WordNotFoundErr) {
                let targets = fallbacks(dicts@, select(dicts.names(), database), word);
                Seq::new(targets.len(), |i: int| upstream_at(dicts@, targets[i], word))
            } else {
                Seq::empty()
            }
        },
        _ => Seq::empty(),
    }
}

/// The servers to ask before the reply to `request` is sent. If one of them
/// answers, its answer takes the place of the reply.
pub fn upstream_for(dicts: &Dictionaries, request: &Request) -> (r: Vec<Upstream>)
    requires
        dicts.wf(),
    ensures
        r@.len() == upstreams(dicts, request@).len(),
        forall|i: int| 0 <= i < r@.len() ==> (#[trigger] r@[i])@ == upstreams(dicts, request@)[i],
{
    let mut out: Vec<Upstream> = Vec::new();
    match request {
        Request::Define { database, word } => {
            let outcome = dicts.lookup_word(word.as_slice(), database.as_slice());
            match outcome {
                Err(WordSearchError::WordNotFoundErr) => {
                    let targets: Vec<usize> = dicts.fallback_targets(
                        word.as_slice(),
                        database.as_slice(),
                    );
                    let mut i: usize = 0;
                    while i < targets.len()
                        invariant
                            i <= targets.len(),
                            out@.len() == i,
                            forall|k: int|
                                0 <= k < targets@.len() ==> (#[trigger] targets@[k]) < dicts@.len()
                                    && dicts@[targets@[k] as int].spec_fallback() is Some,
                            forall|k: int|
                                0 <= k < i ==> (#[trigger] out@[k])@ == upstream_at(
                                    dicts@,
                                    targets@[k],
                                    word@,
                                ),
                        decreases targets.len() - i,
                    {
                        let at: usize = targets[i];
                        match dicts.get(at) {
                            Some(d) => match d.fallback() {
                                Some(f) => {
                                    out.push(
                                        Upstream {
                                            host: f.host().to_owned(),
                                            port: f.port(),
                                            command: fallback_command(f.db(), word.as_slice()),
                                        },
                                    );
                                },
                                None => {
                                    assert(false);
                                },
                            },
                            None => {
                                assert(false);
                            },
                        }
                        i += 1;
                    }
                },
                _ => {},
            }
        },
        _ => {},
    }
    out
}

/// A line as it goes over the wire.
pub open spec fn framed(line: Seq<u8>) -> Seq<u8> {
    line.push(CR).push(LF)
}

/// Reply lines, and whether the session ends after them.
#[derive(Debug)]
pub struct Reply {
    pub lines: Vec<Vec<u8>>,
    pub close: bool,
}

impl View for Reply {
    type V = (Seq<Seq<u8>>, bool);

    open spec fn view(&self) -> (Seq<Seq<u8>>, bool) {
        (rows(self.lines@), self.close)
    }
}

/// The bytes of a string literal.
fn bytes_of(s: &str) -> (r: Vec<u8>)
    ensures
        r@ == s.spec_bytes(),
{
    slice_to_vec(s.as_bytes())
}

/// `220 dict 0.1.0`.
pub fn greeting_line() -> (r: Vec<u8>)
    ensures
        r@ == greeting(),
{
    bytes_of("220 dict 0.1.0")
}

/// `221 bye`.
pub fn farewell_line() -> (r: Vec<u8>)
    ensures
        r@ == farewell(),
{
    bytes_of("221 bye")
}

/// A reply of one line.
fn one_line(line: Vec<u8>, close: bool) -> (r: Reply)
    ensures
        r@ == (seq![line@], close),
{
    let mut lines: Vec<Vec<u8>> = Vec::new();
    lines.push(line);
    let r = Reply { lines, close };
    assert(rows(r.lines@) =~= seq![line@]);
    r
}

/// The verb that a token names.
pub fn parse_command(token: &[u8]) -> (r: Option<Command>)
    ensures
        r == command_of(token@),
{
    let t: Vec<u8> = to_upper(token);
    if bytes_eq(t.as_slice(), "DEFINE".as_bytes()) {
        Some(Command::Define)
    } else if bytes_eq(t.as_slice(), "MATCH".as_bytes()) {
        Some(Command::Match)
    } else if bytes_eq(t.as_slice(), "SHOW".as_bytes()) {
        Some(Command::Show)
    } else if bytes_eq(t.as_slice(), "CLIENT".as_bytes()) {
        Some(Command::Client)
    } else if bytes_eq(t.as_slice(), "STATUS".as_bytes()) {
        Some(Command::Status)
    } else if bytes_eq(t.as_slice(), "OPTION".as_bytes()) {
        Some(Command::SetOption)
    } else if bytes_eq(t.as_slice(), "AUTH".as_bytes()) {
        Some(Command::Auth)
    } else if bytes_eq(t.as_slice(), "SASLAUTH".as_bytes()) {
        Some(Command::SaslAuth)
    } else if bytes_eq(t.as_slice(), "SASLRESP".as_bytes()) {
        Some(Command::SaslResp)
    } else if bytes_eq(t.as_slice(), "QUIT".as_bytes()) {
        Some(Command::Quit)
    } else {
        None
    }
}

/// The item of `SHOW` that a token names.
pub fn parse_item(token: &[u8]) -> (r: Option<ItemToShow>)
    ensures
        r == item_of(token@),
{
    let t: Vec<u8> = to_upper(token);
    if bytes_eq(t.as_slice(), "DATABASES".as_bytes()) || bytes_eq(t.as_slice(), "DB".as_bytes()) {
        Some(ItemToShow::Databases)
    } else if bytes_eq(t.as_slice(), "STRATEGIES".as_bytes()) || bytes_eq(
        t.as_slice(),
        "STRAT".as_bytes(),
    ) {
        Some(ItemToShow::Strategies)
    } else if bytes_eq(t.as_slice(), "INFO".as_bytes()) {
        Some(ItemToShow::Info)
    } else if bytes_eq(t.as_slice(), "SERVER".as_bytes()) {
        Some(ItemToShow::Server)
    } else if bytes_eq(t.as_slice(), "CLIENT".as_bytes()) {
        Some(ItemToShow::Client)
    } else {
        None
    }
}

/// The strategy that a token names.
pub fn parse_strategy(token: &[u8]) -> (r: Option<MatchStrategy>)
    ensures
        r == strategy_of(token@),
{
    let t: Vec<u8> = to_upper(token);
    if bytes_eq(t.as_slice(), "EXACT".as_bytes()) {
        Some(MatchStrategy::Exact)
    } else if bytes_eq(t.as_slice(), "PREFIX".as_bytes()) {
        Some(MatchStrategy::Prefix)
    } else {
        None
    }
}

/// Parses one command line.
pub fn parse_request(line: &[u8]) -> (r: Request)
    ensures
        r@ == parse(line@),
{
    let trimmed: Vec<u8> = trim_trailing(line);
    let pieces: Vec<Vec<u8>> = split_spaces(trimmed.as_slice());
    let n: usize = pieces.len();
    assert(rows(pieces@).len() == n);
    assert(forall|k: int| 0 <= k < n ==> #[trigger] rows(pieces@)[k] == pieces@[k]@);
    let command = parse_command(pieces[0].as_slice());
    match command {
        None => Request::UnknownCommand { verb: copy_of(pieces[0].as_slice()) },
        Some(Command::Define) => {
            if n < 3 {
                Request::SyntaxError
            } else {
                Request::Define {
                    database: unquote(pieces[1].as_slice()),
                    word: unquote(pieces[2].as_slice()),
                }
            }
        },
        Some(Command::Match) => {
            if n < 4 {
                Request::SyntaxError
            } else {
                let named: Vec<u8> = unquote(pieces[2].as_slice());
                match parse_strategy(named.as_slice()) {
                    None => Request::UnknownStrategy,
                    Some(strategy) => Request::Match {
                        database: unquote(pieces[1].as_slice()),
                        strategy,
                        word: unquote(pieces[3].as_slice()),
                    },
                }
            }
        },
        Some(Command::Show) => {
            if n < 2 {
                Request::SyntaxError
            } else {
                let named: Vec<u8> = unquote(pieces[1].as_slice());
                match parse_item(named.as_slice()) {
                    None => Request::SyntaxError,
                    Some(ItemToShow::Databases) => Request::ShowDatabases,
                    Some(ItemToShow::Strategies) => Request::ShowStrategies,
                    Some(_) => Request::Unimplemented {
                        verb: copy_of(pieces[0].as_slice()),
                    },
                }
            }
        },
        Some(Command::Client) => {
            let from: usize = pieces[0].len();
            let identity: Vec<u8> = if trimmed.len() > from {
                let rest = copy_range(trimmed.as_slice(), from + 1, trimmed.len());
                assert(rest@ =~= trimmed@.skip(from + 1));
                rest
            } else {
                Vec::new()
            };
            Request::Client { identity }
        },
        Some(Command::Quit) => Request::Quit,
        Some(_) => Request::Unimplemented {
            verb: copy_of(pieces[0].as_slice()),
        },
    }
}

/// `code`, the count in decimal, `rest`.
fn counted_line(code: &str, n: usize, rest: &str) -> (r: Vec<u8>)
    ensures
        r@ == counted(code.spec_bytes(), n as nat, rest.spec_bytes()),
{
    let mut out: Vec<u8> = bytes_of(code);
    let digits: Vec<u8> = to_decimal(n);
    append(&mut out, digits.as_slice());
    append(&mut out, rest.as_bytes());
    out
}

/// Renders the definitions that `DEFINE word` found.
pub fn render_definitions(word: &[u8], found: &Vec<(Vec<u8>, Vec<u8>)>) -> (r: Vec<Vec<u8>>)
    ensures
        rows(r@) == definition_lines(word@, pairs(found@)),
{
    let mut out: Vec<Vec<u8>> = Vec::new();
    out.push(counted_line("150 ", found.len(), " definitions retrieved"));
    let ghost first = rows(out@);
    let mut i: usize = 0;
    assert(pairs(found@).take(0) =~= Seq::empty());
    assert(rows(out@) =~= first + definition_body(word@, pairs(found@).take(0)));
    while i < found.len()
        invariant
            i <= found.len(),
            first == seq![
                counted(
                    "150 ".spec_bytes(),
                    found@.len(),
                    " definitions retrieved".spec_bytes(),
                ),
            ],
            rows(out@) == first + definition_body(word@, pairs(found@).take(i as int)),
        decreases found.len() - i,
    {
        let ghost before = rows(out@);
        let mut header: Vec<u8> = bytes_of("151 \"");
        append(&mut header, word);
        append(&mut header, "\" ".as_bytes());
        append(&mut header, found[i].0.as_slice());
        let body: Vec<u8> = to_dos(found[i].1.as_slice());
        out.push(header);
        out.push(body);
        out.push(bytes_of("."));
        proof {
            let all = pairs(found@);
            assert(all.take(i + 1).drop_last() =~= all.take(i as int));
            assert(all.take(i + 1).last() == all[i as int]);
            assert(rows(out@) =~= before + seq![
                definition_header(word@, all[i as int].0),
                unix2dos(all[i as int].1),
                dot_line(),
            ]);
        }
        i += 1;
    }
    assert(pairs(found@).take(i as int) =~= pairs(found@));
    let ghost before = rows(out@);
    out.push(bytes_of("250 ok"));
    assert(rows(out@) =~= before + seq![ok_line()]);
    out
}

/// Renders the head-words that `MATCH` found.
pub fn render_matches(found: &Vec<(Vec<u8>, Vec<u8>)>) -> (r: Vec<Vec<u8>>)
    ensures
        rows(r@) == match_lines(pairs(found@)),
{
    let mut out: Vec<Vec<u8>> = Vec::new();
    out.push(counted_line("152 ", found.len(), " matches found"));
    let mut i: usize = 0;
    while i < found.len()
        invariant
            i <= found.len(),
            out@.len() == i + 1,
            out@[0]@ == counted("152 ".spec_bytes(), found@.len(), " matches found".spec_bytes()),
            forall|j: int|
                0 <= j < i ==> (#[trigger] out@[j + 1])@ == match_line(found@[j].0@, found@[j].1@),
        decreases found.len() - i,
    {
        let mut line: Vec<u8> = copy_of(found[i].0.as_slice());
        append(&mut line, " \"".as_bytes());
        append(&mut line, found[i].1.as_slice());
        append(&mut line, "\"".as_bytes());
        out.push(line);
        i += 1;
    }
    out.push(bytes_of("."));
    out.push(bytes_of("250 ok"));
    proof {
        let want = match_lines(pairs(found@));
        assert(rows(out@).len() == want.len());
        assert forall|k: int| 0 <= k < want.len() implies rows(out@)[k] == want[k] by {
            if 1 <= k <= found@.len() {
                assert(out@[(k - 1) + 1]@ == match_line(found@[k - 1].0@, found@[k - 1].1@));
            }
        }
        assert(rows(out@) =~= want);
    }
    out
}

/// Renders the list of dictionaries.
pub fn render_databases(dicts: &Dictionaries) -> (r: Vec<Vec<u8>>)
    ensures
        rows(r@) == database_lines(dicts@),
{
    let mut out: Vec<Vec<u8>> = Vec::new();
    let n: usize = dicts.len();
    out.push(counted_line("110 ", n, " databases present"));
    let mut i: usize = 0;
    while i < n
        invariant
            i <= n,
            n == dicts@.len(),
            out@.len() == i + 1,
            out@[0]@ == counted("110 ".spec_bytes(), n as nat, " databases present".spec_bytes()),
            forall|j: int|
                0 <= j < i ==> (#[trigger] out@[j + 1])@ == both_names(
                    dicts@[j].name_bytes(),
                    dicts@[j].long_name_bytes(),
                ),
        decreases n - i,
    {
        match dicts.get(i) {
            Some(d) => {
                out.push(d.get_both_names());
            },
            None => {
                assert(false);
            },
        }
        i += 1;
    }
    out.push(bytes_of("all \"All databases\""));
    out.push(bytes_of("."));
    out.push(bytes_of("250 ok"));
    proof {
        let want = database_lines(dicts@);
        assert(rows(out@).len() == want.len());
        assert forall|k: int| 0 <= k < want.len() implies rows(out@)[k] == want[k] by {
            if 1 <= k <= n {
                assert(out@[(k - 1) + 1]@ == both_names(
                    dicts@[k - 1].name_bytes(),
                    dicts@[k - 1].long_name_bytes(),
                ));
            }
        }
        assert(rows(out@) =~= want);
    }
    out
}

/// Renders the list of strategies.
pub fn render_strategies() -> (r: Vec<Vec<u8>>)
    ensures
        rows(r@) == strategy_lines(),
{
    let mut out: Vec<Vec<u8>> = Vec::new();
    out.push(counted_line("111 ", 2, " strategies present"));
    out.push(bytes_of("EXACT \"Match headwords exactly\""));
    out.push(bytes_of("PREFIX \"Match prefixes\""));
    out.push(bytes_of("."));
    out.push(bytes_of("250 ok"));
    assert(rows(out@) =~= strategy_lines());
    out
}

/// The reply to `DEFINE word`, given what the registry answered.
pub fn reply_define(word: &[u8], outcome: &Result<Vec<(Vec<u8>, Vec<u8>)>, WordSearchError>) -> (r:
    Reply)
    ensures
        r@ == define_reply(word@, crate::registry::result_view(*outcome)),
{
    match outcome {
        Err(WordSearchError::DbNotFoundErr) => one_line(
            bytes_of("550 invalid database, use SHOW DB for list"),
            true,
        ),
        Err(WordSearchError::WordNotFoundErr) => one_line(bytes_of("552 No match"), false),
        Ok(found) => Reply { lines: render_definitions(word, found), close: false },
    }
}

/// The reply to `MATCH`, given what the registry answered.
pub fn reply_match(outcome: &Result<Vec<(Vec<u8>, Vec<u8>)>, WordSearchError>) -> (r: Reply)
    ensures
        r@ == match_reply(crate::registry::result_view(*outcome)),
{
    match outcome {
        Err(WordSearchError::DbNotFoundErr) => one_line(
            bytes_of("550 invalid database, use SHOW DB for list"),
            true,
        ),
        Err(WordSearchError::WordNotFoundErr) => one_line(bytes_of("552 No match"), false),
        Ok(found) => Reply { lines: render_matches(found), close: false },
    }
}

/// Answers a request from the registry.
pub fn answer(dicts: &Dictionaries, request: &Request) -> (r: Reply)
    requires
        dicts.wf(),
    ensures
        r@ == reply_to(dicts, request@),
{
    match request {
        Request::Define { database, word } => {
            let outcome = dicts.lookup_word(word.as_slice(), database.as_slice());
            reply_define(word.as_slice(), &outcome)
        },
        Request::Match { database, strategy, word } => {
            let outcome = dicts.match_word(word.as_slice(), database.as_slice(), *strategy);
            reply_match(&outcome)
        },
        Request::ShowDatabases => Reply { lines: render_databases(dicts), close: false },
        Request::ShowStrategies => Reply { lines: render_strategies(), close: false },
        Request::Client { identity } => one_line(bytes_of("250 ok"), false),
        Request::Quit => {
            let r = Reply { lines: Vec::new(), close: true };
            assert(rows(r.lines@) =~= Seq::empty());
            r
        },
        Request::Unimplemented { verb } => {
            let mut line: Vec<u8> = bytes_of("502 '");
            append(&mut line, verb.as_slice());
            append(&mut line, "' unimplemented".as_bytes());
            one_line(line, true)
        },
        Request::UnknownCommand { verb } => {
            let mut line: Vec<u8> = bytes_of("500 Unknown command '");
            append(&mut line, verb.as_slice());
            append(&mut line, "'".as_bytes());
            one_line(line, true)
        },
        Request::UnknownStrategy => one_line(
            bytes_of("551 invalid strategy, use SHOW STRAT for list"),
            true,
        ),
        Request::SyntaxError => one_line(bytes_of("501 syntax error, illegal parameters"), true),
    }
}

/// Parses a command line and answers it.
pub fn respond(dicts: &Dictionaries, line: &[u8]) -> (r: Reply)
    requires
        dicts.wf(),
    ensures
        r@ == reply_to(dicts, parse(line@)),
{
    let request: Request = parse_request(line);
    answer(dicts, &request)
}

/// A reply line with its line ending.
pub fn frame(line: &[u8]) -> (r: Vec<u8>)
    ensures
        r@ == framed(line@),
{
    let mut out: Vec<u8> = copy_of(line);
    out.push(CR);
    out.push(LF);
    out
}

} // verus!
