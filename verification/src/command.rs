//! The command language of the echo ring's console.
//!
//! A console line is split into words on ASCII whitespace; the first word
//! names the command and the following words are its arguments:
//!
//! - `add <delta>`: start `delta` more nodes in front of the ring;
//! - `rm <delta>`: stop up to `delta` of the oldest nodes;
//! - `test <C> <N>`: run `C` concurrent clients, each asking the head of the
//!   ring `N` times, and report the latency distribution.
//!
//! Numeric arguments are unsigned machine integers written in decimal, with
//! an optional leading `+`, as `usize`'s `FromStr` accepts them. Words after
//! the last argument a command takes are ignored.
use vstd::prelude::*;

verus! {

/// ASCII whitespace: space, horizontal tab, line feed, form feed and
/// carriage return (the vertical tab is not among them).
pub open spec fn is_ascii_space(c: char) -> bool {
    c == ' ' || c == '\t' || c == '\n' || c == '\r' || (c as u32) == 12
}

/// The words of `s` that follow the partial word `cur`: the maximal runs of
/// characters that are not ASCII whitespace, in order.
pub open spec fn words_from(s: Seq<char>, cur: Seq<char>) -> Seq<Seq<char>>
    decreases s.len(),
{
    if s.len() == 0 {
        if cur.len() == 0 {
            seq![]
        } else {
            seq![cur]
        }
    } else if is_ascii_space(s[0]) {
        if cur.len() == 0 {
            words_from(s.drop_first(), seq![])
        } else {
            seq![cur] + words_from(s.drop_first(), seq![])
        }
    } else {
        words_from(s.drop_first(), cur.push(s[0]))
    }
}

/// The words of a line, split on ASCII whitespace; no word is empty.
pub open spec fn ascii_words(s: Seq<char>) -> Seq<Seq<char>> {
    words_from(s, seq![])
}

pub open spec fn is_decimal_digit(c: char) -> bool {
    '0' <= c && c <= '9'
}

pub open spec fn digit_value(c: char) -> nat {
    ((c as u32) - ('0' as u32)) as nat
}

/// The number that a string of decimal digits denotes.
pub open spec fn decimal_value(ds: Seq<char>) -> nat
    decreases ds.len(),
{
    if ds.len() == 0 {
        0
    } else {
        decimal_value(ds.drop_last()) * 10 + digit_value(ds.last())
    }
}

/// The digits of an unsigned literal: what follows an optional leading `+`.
pub open spec fn literal_digits(t: Seq<char>) -> Seq<char> {
    if t.len() > 0 && t[0] == '+' {
        t.drop_first()
    } else {
        t
    }
}

/// Whether `t` is a well-formed unsigned decimal literal: one or more
/// decimal digits, after an optional leading `+`.
pub open spec fn is_unsigned_literal(t: Seq<char>) -> bool {
    let ds = literal_digits(t);
    ds.len() > 0 && forall|i: int| 0 <= i < ds.len() ==> #[trigger] is_decimal_digit(ds[i])
}

/// The `usize` that `t` denotes, when it is a well-formed literal whose value
/// fits in a `usize`.
pub open spec fn usize_of(t: Seq<char>) -> Option<usize> {
    if is_unsigned_literal(t) && decimal_value(literal_digits(t)) <= usize::MAX {
        Some(decimal_value(literal_digits(t)) as usize)
    } else {
        None
    }
}

/// A well-formed console command.
#[derive(PartialEq, Eq, Debug)]
pub enum Command {
    /// Start this many more nodes.
    Add(usize),
    /// Stop up to this many of the oldest nodes.
    Remove(usize),
    /// Run `clients` concurrent clients that each ask `requests` times.
    Test { clients: usize, requests: usize },
    /// A first word that names no command.
    Unknown(String),
}

/// The mathematical model of a `Command`.
pub enum CommandView {
    Add(nat),
    Remove(nat),
    Test { clients: nat, requests: nat },
    Unknown(Seq<char>),
}

impl View for Command {
    type V = CommandView;

    open spec fn view(&self) -> CommandView {
        match self {
            Command::Add(d) => CommandView::Add(*d as nat),
            Command::Remove(d) => CommandView::Remove(*d as nat),
            Command::Test { clients, requests } => CommandView::Test {
                clients: *clients as nat,
                requests: *requests as nat,
            },
            Command::Unknown(w) => CommandView::Unknown(w@),
        }
    }
}

/// Why a console line is not a well-formed command.
#[derive(PartialEq, Eq, Structural, Debug, Clone, Copy)]
pub enum CommandError {
    /// The line holds no word.
    NoCommand,
    /// `add` without its argument.
    AddUsage,
    /// `add` with an argument that is no `usize`.
    AddDelta,
    /// `rm` without its argument.
    RemoveUsage,
    /// `rm` with an argument that is no `usize`.
    RemoveDelta,
    /// `test` without one of its two arguments.
    TestUsage,
    /// `test` whose first argument is no `usize`.
    TestClients,
    /// `test` whose second argument is no `usize`.
    TestRequests,
}

pub open spec fn word_add() -> Seq<char> {
    seq!['a', 'd', 'd']
}

pub open spec fn word_rm() -> Seq<char> {
    seq!['r', 'm']
}

pub open spec fn word_test() -> Seq<char> {
    seq!['t', 'e', 's', 't']
}

/// The outcome of a command that takes one numeric argument.
pub open spec fn one_arg(
    w: Seq<Seq<char>>,
    make: spec_fn(nat) -> CommandView,
    usage: CommandError,
    bad: CommandError,
) -> Result<CommandView, CommandError> {
    if w.len() < 2 {
        Err(usage)
    } else {
        match usize_of(w[1]) {
            Some(d) => Ok(make(d as nat)),
            None => Err(bad),
        }
    }
}

/// What a console line means.
pub open spec fn command_of(line: Seq<char>) -> Result<CommandView, CommandError> {
    let w = ascii_words(line);
    if w.len() == 0 {
        Err(CommandError::NoCommand)
    } else if w[0] == word_add() {
        one_arg(w, |d: nat| CommandView::Add(d), CommandError::AddUsage, CommandError::AddDelta)
    } else if w[0] == word_rm() {
        one_arg(
            w,
            |d: nat| CommandView::Remove(d),
            CommandError::RemoveUsage,
            CommandError::RemoveDelta,
        )
    } else if w[0] == word_test() {
        if w.len() < 2 {
            Err(CommandError::TestUsage)
        } else if usize_of(w[1]) is None {
            Err(CommandError::TestClients)
        } else if w.len() < 3 {
            Err(CommandError::TestUsage)
        } else if usize_of(w[2]) is None {
            Err(CommandError::TestRequests)
        } else {
            Ok(
                CommandView::Test {
                    clients: usize_of(w[1])->0 as nat,
                    requests: usize_of(w[2])->0 as nat,
                },
            )
        }
    } else {
        Ok(CommandView::Unknown(w[0]))
    }
}

pub open spec fn result_view(r: Result<Command, CommandError>) -> Result<CommandView, CommandError> {
    match r {
        Ok(c) => Ok(c@),
        Err(e) => Err(e),
    }
}

/// The line that holds `ws`, one space between consecutive words.
pub open spec fn join_words(ws: Seq<Seq<char>>) -> Seq<char>
    decreases ws.len(),
{
    if ws.len() == 0 {
        seq![]
    } else if ws.len() == 1 {
        ws[0]
    } else {
        ws[0] + (seq![' '] + join_words(ws.drop_first()))
    }
}

/// Whether `w` can stand as a word: not empty, no ASCII whitespace in it.
pub open spec fn is_word(w: Seq<char>) -> bool {
    w.len() > 0 && forall|i: int| 0 <= i < w.len() ==> !is_ascii_space(#[trigger] w[i])
}

/// The decimal digit that stands for `d`, for `d < 10`.
pub open spec fn digit_char(d: nat) -> char {
    if d == 0 {
        '0'
    } else if d == 1 {
        '1'
    } else if d == 2 {
        '2'
    } else if d == 3 {
        '3'
    } else if d == 4 {
        '4'
    } else if d == 5 {
        '5'
    } else if d == 6 {
        '6'
    } else if d == 7 {
        '7'
    } else if d == 8 {
        '8'
    } else {
        '9'
    }
}

/// `n` written in decimal, without leading zeros.
pub open spec fn decimal(n: nat) -> Seq<char>
    decreases n,
{
    if n < 10 {
        seq![digit_char(n)]
    } else {
        decimal(n / 10).push(digit_char(n % 10))
    }
}

proof fn lemma_words_across_word(u: Seq<char>, tail: Seq<char>, cur: Seq<char>)
    requires
        forall|i: int| 0 <= i < u.len() ==> !is_ascii_space(#[trigger] u[i]),
    ensures
        words_from(u + tail, cur) == words_from(tail, cur + u),
    decreases u.len(),
{
    if u.len() == 0 {
        assert(u + tail =~= tail);
        assert(cur + u =~= cur);
    } else {
        assert((u + tail)[0] == u[0]);
        assert((u + tail).drop_first() =~= u.drop_first() + tail);
        assert forall|i: int| 0 <= i < u.drop_first().len() implies !is_ascii_space(
            #[trigger] u.drop_first()[i],
        ) by {
            assert(u.drop_first()[i] == u[i + 1]);
        }
        lemma_words_across_word(u.drop_first(), tail, cur.push(u[0]));
        assert(cur.push(u[0]) + u.drop_first() =~= cur + u);
    }
}

/// Joining words with single spaces and splitting the line on ASCII
/// whitespace gives the words back.
pub proof fn lemma_words_of_joined(ws: Seq<Seq<char>>)
    requires
        forall|k: int| 0 <= k < ws.len() ==> is_word(#[trigger] ws[k]),
    ensures
        ascii_words(join_words(ws)) == ws,
    decreases ws.len(),
{
    if ws.len() == 0 {
        assert(ascii_words(join_words(ws)) =~= ws);
    } else if ws.len() == 1 {
        let w = ws[0];
        assert(is_word(w));
        assert(w + Seq::<char>::empty() =~= w);
        lemma_words_across_word(w, Seq::<char>::empty(), seq![]);
        assert(Seq::<char>::empty() + w =~= w);
        assert(seq![w] =~= ws);
    } else {
        let w = ws[0];
        let rest = ws.drop_first();
        assert(is_word(w));
        assert forall|k: int| 0 <= k < rest.len() implies is_word(#[trigger] rest[k]) by {
            assert(rest[k] == ws[k + 1]);
        }
        let t = seq![' '] + join_words(rest);
        lemma_words_across_word(w, t, seq![]);
        assert(Seq::<char>::empty() + w =~= w);
        assert(t[0] == ' ');
        assert(t.drop_first() =~= join_words(rest));
        lemma_words_of_joined(rest);
        assert(seq![w] + rest =~= ws);
    }
}

proof fn lemma_digit_char(d: nat)
    requires
        d < 10,
    ensures
        is_decimal_digit(digit_char(d)),
        digit_value(digit_char(d)) == d,
{
}

/// `decimal(n)` is a word of decimal digits that denotes `n`.
pub proof fn lemma_decimal(n: nat)
    ensures
        decimal(n).len() > 0,
        forall|i: int| 0 <= i < decimal(n).len() ==> #[trigger] is_decimal_digit(decimal(n)[i]),
        decimal_value(decimal(n)) == n,
    decreases n,
{
    lemma_digit_char(n % 10);
    if n < 10 {
        let s = seq![digit_char(n)];
        assert(s.drop_last() =~= Seq::<char>::empty());
        assert(n % 10 == n);
        assert(decimal(n) == s);
        assert(s.last() == digit_char(n));
        assert(decimal_value(Seq::<char>::empty()) == 0);
        assert(decimal_value(s) == decimal_value(s.drop_last()) * 10 + digit_value(s.last()));
    } else {
        lemma_decimal(n / 10);
        let p = decimal(n / 10);
        let s = p.push(digit_char(n % 10));
        assert(s.drop_last() =~= p);
        assert(n == (n / 10) * 10 + n % 10);
        assert(decimal(n) == s);
        assert(s.last() == digit_char(n % 10));
        assert(decimal_value(s) == decimal_value(p) * 10 + digit_value(s.last()));
        assert forall|i: int| 0 <= i < s.len() implies #[trigger] is_decimal_digit(s[i]) by {
            if i < p.len() {
                assert(s[i] == p[i]);
            }
        }
    }
}

/// Every `usize` written in decimal reads back as itself.
pub proof fn lemma_usize_of_decimal(n: usize)
    ensures
        usize_of(decimal(n as nat)) == Some(n),
        is_word(decimal(n as nat)),
{
    lemma_decimal(n as nat);
    let d = decimal(n as nat);
    assert(is_decimal_digit(d[0]));
    assert(literal_digits(d) == d);
    assert forall|i: int| 0 <= i < d.len() implies !is_ascii_space(#[trigger] d[i]) by {
        assert(is_decimal_digit(d[i]));
    }
}

/// `test C N` runs `C` clients that each ask `N` times: the first argument
/// is the number of clients and the second the number of requests, whichever
/// is larger.
pub proof fn lemma_test_arguments(clients: usize, requests: usize)
    ensures
        command_of(join_words(seq![word_test(), decimal(clients as nat), decimal(requests as nat)]))
            == Ok::<CommandView, CommandError>(
            CommandView::Test { clients: clients as nat, requests: requests as nat },
        ),
{
    let ws = seq![word_test(), decimal(clients as nat), decimal(requests as nat)];
    lemma_usize_of_decimal(clients);
    lemma_usize_of_decimal(requests);
    assert(is_word(word_test()));
    lemma_words_of_joined(ws);
    assert(word_test() != word_add());
    assert(word_test() != word_rm());
}

/// `add D` adds `D` nodes and `rm D` removes `D` nodes, for every `D`.
pub proof fn lemma_add_rm_arguments(delta: usize)
    ensures
        command_of(join_words(seq![word_add(), decimal(delta as nat)])) == Ok::<
            CommandView,
            CommandError,
        >(CommandView::Add(delta as nat)),
        command_of(join_words(seq![word_rm(), decimal(delta as nat)])) == Ok::<
            CommandView,
            CommandError,
        >(CommandView::Remove(delta as nat)),
{
    lemma_usize_of_decimal(delta);
    assert(is_word(word_add()));
    assert(is_word(word_rm()));
    lemma_words_of_joined(seq![word_add(), decimal(delta as nat)]);
    lemma_words_of_joined(seq![word_rm(), decimal(delta as nat)]);
    assert(word_rm() != word_add());
}

/// The characters of a line, in order, as a vector.
fn line_chars(line: &str) -> (chars: Vec<char>)
    ensures
        chars@ == line@,
{
    broadcast use vstd::string::group_string_axioms;

    let mut chars: Vec<char> = Vec::new();
    for c in it: line.chars()
        invariant
            chars@ == it.seq().take(it.index() as int),
    {
        chars.push(c);
    }
    chars
}

fn is_space(c: char) -> (b: bool)
    ensures
        b == is_ascii_space(c),
{
    c == ' ' || c == '\t' || c == '\n' || c == '\r' || c == '\x0C'
}

proof fn lemma_words_from_step(s: Seq<char>, i: int, cur: Seq<char>)
    requires
        0 <= i < s.len(),
    ensures
        words_from(s.skip(i), cur) == (if is_ascii_space(s[i]) {
            if cur.len() == 0 {
                words_from(s.skip(i + 1), seq![])
            } else {
                seq![cur] + words_from(s.skip(i + 1), seq![])
            }
        } else {
            words_from(s.skip(i + 1), cur.push(s[i]))
        }),
{
    assert(s.skip(i).drop_first() =~= s.skip(i + 1));
    assert(s.skip(i)[0] == s[i]);
}

/// The first `limit` words of `chars`, as ranges of positions.
fn leading_words(chars: &Vec<char>, limit: usize) -> (ranges: Vec<(usize, usize)>)
    ensures
        ranges.len() <= limit,
        ranges.len() == limit || ranges.len() == ascii_words(chars@).len(),
        ranges.len() <= ascii_words(chars@).len(),
        forall|k: int| #![trigger ranges@[k]] 0 <= k < ranges.len() ==> ranges@[k].0 <= ranges@[k].1 <= chars.len(),
        forall|k: int|
            0 <= k < ranges.len() ==> chars@.subrange(ranges[k].0 as int, ranges[k].1 as int)
                == #[trigger] ascii_words(chars@)[k],
{
    let ghost s = chars@;
    let ghost mut found: Seq<Seq<char>> = seq![];
    let mut ranges: Vec<(usize, usize)> = Vec::new();
    let mut start: usize = 0;
    let mut i: usize = 0;
    if limit == 0 {
        return ranges;
    }
    proof {
        assert(s.skip(0) =~= s);
        assert(s.subrange(0, 0) =~= seq![]);
    }
    while i < chars.len()
        invariant
            s == chars@,
            0 < limit,
            start <= i <= chars.len(),
            ranges.len() < limit,
            ranges.len() == found.len(),
            found + words_from(s.skip(i as int), s.subrange(start as int, i as int)) == ascii_words(s),
            forall|k: int| #![trigger ranges@[k]] 0 <= k < ranges.len() ==> ranges@[k].0 <= ranges@[k].1 <= chars.len(),
            forall|k: int|
                0 <= k < ranges.len() ==> s.subrange(ranges[k].0 as int, ranges[k].1 as int)
                    == #[trigger] found[k],
        decreases chars.len() - i,
    {
        let c = chars[i];
        proof {
            lemma_words_from_step(s, i as int, s.subrange(start as int, i as int));
        }
        if is_space(c) {
            if start < i {
                proof {
                    assert(found.push(s.subrange(start as int, i as int)) + words_from(
                        s.skip(i + 1),
                        seq![],
                    ) =~= found + (seq![s.subrange(start as int, i as int)] + words_from(
                        s.skip(i + 1),
                        seq![],
                    )));
                    found = found.push(s.subrange(start as int, i as int));
                }
                let ghost prev = ranges@;
                ranges.push((start, i));
                proof {
                    assert forall|k: int| #![trigger ranges@[k]] 0 <= k < ranges.len() implies ranges@[k].0
                        <= ranges@[k].1 <= chars.len() by {
                        if k < ranges.len() - 1 {
                            assert(ranges[k] == prev[k]);
                        }
                    }
                    assert forall|k: int| 0 <= k < ranges.len() implies s.subrange(
                        ranges[k].0 as int,
                        ranges[k].1 as int,
                    ) == #[trigger] found[k] by {
                        if k < ranges.len() - 1 {
                            assert(found[k] == found.drop_last()[k]);
                        }
                    }
                }
                if ranges.len() == limit {
                    proof {
                        assert(found.len() <= ascii_words(s).len()) by {
                            assert((found + words_from(s.skip(i + 1), seq![])).len() == ascii_words(
                                s,
                            ).len());
                        }
                        assert forall|k: int| 0 <= k < ranges.len() implies chars@.subrange(
                            ranges[k].0 as int,
                            ranges[k].1 as int,
                        ) == #[trigger] ascii_words(chars@)[k] by {
                            assert((found + words_from(s.skip(i + 1), seq![]))[k] == found[k]);
                        }
                    }
                    return ranges;
                }
            }
            i = i + 1;
            start = i;
            proof {
                assert(s.subrange(start as int, i as int) =~= seq![]);
            }
        } else {
            proof {
                assert(s.subrange(start as int, i as int).push(s[i as int]) =~= s.subrange(
                    start as int,
                    i + 1,
                ));
            }
            i = i + 1;
        }
    }
    proof {
        assert(s.skip(i as int).len() == 0);
    }
    if start < i {
        proof {
            found = found.push(s.subrange(start as int, i as int));
        }
        ranges.push((start, i));
        proof {
            assert forall|k: int| 0 <= k < ranges.len() implies s.subrange(
                ranges[k].0 as int,
                ranges[k].1 as int,
            ) == #[trigger] found[k] by {
                if k < ranges.len() - 1 {
                    assert(found[k] == found.drop_last()[k]);
                }
            }
        }
    } else {
        proof {
            assert(s.subrange(start as int, i as int).len() == 0);
        }
    }
    proof {
        assert(found == ascii_words(s));
        assert forall|k: int| 0 <= k < ranges.len() implies chars@.subrange(
            ranges[k].0 as int,
            ranges[k].1 as int,
        ) == #[trigger] ascii_words(chars@)[k] by {
            assert(s.subrange(ranges[k].0 as int, ranges[k].1 as int) == found[k]);
        }
    }
    ranges
}

/// Parses a word as a `usize`, as `usize`'s `FromStr` does.
fn parse_usize(chars: &Vec<char>, from: usize, to: usize) -> (r: Option<usize>)
    requires
        from <= to <= chars.len(),
    ensures
        r == usize_of(chars@.subrange(from as int, to as int)),
{
    let ghost t = chars@.subrange(from as int, to as int);
    let mut k: usize = from;
    if from < to && chars[from] == '+' {
        k = from + 1;
    }
    let ghost ds = literal_digits(t);
    proof {
        assert(ds =~= chars@.subrange(k as int, to as int));
    }
    if k == to {
        proof {
            assert(ds.len() == 0);
        }
        return None;
    }
    let mut value: usize = 0;
    let mut overflow = false;
    let mut j: usize = k;
    while j < to
        invariant
            from <= k < to <= chars.len(),
            k <= j <= to,
            ds == chars@.subrange(k as int, to as int),
            ds == literal_digits(chars@.subrange(from as int, to as int)),
            forall|i: int| 0 <= i < j - k ==> #[trigger] is_decimal_digit(ds[i]),
            !overflow ==> value == decimal_value(ds.take(j - k)),
            overflow ==> decimal_value(ds.take(j - k)) > usize::MAX,
        decreases to - j,
    {
        let c = chars[j];
        if !('0' <= c && c <= '9') {
            proof {
                assert(!is_decimal_digit(ds[j - k]));
            }
            return None;
        }
        let d: usize = (c as u32 - '0' as u32) as usize;
        proof {
            assert(ds.take(j - k + 1).drop_last() =~= ds.take(j - k));
            assert(ds.take(j - k + 1).last() == c);
            assert(d == digit_value(c));
        }
        if !overflow {
            match value.checked_mul(10) {
                Some(v10) => match v10.checked_add(d) {
                    Some(v) => {
                        value = v;
                    },
                    None => {
                        overflow = true;
                    },
                },
                None => {
                    overflow = true;
                },
            }
        }
        j = j + 1;
    }
    proof {
        assert(ds.take(j - k) =~= ds);
    }
    if overflow {
        None
    } else {
        Some(value)
    }
}

fn word_is(chars: &Vec<char>, from: usize, to: usize, word: &str) -> (b: bool)
    requires
        from <= to <= chars.len(),
    ensures
        b == (chars@.subrange(from as int, to as int) == word@),
{
    let w = line_chars(word);
    if to - from != w.len() {
        proof {
            assert(chars@.subrange(from as int, to as int).len() != word@.len());
        }
        return false;
    }
    let mut i: usize = 0;
    while i < w.len()
        invariant
            from <= to <= chars.len(),
            to - from == w.len(),
            w@ == word@,
            i <= w.len(),
            forall|j: int| 0 <= j < i ==> chars@[from + j] == w@[j],
        decreases w.len() - i,
    {
        if chars[from + i] != w[i] {
            proof {
                assert(chars@.subrange(from as int, to as int)[i as int] != word@[i as int]);
            }
            return false;
        }
        i = i + 1;
    }
    proof {
        assert(chars@.subrange(from as int, to as int) =~= word@);
    }
    true
}

/// Reads a console line as a command.
pub fn parse_command(line: &str) -> (r: Result<Command, CommandError>)
    ensures
        result_view(r) == command_of(line@),
{
    let chars = line_chars(line);
    let words = leading_words(&chars, 3);
    let ghost w = ascii_words(line@);
    if words.len() == 0 {
        return Err(CommandError::NoCommand);
    }
    let (c0, c1) = words[0];
    let is_add = word_is(&chars, c0, c1, "add");
    let is_rm = word_is(&chars, c0, c1, "rm");
    let is_test = word_is(&chars, c0, c1, "test");
    proof {
        reveal_strlit("add");
        reveal_strlit("rm");
        reveal_strlit("test");
        assert("add"@ =~= word_add());
        assert("rm"@ =~= word_rm());
        assert("test"@ =~= word_test());
        assert(w[0] == chars@.subrange(c0 as int, c1 as int));
    }
    if is_add || is_rm {
        if words.len() < 2 {
            return Err(if is_add { CommandError::AddUsage } else { CommandError::RemoveUsage });
        }
        let (a0, a1) = words[1];
        proof {
            assert(w[1] == chars@.subrange(a0 as int, a1 as int));
        }
        match parse_usize(&chars, a0, a1) {
            Some(d) => Ok(if is_add { Command::Add(d) } else { Command::Remove(d) }),
            None => Err(if is_add { CommandError::AddDelta } else { CommandError::RemoveDelta }),
        }
    } else if is_test {
        if words.len() < 2 {
            return Err(CommandError::TestUsage);
        }
        let (a0, a1) = words[1];
        proof {
            assert(w[1] == chars@.subrange(a0 as int, a1 as int));
        }
        let clients = match parse_usize(&chars, a0, a1) {
            Some(c) => c,
            None => {
                return Err(CommandError::TestClients);
            },
        };
        if words.len() < 3 {
            return Err(CommandError::TestUsage);
        }
        let (b0, b1) = words[2];
        proof {
            assert(w[2] == chars@.subrange(b0 as int, b1 as int));
        }
        match parse_usize(&chars, b0, b1) {
            Some(requests) => Ok(Command::Test { clients, requests }),
            None => Err(CommandError::TestRequests),
        }
    } else {
        let name = line.substring_char(c0, c1).to_owned();
        Ok(Command::Unknown(name))
    }
}

} // verus!
