//! Parsing of one-line text commands into graph-store operations.
//!
//! A command line is split into whitespace-separated tokens. The grammar is
//! fixed: `exit`, `add node <id> <label> <props>`,
//! `add relationship <id> <label> <start> <end> <props>`,
//! `query node id <id>`, and `query node property <key> <value>`. A property
//! list token is `key:value` pairs separated by commas, with no escaping for
//! literal `,` or `:` inside keys or values; within a pair, text after a
//! second `:` is ignored. Identifiers are unsigned decimal numbers that must
//! fit in 32 bits. Malformed input is reported as a `CommandError` and never
//! reaches the store.

use crate::props::PropertyMap;
use crate::text::str_eq;
use vstd::prelude::*;
use vstd::string::StrSliceExecFns;
use vstd::string::StringExecFns;

verus! {

/// The token separators: ASCII whitespace.
pub open spec fn is_space(c: char) -> bool {
    c == ' ' || c == '\t' || c == '\r' || c == '\n'
}

fn space_char(c: char) -> (r: bool)
    ensures
        r == is_space(c),
{
    c == ' ' || c == '\t' || c == '\r' || c == '\n'
}

/// The whitespace-separated tokens of `s` from position `i` on: maximal runs
/// of non-space characters, in order.
pub open spec fn tokens_from(s: Seq<char>, i: int) -> Seq<Seq<char>>
    decreases s.len() - i,
{
    if i < 0 || i >= s.len() {
        Seq::empty()
    } else if is_space(s[i]) {
        tokens_from(s, i + 1)
    } else {
        let rest = tokens_from(s, i + 1);
        if i + 1 < s.len() && !is_space(s[i + 1]) {
            seq![seq![s[i]] + rest[0]] + rest.drop_first()
        } else {
            seq![seq![s[i]]] + rest
        }
    }
}

/// The whitespace-separated tokens of a whole line.
pub open spec fn line_tokens(s: Seq<char>) -> Seq<Seq<char>> {
    tokens_from(s, 0)
}

/// A maximal non-space run `[i, j)` contributes one token, followed by the
/// tokens of the remainder.
proof fn lemma_tokens_scan(s: Seq<char>, i: int, j: int)
    requires
        0 <= i < j <= s.len(),
        forall|k: int| i <= k < j ==> !is_space(s[k]),
        j == s.len() || is_space(s[j]),
    ensures
        tokens_from(s, i) == seq![s.subrange(i, j)] + tokens_from(s, j),
    decreases j - i,
{
    if i + 1 == j {
        assert(s.subrange(i, j) =~= seq![s[i]]);
        assert(tokens_from(s, i) =~= seq![s.subrange(i, j)] + tokens_from(s, j));
    } else {
        lemma_tokens_scan(s, i + 1, j);
        let rest = tokens_from(s, i + 1);
        assert(rest[0] =~= s.subrange(i + 1, j));
        assert(seq![s[i]] + s.subrange(i + 1, j) =~= s.subrange(i, j));
        assert(rest.drop_first() =~= tokens_from(s, j));
        assert(tokens_from(s, i) =~= seq![s.subrange(i, j)] + tokens_from(s, j));
    }
}

/// Splits a line into its whitespace-separated tokens.
pub fn tokenize(s: &str) -> (r: Vec<String>)
    ensures
        r.deep_view() == line_tokens(s@),
{
    let n = s.unicode_len();
    let mut r: Vec<String> = Vec::new();
    let mut i: usize = 0;
    while i < n
        invariant
            i <= n,
            n == s@.len(),
            line_tokens(s@) == r.deep_view() + tokens_from(s@, i as int),
        decreases n - i,
    {
        if space_char(s.get_char(i)) {
            i = i + 1;
        } else {
            let start = i;
            let mut j = i;
            let mut stop = false;
            while !stop
                invariant
                    i <= j <= n,
                    n == s@.len(),
                    forall|k: int| i <= k < j ==> !is_space(s@[k]),
                    stop ==> (j == n || is_space(s@[j as int])),
                decreases n - j + (if stop { 0int } else { 1int }),
            {
                if j < n {
                    if space_char(s.get_char(j)) {
                        stop = true;
                    } else {
                        j = j + 1;
                    }
                } else {
                    stop = true;
                }
            }
            let token = s.substring_char(start, j);
            let ghost r0 = r.deep_view();
            r.push(String::from_str(token));
            proof {
                lemma_tokens_scan(s@, start as int, j as int);
                assert(r.deep_view() =~= r0.push(s@.subrange(start as int, j as int)));
                assert(r.deep_view() + tokens_from(s@, j as int) =~= r0 + tokens_from(
                    s@,
                    start as int,
                ));
            }
            i = j;
        }
    }
    proof {
        assert(r.deep_view() + tokens_from(s@, n as int) =~= r.deep_view());
    }
    r
}

/// The pieces of `s` from position `i` on, split at every occurrence of
/// `sep`. There is always at least one piece; empty pieces are kept.
pub open spec fn split_from(s: Seq<char>, sep: char, i: int) -> Seq<Seq<char>>
    decreases s.len() - i,
{
    if i < 0 || i >= s.len() {
        seq![Seq::<char>::empty()]
    } else if s[i] == sep {
        seq![Seq::<char>::empty()] + split_from(s, sep, i + 1)
    } else {
        let rest = split_from(s, sep, i + 1);
        seq![seq![s[i]] + rest[0]] + rest.drop_first()
    }
}

/// The pieces of `s` split at every occurrence of `sep`.
pub open spec fn split_by(s: Seq<char>, sep: char) -> Seq<Seq<char>> {
    split_from(s, sep, 0)
}

/// A separator-free run `[i, j)` ending at a separator (or the end of the
/// string) contributes the first piece.
proof fn lemma_split_scan(s: Seq<char>, sep: char, i: int, j: int)
    requires
        0 <= i <= j <= s.len(),
        forall|k: int| i <= k < j ==> s[k] != sep,
        j == s.len() || s[j] == sep,
    ensures
        split_from(s, sep, i) == (if j == s.len() {
            seq![s.subrange(i, j)]
        } else {
            seq![s.subrange(i, j)] + split_from(s, sep, j + 1)
        }),
    decreases j - i,
{
    if i == j {
        assert(s.subrange(i, j) =~= Seq::<char>::empty());
        if j == s.len() {
            assert(split_from(s, sep, i) =~= seq![s.subrange(i, j)]);
        } else {
            assert(split_from(s, sep, i) =~= seq![s.subrange(i, j)] + split_from(s, sep, j + 1));
        }
    } else {
        lemma_split_scan(s, sep, i + 1, j);
        let rest = split_from(s, sep, i + 1);
        assert(rest[0] =~= s.subrange(i + 1, j));
        assert(seq![s[i]] + s.subrange(i + 1, j) =~= s.subrange(i, j));
        if j == s.len() {
            assert(rest.drop_first() =~= Seq::<Seq<char>>::empty());
            assert(split_from(s, sep, i) =~= seq![s.subrange(i, j)]);
        } else {
            assert(rest.drop_first() =~= split_from(s, sep, j + 1));
            assert(split_from(s, sep, i) =~= seq![s.subrange(i, j)] + split_from(s, sep, j + 1));
        }
    }
}

/// Splits `s` at every occurrence of `sep`, keeping empty pieces.
pub fn split_char(s: &str, sep: char) -> (r: Vec<String>)
    ensures
        r.deep_view() == split_by(s@, sep),
{
    let n = s.unicode_len();
    let mut r: Vec<String> = Vec::new();
    let mut i: usize = 0;
    let mut done = false;
    while !done
        invariant
            i <= n,
            n == s@.len(),
            !done ==> split_by(s@, sep) == r.deep_view() + split_from(s@, sep, i as int),
            done ==> split_by(s@, sep) == r.deep_view(),
        decreases n - i + (if done { 0int } else { 1int }),
    {
        let mut j = i;
        let mut stop = false;
        while !stop
            invariant
                i <= j <= n,
                n == s@.len(),
                forall|k: int| i <= k < j ==> s@[k] != sep,
                stop ==> (j == n || s@[j as int] == sep),
            decreases n - j + (if stop { 0int } else { 1int }),
        {
            if j < n {
                if s.get_char(j) == sep {
                    stop = true;
                } else {
                    j = j + 1;
                }
            } else {
                stop = true;
            }
        }
        let piece = s.substring_char(i, j);
        let ghost r0 = r.deep_view();
        r.push(String::from_str(piece));
        proof {
            lemma_split_scan(s@, sep, i as int, j as int);
            assert(r.deep_view() =~= r0.push(s@.subrange(i as int, j as int)));
        }
        if j < n {
            proof {
                assert(r.deep_view() + split_from(s@, sep, j + 1) =~= r0 + split_from(
                    s@,
                    sep,
                    i as int,
                ));
            }
            i = j + 1;
        } else {
            proof {
                assert(r.deep_view() =~= r0 + split_from(s@, sep, i as int));
            }
            done = true;
        }
    }
    r
}

/// Decimal digits.
pub open spec fn is_digit(c: char) -> bool {
    48 <= c as int && c as int <= 57
}

/// The numeric value of a decimal digit.
pub open spec fn digit_val(c: char) -> int {
    c as int - 48
}

/// The value of a string of decimal digits, most significant first.
pub open spec fn digits_value(s: Seq<char>) -> int
    decreases s.len(),
{
    if s.len() == 0 {
        0
    } else {
        digits_value(s.drop_last()) * 10 + digit_val(s.last())
    }
}

/// Whether `s` is a decimal numeral whose value fits in a `u32`.
pub open spec fn is_u32_numeral(s: Seq<char>) -> bool {
    &&& s.len() > 0
    &&& forall|i: int| 0 <= i < s.len() ==> is_digit(s[i])
    &&& digits_value(s) <= u32::MAX
}

proof fn lemma_digits_value_nonneg(s: Seq<char>)
    requires
        forall|i: int| 0 <= i < s.len() ==> is_digit(s[i]),
    ensures
        digits_value(s) >= 0,
    decreases s.len(),
{
    if s.len() > 0 {
        lemma_digits_value_nonneg(s.drop_last());
    }
}

/// Reading more digits never decreases the value.
proof fn lemma_digits_value_extend(s: Seq<char>, i: int)
    requires
        0 <= i <= s.len(),
        forall|k: int| 0 <= k < s.len() ==> is_digit(s[k]),
    ensures
        digits_value(s) >= digits_value(s.take(i)),
    decreases s.len() - i,
{
    if i < s.len() {
        lemma_digits_value_extend(s, i + 1);
        assert(s.take(i + 1).drop_last() =~= s.take(i));
        assert(s.take(i + 1).last() == s[i]);
        lemma_digits_value_nonneg(s.take(i));
    } else {
        assert(s.take(i) =~= s);
    }
}

/// Parses an unsigned 32-bit decimal numeral. Returns `None` on an empty
/// string, a non-digit character, or a value that does not fit in 32 bits.
pub fn parse_u32(s: &str) -> (r: Option<u32>)
    ensures
        (match r {
            Some(v) => is_u32_numeral(s@) && v as int == digits_value(s@),
            None => !is_u32_numeral(s@),
        }),
{
    let n = s.unicode_len();
    if n == 0 {
        return None;
    }
    let mut acc: u32 = 0;
    let mut i: usize = 0;
    while i < n
        invariant
            i <= n,
            n == s@.len(),
            n > 0,
            forall|k: int| 0 <= k < i ==> is_digit(s@[k]),
            acc as int == digits_value(s@.take(i as int)),
        decreases n - i,
    {
        let c = s.get_char(i);
        let u = c as u32;
        if u < 48 || u > 57 {
            proof {
                assert(!is_digit(s@[i as int]));
            }
            return None;
        }
        let d = u - 48;
        proof {
            assert(s@.take(i + 1).drop_last() =~= s@.take(i as int));
            assert(s@.take(i + 1).last() == s@[i as int]);
        }
        if acc > 429496729 || (acc == 429496729 && d > 5) {
            proof {
                assert(digits_value(s@.take(i + 1)) > u32::MAX);
                if forall|k: int| 0 <= k < s@.len() ==> is_digit(s@[k]) {
                    lemma_digits_value_extend(s@, i + 1);
                }
            }
            return None;
        }
        acc = acc * 10 + d;
        i = i + 1;
    }
    proof {
        assert(s@.take(n as int) =~= s@);
    }
    Some(acc)
}

/// An error in the text of a command. Such an error is reported to the user
/// and never reaches or changes the store.
#[derive(Debug, Clone, Copy, PartialEq, Eq, Structural)]
pub enum CommandError {
    /// The line matches no command of the grammar (including a wrong number
    /// of tokens for an otherwise known command).
    UnknownCommand,
    /// An identifier token is not an unsigned 32-bit decimal numeral.
    InvalidId,
    /// A property-list token has a pair without a `:` separator.
    InvalidProperties,
}

/// A parsed command, ready to run against a `GraphDatabase`.
#[derive(Debug, PartialEq)]
pub enum Command {
    Exit,
    AddNode { id: u32, label: String, properties: PropertyMap },
    AddRelationship {
        id: u32,
        label: String,
        start_node: u32,
        end_node: u32,
        properties: PropertyMap,
    },
    QueryNodeById { id: u32 },
    QueryNodeByProperty { key: String, value: String },
}

/// Mathematical view of a `Command`.
pub enum CommandView {
    Exit,
    AddNode { id: u32, label: Seq<char>, properties: Map<Seq<char>, Seq<char>> },
    AddRelationship {
        id: u32,
        label: Seq<char>,
        start_node: u32,
        end_node: u32,
        properties: Map<Seq<char>, Seq<char>>,
    },
    QueryNodeById { id: u32 },
    QueryNodeByProperty { key: Seq<char>, value: Seq<char> },
}

impl View for Command {
    type V = CommandView;

    open spec fn view(&self) -> CommandView {
        match self {
            Command::Exit => CommandView::Exit,
            Command::AddNode { id, label, properties } => CommandView::AddNode {
                id: *id,
                label: label@,
                properties: properties@,
            },
            Command::AddRelationship { id, label, start_node, end_node, properties } => {
                CommandView::AddRelationship {
                    id: *id,
                    label: label@,
                    start_node: *start_node,
                    end_node: *end_node,
                    properties: properties@,
                }
            },
            Command::QueryNodeById { id } => CommandView::QueryNodeById { id: *id },
            Command::QueryNodeByProperty { key, value } => CommandView::QueryNodeByProperty {
                key: key@,
                value: value@,
            },
        }
    }
}

/// The comma-separated segments of a property-list token.
pub open spec fn prop_segments(s: Seq<char>) -> Seq<Seq<char>> {
    split_by(s, ',')
}

/// The colon-separated fields of one `key:value` segment.
pub open spec fn segment_fields(seg: Seq<char>) -> Seq<Seq<char>> {
    split_by(seg, ':')
}

/// Whether every segment of the property-list token has a `:` separator.
pub open spec fn props_wellformed(s: Seq<char>) -> bool {
    forall|k: int|
        0 <= k < prop_segments(s).len() ==> segment_fields(
            #[trigger] prop_segments(s)[k],
        ).len() >= 2
}

/// The key/value pairs of a property-list token, in order: for each segment,
/// the text before the first `:` and the text between the first and second.
pub open spec fn props_pairs(s: Seq<char>) -> Seq<(Seq<char>, Seq<char>)> {
    prop_segments(s).map_values(
        |seg: Seq<char>| (segment_fields(seg)[0], segment_fields(seg)[1]),
    )
}

/// The map denoted by a sequence of key/value pairs, a later pair shadowing
/// an earlier one with the same key.
pub open spec fn map_of_pairs(ps: Seq<(Seq<char>, Seq<char>)>) -> Map<Seq<char>, Seq<char>>
    decreases ps.len(),
{
    if ps.len() == 0 {
        Map::empty()
    } else {
        map_of_pairs(ps.drop_last()).insert(ps.last().0, ps.last().1)
    }
}

/// The property map denoted by a well-formed property-list token.
pub open spec fn props_map(s: Seq<char>) -> Map<Seq<char>, Seq<char>> {
    map_of_pairs(props_pairs(s))
}

/// Parses a property-list token (`k1:v1,k2:v2,...`). Returns the denoted
/// property map, or `CommandError::InvalidProperties` if and only if some
/// comma-separated segment lacks a `:`.
pub fn parse_properties(s: &str) -> (r: Result<PropertyMap, CommandError>)
    ensures
        r is Ok <==> props_wellformed(s@),
        r is Ok ==> (r->Ok_0)@ == props_map(s@),
        r is Err ==> r->Err_0 == CommandError::InvalidProperties,
{
    let segs = split_char(s, ',');
    let nsegs = segs.len();
    let mut pm = PropertyMap::new();
    let mut k: usize = 0;
    while k < nsegs
        invariant
            k <= nsegs,
            nsegs == segs@.len(),
            segs.deep_view() == prop_segments(s@),
            forall|j: int| 0 <= j < k ==> segment_fields(#[trigger] prop_segments(s@)[j]).len() >= 2,
            pm@ == map_of_pairs(props_pairs(s@).take(k as int)),
        decreases nsegs - k,
    {
        let fields = split_char(segs[k].as_str(), ':');
        proof {
            assert(segs@[k as int]@ == segs.deep_view()[k as int]);
            assert(fields.deep_view() == segment_fields(prop_segments(s@)[k as int]));
        }
        if fields.len() < 2 {
            return Err(CommandError::InvalidProperties);
        }
        let key = fields[0].clone();
        let value = fields[1].clone();
        proof {
            assert(key@ == fields.deep_view()[0]);
            assert(value@ == fields.deep_view()[1]);
        }
        pm.insert(key, value);
        proof {
            let ps = props_pairs(s@);
            assert(ps.take(k + 1).drop_last() =~= ps.take(k as int));
            assert(ps.take(k + 1).last() == ps[k as int]);
            assert(pm@ =~= map_of_pairs(ps.take(k + 1)));
        }
        k = k + 1;
    }
    proof {
        assert(props_pairs(s@).take(nsegs as int) =~= props_pairs(s@));
    }
    Ok(pm)
}

/// The command denoted by a sequence of tokens, or the error reported for it.
pub open spec fn command_of_tokens(ts: Seq<Seq<char>>) -> Result<CommandView, CommandError> {
    if ts.len() == 1 && ts[0] == "exit"@ {
        Ok(CommandView::Exit)
    } else if ts.len() == 5 && ts[0] == "add"@ && ts[1] == "node"@ {
        if !is_u32_numeral(ts[2]) {
            Err(CommandError::InvalidId)
        } else if !props_wellformed(ts[4]) {
            Err(CommandError::InvalidProperties)
        } else {
            Ok(
                CommandView::AddNode {
                    id: digits_value(ts[2]) as u32,
                    label: ts[3],
                    properties: props_map(ts[4]),
                },
            )
        }
    } else if ts.len() == 7 && ts[0] == "add"@ && ts[1] == "relationship"@ {
        if !is_u32_numeral(ts[2]) || !is_u32_numeral(ts[4]) || !is_u32_numeral(ts[5]) {
            Err(CommandError::InvalidId)
        } else if !props_wellformed(ts[6]) {
            Err(CommandError::InvalidProperties)
        } else {
            Ok(
                CommandView::AddRelationship {
                    id: digits_value(ts[2]) as u32,
                    label: ts[3],
                    start_node: digits_value(ts[4]) as u32,
                    end_node: digits_value(ts[5]) as u32,
                    properties: props_map(ts[6]),
                },
            )
        }
    } else if ts.len() == 4 && ts[0] == "query"@ && ts[1] == "node"@ && ts[2] == "id"@ {
        if !is_u32_numeral(ts[3]) {
            Err(CommandError::InvalidId)
        } else {
            Ok(CommandView::QueryNodeById { id: digits_value(ts[3]) as u32 })
        }
    } else if ts.len() == 5 && ts[0] == "query"@ && ts[1] == "node"@ && ts[2] == "property"@ {
        Ok(CommandView::QueryNodeByProperty { key: ts[3], value: ts[4] })
    } else {
        Err(CommandError::UnknownCommand)
    }
}

/// The command denoted by a whole line.
pub open spec fn parse_line(line: Seq<char>) -> Result<CommandView, CommandError> {
    command_of_tokens(line_tokens(line))
}

/// Parses one command line. Returns exactly the command (or error) that
/// `parse_line` assigns to the line's text.
pub fn parse_command(line: &str) -> (r: Result<Command, CommandError>)
    ensures
        (match r {
            Ok(c) => parse_line(line@) == Ok::<CommandView, CommandError>(c@),
            Err(e) => parse_line(line@) == Err::<CommandView, CommandError>(e),
        }),
{
    let tokens = tokenize(line);
    let ghost ts = line_tokens(line@);
    let n = tokens.len();
    proof {
        assert(n == ts.len());
        assert(forall|i: int| 0 <= i < n ==> tokens@[i]@ == ts[i]);
    }
    if n == 1 && str_eq(tokens[0].as_str(), "exit") {
        return Ok(Command::Exit);
    }
    if n == 5 && str_eq(tokens[0].as_str(), "add") && str_eq(tokens[1].as_str(), "node") {
        let id = match parse_u32(tokens[2].as_str()) {
            Some(v) => v,
            None => {
                return Err(CommandError::InvalidId);
            },
        };
        let properties = match parse_properties(tokens[4].as_str()) {
            Ok(p) => p,
            Err(e) => {
                return Err(e);
            },
        };
        let label = tokens[3].clone();
        return Ok(Command::AddNode { id, label, properties });
    }
    if n == 7 && str_eq(tokens[0].as_str(), "add") && str_eq(tokens[1].as_str(), "relationship") {
        let id = match parse_u32(tokens[2].as_str()) {
            Some(v) => v,
            None => {
                return Err(CommandError::InvalidId);
            },
        };
        let start_node = match parse_u32(tokens[4].as_str()) {
            Some(v) => v,
            None => {
                return Err(CommandError::InvalidId);
            },
        };
        let end_node = match parse_u32(tokens[5].as_str()) {
            Some(v) => v,
            None => {
                return Err(CommandError::InvalidId);
            },
        };
        let properties = match parse_properties(tokens[6].as_str()) {
            Ok(p) => p,
            Err(e) => {
                return Err(e);
            },
        };
        let label = tokens[3].clone();
        return Ok(Command::AddRelationship { id, label, start_node, end_node, properties });
    }
    if n == 4 && str_eq(tokens[0].as_str(), "query") && str_eq(tokens[1].as_str(), "node")
        && str_eq(tokens[2].as_str(), "id") {
        let id = match parse_u32(tokens[3].as_str()) {
            Some(v) => v,
            None => {
                return Err(CommandError::InvalidId);
            },
        };
        return Ok(Command::QueryNodeById { id });
    }
    if n == 5 && str_eq(tokens[0].as_str(), "query") && str_eq(tokens[1].as_str(), "node")
        && str_eq(tokens[2].as_str(), "property") {
        let key = tokens[3].clone();
        let value = tokens[4].clone();
        return Ok(Command::QueryNodeByProperty { key, value });
    }
    Err(CommandError::UnknownCommand)
}

} // verus!
