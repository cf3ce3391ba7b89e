//! The records that an election is set up from, and the text form of the
//! restrictions.
//!
//! Restrictions are written one to a line under the heading
//! `group_name,limit,members`: the name of the group, the number of its
//! members that may be elected, and the ids of its members, all separated
//! by commas.
use crate::domain::context::builder::BuildError;
use crate::domain::context::builder::BuilderView;
use crate::domain::context::Context;
use crate::domain::context::ContextBuilder;
use crate::domain::context::model::ElectionView;
use crate::domain::context::restriction_views;
use crate::domain::restriction::Restriction;
use crate::domain::restriction::RestrictionView;
use vstd::prelude::*;

verus! {

/// One line of a ballot as it was cast: a voter gave an option a rank.
#[derive(Debug, Clone)]
pub struct VoteEntry {
    /// The id of the option that the line is about.
    pub vote_option: usize,
    /// The rank that the voter gave the option; 0 where the voter gave none.
    pub vote_rank: usize,
    /// The id of the voter.
    pub user_id: usize,
    /// The name of the option.
    pub vote_option_full: String,
}

/// Why a text does not describe restrictions.
#[derive(Debug, Clone, Copy, PartialEq, Eq, Structural)]
pub enum ParseError {
    /// The text does not begin with the line `group_name,limit,members`.
    Header,
    /// The line with this number, the heading being line 0, ends after
    /// the name of the group.
    MissingLimit { line: usize },
    /// The limit in this line is no number.
    BadLimit { line: usize },
    /// The limit in this line is zero.
    ZeroLimit { line: usize },
    /// The field with this number in this line, the name being field 0, is
    /// no number.
    BadMember { line: usize, field: usize },
}

/// Why no count was set up from the records.
#[derive(Debug, Clone, Copy, PartialEq, Eq, Structural)]
pub enum SetupError {
    /// The text of the restrictions is refused.
    Restrictions(ParseError),
    /// The records do not make an election.
    Build(BuildError),
}

/// The pieces that `sep` divides `s` into. There is one piece more than
/// there are separators; a piece may be empty.
pub open spec fn pieces(s: Seq<char>, sep: char) -> Seq<Seq<char>>
    decreases s.len(),
{
    if s.len() == 0 {
        seq![Seq::empty()]
    } else {
        let before = pieces(s.drop_last(), sep);
        if s.last() == sep {
            before.push(Seq::empty())
        } else {
            before.update(before.len() - 1, before.last().push(s.last()))
        }
    }
}

/// The pieces put together again, with a separator between each two.
pub open spec fn joined(parts: Seq<Seq<char>>, sep: char) -> Seq<char>
    decreases parts.len(),
{
    if parts.len() == 0 {
        Seq::empty()
    } else if parts.len() == 1 {
        parts[0]
    } else {
        joined(parts.drop_last(), sep).push(sep) + parts.last()
    }
}

/// Dividing a text loses nothing and leaves no separator behind: there is
/// at least one piece, no piece holds a separator, and the pieces with a
/// separator between each two are the text.
pub proof fn law_pieces_make_up_the_text(s: Seq<char>, sep: char)
    ensures
        pieces(s, sep).len() >= 1,
        forall|i: int, j: int|
            0 <= i < pieces(s, sep).len() && 0 <= j < pieces(s, sep)[i].len() ==> #[trigger] pieces(
                s,
                sep,
            )[i][j] != sep,
        joined(pieces(s, sep), sep) == s,
    decreases s.len(),
{
    let parts = pieces(s, sep);
    if s.len() == 0 {
        assert(joined(parts, sep) =~= s);
    } else {
        let before = pieces(s.drop_last(), sep);
        law_pieces_make_up_the_text(s.drop_last(), sep);
        let n = before.len() as int;
        if s.last() == sep {
            assert(parts.drop_last() =~= before);
            assert(joined(parts, sep) =~= s);
            assert forall|i: int, j: int|
                0 <= i < parts.len() && 0 <= j < parts[i].len() implies #[trigger] parts[i][j]
                != sep by {
                assert(parts[i] == before[i]);
                assert(before[i][j] != sep);
            }
        } else {
            assert forall|i: int, j: int|
                0 <= i < parts.len() && 0 <= j < parts[i].len() implies #[trigger] parts[i][j]
                != sep by {
                if i < n - 1 {
                    assert(parts[i] == before[i]);
                    assert(before[i][j] != sep);
                } else if j < before[i].len() {
                    assert(before[i][j] != sep);
                }
            }
            if n == 1 {
                assert(joined(before, sep) == before[0]);
                assert(joined(parts, sep) =~= s);
            } else {
                assert(parts.drop_last() =~= before.drop_last());
                assert(joined(before, sep) == joined(before.drop_last(), sep).push(sep)
                    + before.last());
                assert(joined(parts, sep) =~= joined(before, sep).push(s.last()));
                assert(joined(parts, sep) =~= s);
            }
        }
    }
}

/// The line without the carriage return that it may end with.
pub open spec fn without_return(line: Seq<char>) -> Seq<char> {
    if line.len() > 0 && line.last() == '\r' {
        line.drop_last()
    } else {
        line
    }
}

/// The lines of a text. Each line feed ends a line, and a carriage return
/// right before it belongs to the line end. What follows the last line feed
/// is a line of its own unless it is empty.
pub open spec fn lines(text: Seq<char>) -> Seq<Seq<char>> {
    let parts = pieces(text, '\n');
    let ended = Seq::new((parts.len() - 1) as nat, |i: int| without_return(parts[i]));
    if parts.last().len() == 0 {
        ended
    } else {
        ended.push(parts.last())
    }
}

/// The number that a decimal digit stands for.
pub open spec fn digit_value(c: char) -> Option<usize> {
    match c {
        '0' => Some(0usize),
        '1' => Some(1usize),
        '2' => Some(2usize),
        '3' => Some(3usize),
        '4' => Some(4usize),
        '5' => Some(5usize),
        '6' => Some(6usize),
        '7' => Some(7usize),
        '8' => Some(8usize),
        '9' => Some(9usize),
        _ => None,
    }
}

/// Every character is a decimal digit.
pub open spec fn all_digits(s: Seq<char>) -> bool {
    forall|i: int| 0 <= i < s.len() ==> digit_value(#[trigger] s[i]) is Some
}

/// The number that a row of decimal digits stands for.
pub open spec fn decimal_value(s: Seq<char>) -> nat
    decreases s.len(),
{
    if s.len() == 0 {
        0
    } else {
        decimal_value(s.drop_last()) * 10 + match digit_value(s.last()) {
            Some(d) => d as nat,
            None => 0,
        }
    }
}

/// The number that a field stands for: one or more decimal digits, after a
/// plus sign or none, that make a number which the machine can hold.
pub open spec fn number_of(field: Seq<char>) -> Option<usize> {
    let digits = if field.len() > 0 && field[0] == '+' {
        field.skip(1)
    } else {
        field
    };
    if digits.len() > 0 && all_digits(digits) && decimal_value(digits) <= usize::MAX {
        Some(decimal_value(digits) as usize)
    } else {
        None
    }
}

/// The members that the fields from the third to the `n`-th stand for, in
/// a line with the given number.
pub open spec fn members_upto(fields: Seq<Seq<char>>, n: int, line: usize) -> Result<
    Seq<usize>,
    ParseError,
>
    decreases n,
{
    if n <= 2 {
        Ok(Seq::empty())
    } else {
        match members_upto(fields, n - 1, line) {
            Err(e) => Err(e),
            Ok(members) => match number_of(fields[n - 1]) {
                Some(member) => Ok(members.push(member)),
                None => Err(ParseError::BadMember { line, field: (n - 1) as usize }),
            },
        }
    }
}

/// The restriction that a line with the given number stands for.
pub open spec fn record_of(text: Seq<char>, line: usize) -> Result<RestrictionView, ParseError> {
    let fields = pieces(text, ',');
    if fields.len() < 2 {
        Err(ParseError::MissingLimit { line })
    } else {
        match number_of(fields[1]) {
            None => Err(ParseError::BadLimit { line }),
            Some(limit) => if limit == 0 {
                Err(ParseError::ZeroLimit { line })
            } else {
                match members_upto(fields, fields.len() as int, line) {
                    Err(e) => Err(e),
                    Ok(members) => Ok(RestrictionView { name: fields[0], limit, members }),
                }
            },
        }
    }
}

/// The line is a heading: its first three fields are `group_name`, `limit`
/// and `members`.
pub open spec fn is_heading(text: Seq<char>) -> bool {
    let fields = pieces(text, ',');
    &&& fields.len() >= 3
    &&& fields[0] == "group_name"@
    &&& fields[1] == "limit"@
    &&& fields[2] == "members"@
}

/// The restrictions that the lines from the second to the `n`-th stand
/// for, or what is wrong with the first line that stands for none.
pub open spec fn records_upto(all: Seq<Seq<char>>, n: int) -> Result<
    Seq<RestrictionView>,
    ParseError,
>
    decreases n,
{
    if n <= 1 {
        Ok(Seq::empty())
    } else {
        match records_upto(all, n - 1) {
            Err(e) => Err(e),
            Ok(records) => match record_of(all[n - 1], (n - 1) as usize) {
                Ok(record) => Ok(records.push(record)),
                Err(e) => Err(e),
            },
        }
    }
}

/// The restrictions that a text stands for.
pub open spec fn parsed_restrictions(text: Seq<char>) -> Result<Seq<RestrictionView>, ParseError> {
    let all = lines(text);
    if all.len() == 0 || !is_heading(all[0]) {
        Err(ParseError::Header)
    } else {
        records_upto(all, all.len() as int)
    }
}

/// What each row of characters of the list holds.
pub open spec fn rows(v: Seq<Vec<char>>) -> Seq<Seq<char>> {
    Seq::new(v.len(), |i: int| v[i]@)
}

/// The characters of a text.
fn chars_of(text: &str) -> (r: Vec<char>)
    ensures
        r@ == text@,
{
    let mut v: Vec<char> = Vec::new();
    for c in it: text.chars()
        invariant
            it.seq() == text@,
            v@ == it.seq().take(it.index() as int),
    {
        v.push(c);
    }
    v
}

/// The text that the characters make up. This is `String::from_iter` of
/// the standard library, of which it is taken on trust that the string it
/// builds holds the characters it was given, in their order.
#[verifier::external_body]
fn string_of(chars: &Vec<char>) -> (r: String)
    ensures
        r@ == chars@,
{
    String::from_iter(chars.iter())
}

/// Divides a row of characters at every separator.
fn split(s: &Vec<char>, sep: char) -> (r: Vec<Vec<char>>)
    ensures
        rows(r@) == pieces(s@, sep),
        r@.len() >= 1,
{
    let n = s.len();
    let mut done: Vec<Vec<char>> = Vec::new();
    let mut current: Vec<char> = Vec::new();
    let mut i: usize = 0;
    proof {
        assert(s@.take(0) =~= Seq::empty());
        assert(rows(done@).push(current@) =~= pieces(s@.take(0), sep));
    }
    while i < n
        invariant
            i <= n,
            n == s@.len(),
            rows(done@).push(current@) == pieces(s@.take(i as int), sep),
        decreases n - i,
    {
        let c = s[i];
        let ghost before = rows(done@).push(current@);
        proof {
            assert(s@.take(i + 1).drop_last() =~= s@.take(i as int));
            assert(s@.take(i + 1).last() == c);
        }
        if c == sep {
            done.push(current);
            current = Vec::new();
            proof {
                assert(rows(done@) =~= before);
                assert(rows(done@).push(current@) =~= before.push(Seq::empty()));
            }
        } else {
            current.push(c);
            proof {
                assert(rows(done@).push(current@) =~= before.update(
                    before.len() - 1,
                    before.last().push(c),
                ));
            }
        }
        i += 1;
    }
    let ghost before = rows(done@).push(current@);
    done.push(current);
    proof {
        assert(s@.take(n as int) =~= s@);
        assert(rows(done@) =~= before);
    }
    done
}

/// Whether the characters spell the word.
fn spells(field: &Vec<char>, word: &str) -> (r: bool)
    ensures
        r == (field@ == word@),
{
    let letters = chars_of(word);
    if field.len() != letters.len() {
        return false;
    }
    let n = field.len();
    let mut i: usize = 0;
    while i < n
        invariant
            i <= n,
            n == field@.len(),
            n == letters@.len(),
            letters@ == word@,
            forall|k: int| 0 <= k < i ==> field@[k] == letters@[k],
        decreases n - i,
    {
        if field[i] != letters[i] {
            return false;
        }
        i += 1;
    }
    assert(field@ =~= letters@);
    true
}

/// The number that a decimal digit stands for.
fn digit_of(c: char) -> (r: Option<usize>)
    ensures
        r == digit_value(c),
{
    match c {
        '0' => Some(0),
        '1' => Some(1),
        '2' => Some(2),
        '3' => Some(3),
        '4' => Some(4),
        '5' => Some(5),
        '6' => Some(6),
        '7' => Some(7),
        '8' => Some(8),
        '9' => Some(9),
        _ => None,
    }
}

/// The value of a row of digits is at least the value of any row that it
/// begins with.
proof fn lemma_decimal_value_grows(s: Seq<char>, k: int)
    requires
        0 <= k <= s.len(),
    ensures
        decimal_value(s.take(k)) <= decimal_value(s),
    decreases s.len() - k,
{
    if k < s.len() {
        lemma_decimal_value_grows(s, k + 1);
        assert(s.take(k + 1).drop_last() =~= s.take(k));
    } else {
        assert(s.take(k) =~= s);
    }
}

/// Reads a field as a number.
pub fn parse_number(field: &Vec<char>) -> (r: Option<usize>)
    ensures
        r == number_of(field@),
{
    let n = field.len();
    let start: usize = if n > 0 && field[0] == '+' {
        1
    } else {
        0
    };
    let ghost digits = field@.skip(start as int);
    proof {
        assert(field@.skip(0) =~= field@);
    }
    if start == n {
        return None;
    }
    let mut value: usize = 0;
    let mut i: usize = start;
    proof {
        assert(digits.take(0) =~= Seq::empty());
    }
    while i < n
        invariant
            start <= i <= n,
            n == field@.len(),
            digits == field@.skip(start as int),
            digits == (if field@.len() > 0 && field@[0] == '+' {
                field@.skip(1)
            } else {
                field@
            }),
            digits.len() > 0,
            all_digits(digits.take(i - start)),
            value == decimal_value(digits.take(i - start)),
        decreases n - i,
    {
        let ghost seen = digits.take(i - start);
        let ghost next = digits.take(i - start + 1);
        proof {
            assert(next.drop_last() =~= seen);
            assert(next.last() == field@[i as int]);
        }
        let d = match digit_of(field[i]) {
            Some(d) => d,
            None => {
                assert(digit_value(digits[i - start]) is None);
                return None;
            },
        };
        let grown = match value.checked_mul(10) {
            Some(tenfold) => tenfold.checked_add(d),
            None => None,
        };
        match grown {
            Some(v) => {
                value = v;
            },
            None => {
                proof {
                    lemma_decimal_value_grows(digits, i - start + 1);
                    assert(decimal_value(next) > usize::MAX);
                    if all_digits(digits) {
                    }
                }
                return None;
            },
        }
        proof {
            assert forall|k: int| 0 <= k < next.len() implies digit_value(#[trigger] next[k]) is Some by {
                if k < seen.len() {
                    assert(seen[k] == next[k]);
                }
            }
        }
        i += 1;
    }
    proof {
        assert(digits.take(n - start) =~= digits);
    }
    Some(value)
}

/// Reads one line, the one with the given number, as a restriction.
pub fn parse_record(text: &Vec<char>, line: usize) -> (r: Result<Restriction, ParseError>)
    ensures
        match r {
            Ok(restriction) => record_of(text@, line) == Ok::<RestrictionView, ParseError>(
                restriction@,
            ),
            Err(e) => record_of(text@, line) == Err::<RestrictionView, ParseError>(e),
        },
{
    let fields = split(text, ',');
    let n = fields.len();
    let ghost all = pieces(text@, ',');
    if n < 2 {
        return Err(ParseError::MissingLimit { line });
    }
    assert(all[1] == fields@[1]@);
    let limit = match parse_number(&fields[1]) {
        Some(limit) => limit,
        None => {
            return Err(ParseError::BadLimit { line });
        },
    };
    if limit == 0 {
        return Err(ParseError::ZeroLimit { line });
    }
    let mut members: Vec<usize> = Vec::new();
    let mut k: usize = 2;
    while k < n
        invariant
            2 <= k <= n,
            n == fields@.len(),
            all == rows(fields@),
            all == pieces(text@, ','),
            number_of(all[1]) == Some(limit),
            limit != 0,
            members_upto(all, k as int, line) == Ok::<Seq<usize>, ParseError>(members@),
        decreases n - k,
    {
        assert(all[k as int] == fields@[k as int]@);
        match parse_number(&fields[k]) {
            Some(member) => {
                members.push(member);
            },
            None => {
                proof {
                    lemma_member_failure_persists(all, k + 1, n as int, line);
                }
                return Err(ParseError::BadMember { line, field: k });
            },
        }
        k += 1;
    }
    assert(all[0] == fields@[0]@);
    let name = string_of(&fields[0]);
    Ok(Restriction::new(name, limit, members))
}

/// A field that is no number among the first `m` is still the first such
/// among the first `n`.
proof fn lemma_member_failure_persists(fields: Seq<Seq<char>>, m: int, n: int, line: usize)
    requires
        m <= n,
        members_upto(fields, m, line) is Err,
    ensures
        members_upto(fields, n, line) == members_upto(fields, m, line),
    decreases n - m,
{
    if m < n {
        lemma_member_failure_persists(fields, m, n - 1, line);
    }
}

/// A line that stands for no restriction among the first `m` is still the
/// first such among the first `n`.
proof fn lemma_record_failure_persists(all: Seq<Seq<char>>, m: int, n: int)
    requires
        m <= n,
        records_upto(all, m) is Err,
    ensures
        records_upto(all, n) == records_upto(all, m),
    decreases n - m,
{
    if m < n {
        lemma_record_failure_persists(all, m, n - 1);
    }
}

/// Divides a text into its lines.
fn split_lines(text: &Vec<char>) -> (r: Vec<Vec<char>>)
    ensures
        rows(r@) == lines(text@),
{
    let mut parts = split(text, '\n');
    let ghost all = pieces(text@, '\n');
    let last = match parts.pop() {
        Some(last) => last,
        None => Vec::new(),
    };
    assert(last@ == all.last());
    let n = parts.len();
    let mut i: usize = 0;
    while i < n
        invariant
            i <= n,
            n == parts@.len(),
            n == all.len() - 1,
            forall|k: int| 0 <= k < i ==> (#[trigger] parts@[k])@ == without_return(all[k]),
            forall|k: int| i <= k < n ==> (#[trigger] parts@[k])@ == all[k],
        decreases n - i,
    {
        let m = parts[i].len();
        if m > 0 && parts[i][m - 1] == '\r' {
            let ghost before = parts@;
            parts[i].pop();
            assert(forall|k: int| 0 <= k < n && k != i ==> parts@[k] == before[k]);
        }
        i += 1;
    }
    if last.len() > 0 {
        parts.push(last);
    }
    assert(rows(parts@) =~= lines(text@));
    parts
}

/// Reads the text form of restrictions: a heading and one restriction to
/// each further line.
pub fn parse_restrictions(text: &str) -> (r: Result<Vec<Restriction>, ParseError>)
    ensures
        match r {
            Ok(restrictions) => parsed_restrictions(text@) == Ok::<
                Seq<RestrictionView>,
                ParseError,
            >(restriction_views(restrictions@)),
            Err(e) => parsed_restrictions(text@) == Err::<Seq<RestrictionView>, ParseError>(e),
        },
{
    let chars = chars_of(text);
    let all = split_lines(&chars);
    let n = all.len();
    if n == 0 {
        return Err(ParseError::Header);
    }
    let heading = split(&all[0], ',');
    assert(rows(all@)[0] == all@[0]@);
    if heading.len() < 3 {
        return Err(ParseError::Header);
    }
    assert(rows(heading@)[0] == heading@[0]@);
    assert(rows(heading@)[1] == heading@[1]@);
    assert(rows(heading@)[2] == heading@[2]@);
    if !spells(&heading[0], "group_name") || !spells(&heading[1], "limit") || !spells(
        &heading[2],
        "members",
    ) {
        return Err(ParseError::Header);
    }
    let mut restrictions: Vec<Restriction> = Vec::new();
    let mut i: usize = 1;
    assert(restriction_views(restrictions@) =~= Seq::empty());
    while i < n
        invariant
            1 <= i <= n,
            n == all@.len(),
            rows(all@) == lines(text@),
            is_heading(lines(text@)[0]),
            records_upto(lines(text@), i as int) == Ok::<Seq<RestrictionView>, ParseError>(
                restriction_views(restrictions@),
            ),
        decreases n - i,
    {
        assert(rows(all@)[i as int] == all@[i as int]@);
        match parse_record(&all[i], i) {
            Ok(restriction) => {
                let ghost before = restriction_views(restrictions@);
                restrictions.push(restriction);
                assert(restriction_views(restrictions@) =~= before.push(
                    restriction@,
                ));
            },
            Err(e) => {
                proof {
                    lemma_record_failure_persists(lines(text@), i + 1, n as int);
                }
                return Err(e);
            },
        }
        i += 1;
    }
    Ok(restrictions)
}

/// What a builder for the given seats has collected from the first `n`
/// ballot lines.
pub open spec fn collected(entries: Seq<VoteEntry>, n: int, seats: usize) -> BuilderView
    decreases n,
{
    if n <= 0 {
        BuilderView::empty(seats)
    } else {
        collected(entries, n - 1, seats).with_vote(
            entries[n - 1].user_id,
            entries[n - 1].vote_option,
            entries[n - 1].vote_option_full@,
            entries[n - 1].vote_rank,
        )
    }
}

/// The count that is set up from ballot lines, seats and the text of the
/// restrictions, if there is one; or why none is set up.
pub open spec fn setup_of(entries: Seq<VoteEntry>, seats: usize, text: Option<Seq<char>>) -> Result<
    ElectionView,
    SetupError,
> {
    let votes = collected(entries, entries.len() as int, seats);
    let all = match text {
        None => Ok(votes),
        Some(t) => match parsed_restrictions(t) {
            Ok(restrictions) => Ok(votes.with_restrictions(restrictions)),
            Err(e) => Err(SetupError::Restrictions(e)),
        },
    };
    match all {
        Err(e) => Err(e),
        Ok(builder) => match builder.failure() {
            Some(e) => Err(SetupError::Build(e)),
            None => Ok(builder.finished()),
        },
    }
}

/// The characters of a text that may be missing.
pub open spec fn text_view(text: Option<&str>) -> Option<Seq<char>> {
    match text {
        Some(t) => Some(t@),
        None => None,
    }
}

/// Reads the text form of restrictions, if there is a text, and hands the
/// restrictions to the builder in their order. A text that is refused
/// leaves the builder as it was.
pub fn deserialize_restrictions(restrictions: Option<&str>, ctx: &mut ContextBuilder) -> (r: Result<
    (),
    ParseError,
>)
    requires
        old(ctx).wf(),
    ensures
        final(ctx).wf(),
        match text_view(restrictions) {
            None => r is Ok && final(ctx)@ == old(ctx)@,
            Some(text) => match parsed_restrictions(text) {
                Ok(parsed) => r is Ok && final(ctx)@ == old(ctx)@.with_restrictions(parsed),
                Err(e) => r == Err::<(), ParseError>(e) && final(ctx)@ == old(ctx)@,
            },
        },
{
    let text = match restrictions {
        Some(text) => text,
        None => {
            return Ok(());
        },
    };
    let parsed = match parse_restrictions(text) {
        Ok(parsed) => parsed,
        Err(e) => {
            return Err(e);
        },
    };
    let ghost pre = ctx@;
    let ghost all = restriction_views(parsed@);
    proof {
        assert(pre.with_restrictions(all.take(0)) =~= pre);
    }
    for restriction in it: parsed.into_iter()
        invariant
            ctx.wf(),
            it.seq() == parsed@,
            all == restriction_views(parsed@),
            ctx@ == pre.with_restrictions(all.take(it.index() as int)),
    {
        ctx.insert_restriction(restriction);
        proof {
            let i = it.index() as int;
            assert(all[i] == restriction@);
            assert(all.take(i + 1) =~= all.take(i).push(restriction@));
            assert(ctx@ =~= pre.with_restrictions(all.take(i + 1)));
        }
    }
    proof {
        assert(all.take(all.len() as int) =~= all);
    }
    Ok(())
}

/// Sets up a count from ballot lines, the seats to fill and the text of
/// the restrictions, if there is one.
pub fn create_context(votes: Vec<VoteEntry>, seats: usize, restrictions: Option<&str>) -> (r: Result<
    Context,
    SetupError,
>)
    ensures
        match r {
            Ok(ctx) => ctx.wf() && setup_of(votes@, seats, text_view(restrictions)) == Ok::<
                ElectionView,
                SetupError,
            >(ctx@),
            Err(e) => setup_of(votes@, seats, text_view(restrictions)) == Err::<
                ElectionView,
                SetupError,
            >(e),
        },
{
    let mut ctx = ContextBuilder::new(seats);
    for vote in it: votes.into_iter()
        invariant
            ctx.wf(),
            it.seq() == votes@,
            ctx@ == collected(votes@, it.index() as int, seats),
    {
        ctx.insert_vote(vote);
    }
    match deserialize_restrictions(restrictions, &mut ctx) {
        Err(e) => {
            return Err(SetupError::Restrictions(e));
        },
        Ok(_) => {},
    }
    match ctx.finish() {
        Ok(context) => Ok(context),
        Err(e) => Err(SetupError::Build(e)),
    }
}

/// Two lists of ballot lines say the same, line by line.
pub open spec fn same_records(a: Seq<VoteEntry>, b: Seq<VoteEntry>) -> bool {
    &&& a.len() == b.len()
    &&& forall|i: int|
        0 <= i < a.len() ==> {
            &&& (#[trigger] a[i]).user_id == b[i].user_id
            &&& a[i].vote_option == b[i].vote_option
            &&& a[i].vote_rank == b[i].vote_rank
            &&& a[i].vote_option_full@ == b[i].vote_option_full@
        }
}

/// Builders that took in the same lines have collected the same.
proof fn lemma_equal_records_collect_equally(
    a: Seq<VoteEntry>,
    b: Seq<VoteEntry>,
    n: int,
    seats: usize,
)
    requires
        same_records(a, b),
        n <= a.len(),
    ensures
        collected(a, n, seats) == collected(b, n, seats),
    decreases n,
{
    if n > 0 {
        lemma_equal_records_collect_equally(a, b, n - 1, seats);
        assert(a[n - 1].user_id == b[n - 1].user_id);
    }
}

/// What is set up depends on nothing but what the records say: the same
/// lines in the same order, the same seats and the same text of
/// restrictions give the same count, or fail for the same reason. With
/// [`crate::domain::context::laws::law_equal_counts_report_equally`]: the
/// same records give the same reports.
pub proof fn law_equal_records_set_up_equal_counts(
    a: Seq<VoteEntry>,
    b: Seq<VoteEntry>,
    seats: usize,
    text: Option<Seq<char>>,
)
    requires
        same_records(a, b),
    ensures
        setup_of(a, seats, text) == setup_of(b, seats, text),
{
    lemma_equal_records_collect_equally(a, b, a.len() as int, seats);
}

} // verus!
