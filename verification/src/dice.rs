//! Dice notation: a token "NdV" names N dice of V sides each ("3d20"), with
//! the count defaulting to one when absent ("d8"). Parsing validates a token
//! or a delimited list of tokens; rolling samples each die uniformly.

use vstd::prelude::*;
use crate::nums::{
    count_char,
    digits_val,
    lemma_all_digits_count,
    lemma_count_char_concat,
    lemma_count_char_single,
    lemma_count_char_zero,
    parse_pos_u32,
    valid_number,
};

verus! {

/// Why a token was rejected, carrying the offending text.
#[derive(Debug, Clone, PartialEq)]
pub enum ParseError {
    /// The token does not contain exactly one 'd'.
    MalformedToken(String),
    /// The text before the 'd' is neither empty nor a positive integer.
    InvalidCount(String),
    /// The text after the 'd' is not a positive integer.
    InvalidSides(String),
}

/// The human-readable rendering of each error: the offending text and the
/// expected grammar.
pub open spec fn message_spec(e: ParseError) -> Seq<char> {
    match e {
        ParseError::MalformedToken(s) => "bad dice token '"@ + s@
            + "': should be [<count>]d<sides>, like '10d6' or 'd8'"@,
        ParseError::InvalidCount(s) => "bad dice count '"@ + s@
            + "': should be a positive number, as in '10d6'"@,
        ParseError::InvalidSides(s) => "bad dice sides '"@ + s@
            + "': should be a positive number, as in 'd8'"@,
    }
}

impl ParseError {
    /// Renders the error for display, offending text and grammar hint included.
    pub fn message(&self) -> (r: String)
        ensures
            r@ == message_spec(*self),
    {
        match self {
            ParseError::MalformedToken(s) => {
                let mut r = String::from_str("bad dice token '");
                r.append(s.as_str());
                r.append("': should be [<count>]d<sides>, like '10d6' or 'd8'");
                r
            },
            ParseError::InvalidCount(s) => {
                let mut r = String::from_str("bad dice count '");
                r.append(s.as_str());
                r.append("': should be a positive number, as in '10d6'");
                r
            },
            ParseError::InvalidSides(s) => {
                let mut r = String::from_str("bad dice sides '");
                r.append(s.as_str());
                r.append("': should be a positive number, as in 'd8'");
                r
            },
        }
    }
}

/// Index of the first 'd' in the token; the token's length when none occurs.
pub open spec fn first_d(t: Seq<char>) -> int
    decreases t.len(),
{
    if t.len() == 0 {
        0
    } else if t[0] == 'd' {
        0
    } else {
        1 + first_d(t.skip(1))
    }
}

/// The count portion: everything before the first 'd'.
pub open spec fn count_part(t: Seq<char>) -> Seq<char> {
    t.take(first_d(t))
}

/// The sides portion: everything after the first 'd'.
pub open spec fn sides_part(t: Seq<char>) -> Seq<char> {
    t.skip(first_d(t) + 1)
}

/// A token is well formed when it has exactly one 'd', its sides portion is
/// a positive integer, and its count portion is empty or a positive integer.
/// Zero counts or sides and values over `u32::MAX` are rejected.
pub open spec fn token_wf(t: Seq<char>) -> bool {
    &&& count_char(t, 'd') == 1
    &&& valid_number(sides_part(t))
    &&& (count_part(t).len() == 0 || valid_number(count_part(t)))
}

/// The number of dice a well-formed token asks for: one when omitted.
pub open spec fn spec_count(t: Seq<char>) -> nat {
    if count_part(t).len() == 0 {
        1
    } else {
        digits_val(count_part(t))
    }
}

/// The number of sides a well-formed token asks for.
pub open spec fn spec_sides(t: Seq<char>) -> nat {
    digits_val(sides_part(t))
}

/// The error that rejecting token `t` must carry: which variant applies and
/// what text it holds.
pub open spec fn parse_error_for(e: ParseError, t: Seq<char>) -> bool {
    match e {
        ParseError::MalformedToken(s) => s@ == t && count_char(t, 'd') != 1,
        ParseError::InvalidSides(s) => s@ == sides_part(t) && count_char(t, 'd') == 1
            && !valid_number(sides_part(t)),
        ParseError::InvalidCount(s) => s@ == count_part(t) && count_char(t, 'd') == 1
            && valid_number(sides_part(t)) && count_part(t).len() > 0 && !valid_number(
            count_part(t),
        ),
    }
}

/// Where the first 'd' lies: within the token and before any other 'd', or
/// at the token's end when there is none.
pub proof fn lemma_first_d_bounds(t: Seq<char>)
    ensures
        0 <= first_d(t) <= t.len(),
        first_d(t) < t.len() ==> t[first_d(t)] == 'd',
        forall|j: int| 0 <= j < first_d(t) ==> t[j] != 'd',
    decreases t.len(),
{
    if t.len() == 0 {
    } else if t[0] == 'd' {
    } else {
        lemma_first_d_bounds(t.skip(1));
        assert forall|j: int| 0 <= j < first_d(t) implies t[j] != 'd' by {
            if j > 0 {
                assert(t.skip(1)[j - 1] != 'd');
            }
        }
    }
}

/// Law: a token whose first character is its 'd' omits the count portion,
/// which defaults to one die.
pub proof fn lemma_omitted_count_is_one(t: Seq<char>)
    requires
        t.len() > 0,
        t[0] == 'd',
    ensures
        spec_count(t) == 1,
{
    assert(count_part(t) =~= Seq::<char>::empty());
}

/// Law: a well-formed token's text contains no newline, so each such token
/// renders on a single line.
pub proof fn lemma_token_no_newline(t: Seq<char>)
    requires
        token_wf(t),
    ensures
        count_char(t, '\n') == 0,
{
    lemma_first_d_bounds(t);
    if first_d(t) == t.len() {
        lemma_count_char_zero(t, 'd');
        assert(false);
    }
    assert(t =~= count_part(t) + seq!['d'] + sides_part(t));
    lemma_count_char_concat(count_part(t), seq!['d'], '\n');
    lemma_count_char_concat(count_part(t) + seq!['d'], sides_part(t), '\n');
    lemma_count_char_single('d', '\n');
    if count_part(t).len() > 0 {
        lemma_all_digits_count(count_part(t), '\n');
    }
    lemma_all_digits_count(sides_part(t), '\n');
}

/// Splitting text on a delimiter: n delimiter occurrences give n + 1 tokens,
/// in input order; empty tokens are kept (the empty text is one empty token).
pub open spec fn split_on(s: Seq<char>, delim: char) -> Seq<Seq<char>>
    decreases s.len(),
{
    if s.len() == 0 {
        seq![Seq::<char>::empty()]
    } else if s[0] == delim {
        seq![Seq::<char>::empty()] + split_on(s.skip(1), delim)
    } else {
        let rest = split_on(s.skip(1), delim);
        seq![seq![s[0]] + rest[0]] + rest.skip(1)
    }
}

/// A split always yields at least one token.
pub proof fn lemma_split_on_len(s: Seq<char>, delim: char)
    ensures
        split_on(s, delim).len() >= 1,
    decreases s.len(),
{
    if s.len() == 0 {
    } else {
        lemma_split_on_len(s.skip(1), delim);
    }
}

/// Text without the delimiter splits into itself as the only token.
pub proof fn lemma_split_on_whole(s: Seq<char>, delim: char)
    requires
        forall|j: int| 0 <= j < s.len() ==> s[j] != delim,
    ensures
        split_on(s, delim) == seq![s],
    decreases s.len(),
{
    if s.len() == 0 {
        assert(split_on(s, delim) =~~= seq![s]);
    } else {
        lemma_split_on_whole(s.skip(1), delim);
        assert(seq![s[0]] + s.skip(1) =~= s);
        assert(split_on(s, delim) =~~= seq![s]);
    }
}

/// Taking one delimiter-free token `t` and the delimiter off the front of the
/// text peels one token off the split.
pub proof fn lemma_split_on_step(t: Seq<char>, u: Seq<char>, delim: char)
    requires
        forall|j: int| 0 <= j < t.len() ==> t[j] != delim,
    ensures
        split_on(t + seq![delim] + u, delim) == seq![t] + split_on(u, delim),
    decreases t.len(),
{
    let s = t + seq![delim] + u;
    if t.len() == 0 {
        assert(s[0] == delim);
        assert(s.skip(1) =~= u);
        assert(seq![t] =~~= seq![Seq::<char>::empty()]);
        assert(split_on(s, delim) =~~= seq![t] + split_on(u, delim));
    } else {
        assert(s[0] == t[0] && s[0] != delim);
        assert(s.skip(1) =~= t.skip(1) + seq![delim] + u);
        lemma_split_on_step(t.skip(1), u, delim);
        let rest = split_on(s.skip(1), delim);
        lemma_split_on_len(u, delim);
        assert(rest[0] == t.skip(1));
        assert(seq![s[0]] + rest[0] =~= t);
        assert(rest.skip(1) =~~= split_on(u, delim));
        assert(split_on(s, delim) =~~= seq![t] + split_on(u, delim));
    }
}

/// One parsed dice expression: `number` dice of `value` sides each, with the
/// original token text kept for display.
#[derive(Debug, Clone, PartialEq)]
pub struct Dice {
    /// The token this expression was parsed from, verbatim.
    pub desc: String,
    /// How many dice to roll; at least one.
    pub number: u32,
    /// How many sides each die has; at least one.
    pub value: u32,
}

/// The outcome of rolling one dice expression.
#[derive(Debug, Clone, PartialEq)]
pub struct Roll {
    /// Copied from the originating expression's token text.
    pub desc: String,
    /// One sampled value per die, in the order sampled.
    pub rolls: Vec<u32>,
}

impl Roll {
    /// The roll count fits in `u32`, so sums of rolls fit in `u64`.
    pub open spec fn wf(&self) -> bool {
        self.rolls@.len() <= u32::MAX
    }
}

/// `first_d` is pinned down by a witness: a position holding 'd' with no 'd'
/// before it, or the token's end with no 'd' anywhere.
proof fn lemma_first_d_is(t: Seq<char>, i: int)
    requires
        0 <= i <= t.len(),
        forall|j: int| 0 <= j < i ==> t[j] != 'd',
        i < t.len() ==> t[i] == 'd',
    ensures
        first_d(t) == i,
    decreases i,
{
    if i == 0 {
    } else {
        lemma_first_d_is(t.skip(1), i - 1);
    }
}

impl Dice {
    /// Both parts are at least one.
    pub open spec fn wf(&self) -> bool {
        self.number >= 1 && self.value >= 1
    }

    /// Parsed from this token: text kept, count and sides as the token says.
    pub open spec fn parsed_from(&self, t: Seq<char>) -> bool {
        &&& self.desc@ == t
        &&& self.number as nat == spec_count(t)
        &&& self.value as nat == spec_sides(t)
        &&& self.wf()
    }

    /// Parses one dice token. Succeeds exactly on well-formed tokens and
    /// otherwise reports which rule the token broke, fully determined by the
    /// token text. The token is taken verbatim: no whitespace is trimmed,
    /// and the sides portion is validated before the count portion.
    pub fn new(string_desc: &str) -> (r: Result<Dice, ParseError>)
        ensures
            match r {
                Ok(dice) => token_wf(string_desc@) && dice.parsed_from(string_desc@),
                Err(e) => !token_wf(string_desc@) && parse_error_for(e, string_desc@),
            },
    {
        let ghost t = string_desc@;
        let n = string_desc.unicode_len();
        let mut i: usize = 0;
        let mut dcount: usize = 0;
        let mut dpos: usize = 0;
        while i < n
            invariant
                i <= n,
                n as nat == t.len(),
                t == string_desc@,
                dcount <= i,
                dcount as nat == count_char(t.take(i as int), 'd'),
                dcount > 0 ==> dpos < i && t[dpos as int] == 'd' && (forall|j: int|
                    0 <= j < dpos ==> t[j] != 'd'),
                dcount == 0 ==> (forall|j: int| 0 <= j < i ==> t[j] != 'd'),
            decreases n - i,
        {
            let c = string_desc.get_char(i);
            proof {
                assert(t.take(i + 1).drop_last() =~= t.take(i as int));
            }
            if c == 'd' {
                if dcount == 0 {
                    dpos = i;
                }
                dcount = dcount + 1;
            }
            i = i + 1;
        }
        proof {
            assert(t.take(n as int) =~= t);
        }
        if dcount != 1 {
            return Err(ParseError::MalformedToken(String::from_str(string_desc)));
        }
        proof {
            lemma_first_d_is(t, dpos as int);
        }
        let value = match parse_pos_u32(string_desc, dpos + 1, n) {
            Some(v) => v,
            None => {
                proof {
                    assert(t.subrange(dpos + 1, n as int) =~= sides_part(t));
                }
                return Err(
                    ParseError::InvalidSides(
                        String::from_str(string_desc.substring_char(dpos + 1, n)),
                    ),
                );
            },
        };
        proof {
            assert(t.subrange(dpos + 1, n as int) =~= sides_part(t));
        }
        if dpos == 0 {
            proof {
                assert(count_part(t) =~= Seq::<char>::empty());
            }
            Ok(Dice { desc: String::from_str(string_desc), number: 1, value })
        } else {
            let number = match parse_pos_u32(string_desc, 0, dpos) {
                Some(c) => c,
                None => {
                    proof {
                        assert(t.subrange(0, dpos as int) =~= count_part(t));
                    }
                    return Err(
                        ParseError::InvalidCount(
                            String::from_str(string_desc.substring_char(0, dpos)),
                        ),
                    );
                },
            };
            proof {
                assert(t.subrange(0, dpos as int) =~= count_part(t));
            }
            Ok(Dice { desc: String::from_str(string_desc), number, value })
        }
    }

    /// Splits the text on the delimiter and parses every token, in order.
    /// Succeeds exactly when every token is well formed; otherwise reports
    /// the first offending token's error and yields nothing (fail-fast).
    pub fn new_vec(string_desc: String, delim: char) -> (r: Result<Vec<Dice>, ParseError>)
        ensures
            ({
                let toks = split_on(string_desc@, delim);
                match r {
                    Ok(v) => v@.len() == toks.len() && (forall|i: int|
                        0 <= i < toks.len() ==> token_wf(#[trigger] toks[i])
                            && v@[i].parsed_from(toks[i])),
                    Err(e) => exists|i: int|
                        0 <= i < toks.len() && !token_wf(#[trigger] toks[i]) && parse_error_for(
                            e,
                            toks[i],
                        ) && (forall|j: int| 0 <= j < i ==> token_wf(toks[j])),
                }
            }),
    {
        let ghost toks = split_on(string_desc@, delim);
        let s = string_desc.as_str();
        let n = s.unicode_len();
        let mut result: Vec<Dice> = Vec::new();
        let mut start: usize = 0;
        proof {
            lemma_split_on_len(string_desc@, delim);
            assert(toks.skip(0) =~~= toks);
            assert(s@.skip(0) =~= s@);
        }
        loop
            invariant
                start <= n,
                n as nat == s@.len(),
                s@ == string_desc@,
                toks == split_on(string_desc@, delim),
                result@.len() < toks.len(),
                toks.skip(result@.len() as int) == split_on(s@.skip(start as int), delim),
                forall|i: int|
                    0 <= i < result@.len() ==> token_wf(#[trigger] toks[i])
                        && result@[i].parsed_from(toks[i]),
            decreases n - start,
        {
            let ghost k: int = result@.len() as int;
            let mut j: usize = start;
            while j < n && s.get_char(j) != delim
                invariant
                    start <= j <= n,
                    n as nat == s@.len(),
                    s@ == string_desc@,
                    forall|m: int| start <= m < j ==> s@[m] != delim,
                decreases n - j,
            {
                j = j + 1;
            }
            let ghost token = s@.subrange(start as int, j as int);
            proof {
                if j < n {
                    assert(s@.skip(start as int) =~= token + seq![delim] + s@.skip(j + 1));
                    lemma_split_on_step(token, s@.skip(j + 1), delim);
                    assert(toks.skip(k)[0] == token);
                    assert(toks.skip(k).skip(1) =~~= toks.skip(k + 1));
                    assert(toks[k] == token);
                } else {
                    assert(s@.skip(start as int) =~= token);
                    lemma_split_on_whole(token, delim);
                    assert(toks.skip(k)[0] == token);
                    assert(toks[k] == token);
                    assert(toks.len() == k + 1);
                }
            }
            let dice = match Dice::new(s.substring_char(start, j)) {
                Ok(dice) => dice,
                Err(e) => {
                    return Err(e);
                },
            };
            result.push(dice);
            if j == n {
                return Ok(result);
            }
            proof {
                lemma_split_on_len(s@.skip(j + 1), delim);
            }
            start = j + 1;
        }
    }

    /// Rolls this expression: one uniform sample per die, each within
    /// `[1, value]`, in the order sampled.
    pub fn roll(&self) -> (r: Roll)
        requires
            self.wf(),
        ensures
            rolled_from(r, *self),
            r.wf(),
    {
        let mut rolls: Vec<u32> = Vec::new();
        let mut i: u32 = 0;
        while i < self.number
            invariant
                i <= self.number,
                rolls@.len() == i as nat,
                self.value >= 1,
                forall|m: int| 0 <= m < rolls@.len() ==> 1 <= #[trigger] rolls@[m] <= self.value,
            decreases self.number - i,
        {
            let v = random_in_range(1, self.value);
            rolls.push(v);
            i = i + 1;
        }
        Roll { desc: self.desc.clone(), rolls }
    }

    /// Rolls every expression, one result per expression, in input order.
    pub fn roll_all(dice: Vec<Dice>) -> (r: Vec<Roll>)
        requires
            forall|i: int| 0 <= i < dice@.len() ==> (#[trigger] dice@[i]).wf(),
        ensures
            r@.len() == dice@.len(),
            forall|i: int|
                0 <= i < r@.len() ==> rolled_from(#[trigger] r@[i], dice@[i]) && r@[i].wf(),
    {
        let mut result: Vec<Roll> = Vec::new();
        let mut i: usize = 0;
        while i < dice.len()
            invariant
                i <= dice@.len(),
                result@.len() == i as nat,
                forall|m: int| 0 <= m < dice@.len() ==> (#[trigger] dice@[m]).wf(),
                forall|m: int|
                    0 <= m < result@.len() ==> rolled_from(#[trigger] result@[m], dice@[m])
                        && result@[m].wf(),
            decreases dice@.len() - i,
        {
            let roll = dice[i].roll();
            result.push(roll);
            i = i + 1;
        }
        result
    }

    /// Parses the whole description and rolls every expression: the tokens'
    /// texts, counts and side bounds carry over to the results, in order;
    /// fails exactly as `new_vec` does.
    pub fn new_vec_roll(string_desc: String, delim: char) -> (r: Result<Vec<Roll>, ParseError>)
        ensures
            ({
                let toks = split_on(string_desc@, delim);
                match r {
                    Ok(rolls) => rolls@.len() == toks.len() && (forall|i: int|
                        0 <= i < toks.len() ==> token_wf(#[trigger] toks[i]) && roll_matches_token(
                            rolls@[i],
                            toks[i],
                        )),
                    Err(e) => exists|i: int|
                        0 <= i < toks.len() && !token_wf(#[trigger] toks[i]) && parse_error_for(
                            e,
                            toks[i],
                        ) && (forall|j: int| 0 <= j < i ==> token_wf(toks[j])),
                }
            }),
    {
        let ghost toks = split_on(string_desc@, delim);
        match Dice::new_vec(string_desc, delim) {
            Ok(dice) => {
                let ghost dice_view = dice@;
                proof {
                    assert forall|i: int| 0 <= i < dice_view.len() implies (
                    #[trigger] dice_view[i]).wf() by {
                        assert(dice_view[i].parsed_from(toks[i]));
                    }
                }
                let rolls = Dice::roll_all(dice);
                proof {
                    assert forall|i: int| 0 <= i < toks.len() implies roll_matches_token(
                        rolls@[i],
                        toks[i],
                    ) by {
                        assert(dice_view[i].parsed_from(toks[i]));
                        assert(rolled_from(rolls@[i], dice_view[i]));
                    }
                }
                Ok(rolls)
            },
            Err(e) => Err(e),
        }
    }
}

/// What rolling a given expression guarantees: same token text, one sample
/// per die, each within `[1, value]`.
pub open spec fn rolled_from(r: Roll, d: Dice) -> bool {
    &&& r.desc@ == d.desc@
    &&& r.rolls@.len() == d.number as nat
    &&& forall|i: int| 0 <= i < r.rolls@.len() ==> 1 <= #[trigger] r.rolls@[i] <= d.value
}

/// A roll that answers a token: the token's text, one sample per asked die,
/// each within the token's side bound.
pub open spec fn roll_matches_token(r: Roll, t: Seq<char>) -> bool {
    &&& r.desc@ == t
    &&& r.rolls@.len() == spec_count(t)
    &&& forall|i: int| 0 <= i < r.rolls@.len() ==> 1 <= #[trigger] r.rolls@[i] <= spec_sides(t)
}

/// Relies on rand::random_range over the thread-local generator: it returns
/// a value within the given range and panics only on an empty range, which
/// `lo <= hi` rules out. Nothing more is assumed of the outcome.
#[verifier::external_body]
fn random_in_range(lo: u32, hi: u32) -> (r: u32)
    requires
        lo <= hi,
    ensures
        lo <= r <= hi,
{
    rand::random_range(lo..=hi)
}

} // verus!
