//! Rendering of roll results as text, under four presentation modes: the
//! product of terse (totals only) against verbose (per-die breakdowns), and
//! summed (one grand total) against per-result reporting.

use vstd::prelude::*;
use vstd::arithmetic::mul::lemma_mul_inequality;
use crate::dice::Roll;
use crate::nums::{
    count_char,
    dec_str,
    lemma_all_digits_count,
    lemma_count_char_concat,
    lemma_count_char_single,
    lemma_dec_str_digits,
    u128_to_string,
};

verus! {

/// The presentation mode: `--terse` and `--sum` as data.
#[derive(Debug, Clone, Copy, PartialEq, Eq)]
pub struct DisplayMode {
    /// Show totals only, omitting token texts and per-die breakdowns.
    pub terse: bool,
    /// Aggregate all results into one grand total.
    pub summed: bool,
}

/// Sum of one result's sampled values.
pub open spec fn sum_of(rolls: Seq<u32>) -> nat
    decreases rolls.len(),
{
    if rolls.len() == 0 {
        0
    } else {
        sum_of(rolls.drop_last()) + rolls.last() as nat
    }
}

/// Sum of all results' totals.
pub open spec fn grand_total(rs: Seq<Roll>) -> nat
    decreases rs.len(),
{
    if rs.len() == 0 {
        0
    } else {
        grand_total(rs.drop_last()) + sum_of(rs.last().rolls@)
    }
}

/// The separator between per-die values: " + ".
pub open spec fn sep_plus() -> Seq<char> {
    seq![' ', '+', ' ']
}

/// One result's values joined by " + "; a single value stands alone, and no
/// values give the empty string.
pub open spec fn join_plus(rolls: Seq<u32>) -> Seq<char>
    decreases rolls.len(),
{
    if rolls.len() == 0 {
        Seq::empty()
    } else if rolls.len() == 1 {
        dec_str(rolls[0] as nat)
    } else {
        join_plus(rolls.drop_last()) + sep_plus() + dec_str(rolls.last() as nat)
    }
}

/// One result's verbose line: "{token}: {total} = {values joined by " + "}".
pub open spec fn pretty_spec(r: Roll) -> Seq<char> {
    r.desc@ + seq![':', ' '] + dec_str(sum_of(r.rolls@)) + seq![' ', '=', ' '] + join_plus(
        r.rolls@,
    )
}

/// Verbose per-die output: one line per result, in input order.
pub open spec fn pretty_lines(rs: Seq<Roll>) -> Seq<char>
    decreases rs.len(),
{
    if rs.len() == 0 {
        Seq::empty()
    } else if rs.len() == 1 {
        pretty_spec(rs[0])
    } else {
        pretty_lines(rs.drop_last()) + seq!['\n'] + pretty_spec(rs.last())
    }
}

/// Terse per-die output: one total per line, in input order.
pub open spec fn terse_lines(rs: Seq<Roll>) -> Seq<char>
    decreases rs.len(),
{
    if rs.len() == 0 {
        Seq::empty()
    } else if rs.len() == 1 {
        dec_str(sum_of(rs[0].rolls@))
    } else {
        terse_lines(rs.drop_last()) + seq!['\n'] + dec_str(sum_of(rs.last().rolls@))
    }
}

/// The results' per-die breakdowns, each in parentheses, joined over lines by
/// "+": the tail of the verbose summed output.
pub open spec fn bare_join(rs: Seq<Roll>) -> Seq<char>
    decreases rs.len(),
{
    if rs.len() == 0 {
        Seq::empty()
    } else if rs.len() == 1 {
        join_plus(rs[0].rolls@)
    } else {
        bare_join(rs.drop_last()) + seq![')', '\n', '+', ' ', '('] + join_plus(rs.last().rolls@)
    }
}

/// What each presentation mode shows. Summed modes render an empty result
/// sequence as the grand total zero; per-die modes render it as empty text.
pub open spec fn format_spec(rs: Seq<Roll>, mode: DisplayMode) -> Seq<char> {
    if mode.summed {
        if mode.terse {
            dec_str(grand_total(rs))
        } else {
            dec_str(grand_total(rs)) + seq!['\n', '=', ' ', '('] + bare_join(rs) + seq![')']
        }
    } else {
        if mode.terse {
            terse_lines(rs)
        } else {
            pretty_lines(rs)
        }
    }
}

/// A sum of `u32` values is bounded by the count of values times `u32::MAX`.
pub proof fn lemma_sum_of_bound(rolls: Seq<u32>)
    ensures
        sum_of(rolls) <= rolls.len() * (u32::MAX as nat),
    decreases rolls.len(),
{
    if rolls.len() > 0 {
        lemma_sum_of_bound(rolls.drop_last());
    }
}

/// Law: in terse+summed mode the output is exactly the decimal string of the
/// grand total, the sum over all results of that result's total.
pub proof fn lemma_terse_summed_is_sum(rs: Seq<Roll>)
    ensures
        format_spec(rs, DisplayMode { terse: true, summed: true }) == dec_str(grand_total(rs)),
{
}

/// No character of a decimal rendering is a newline.
proof fn lemma_dec_str_no_newline(n: nat)
    ensures
        count_char(dec_str(n), '\n') == 0,
{
    lemma_dec_str_digits(n);
    lemma_all_digits_count(dec_str(n), '\n');
}

/// A " + " join of decimal values contains no newline.
proof fn lemma_join_plus_no_newline(rolls: Seq<u32>)
    ensures
        count_char(join_plus(rolls), '\n') == 0,
    decreases rolls.len(),
{
    if rolls.len() == 0 {
    } else if rolls.len() == 1 {
        lemma_dec_str_no_newline(rolls[0] as nat);
    } else {
        lemma_join_plus_no_newline(rolls.drop_last());
        lemma_dec_str_no_newline(rolls.last() as nat);
        assert(sep_plus() =~= seq![' '] + seq!['+'] + seq![' ']);
        lemma_count_char_single(' ', '\n');
        lemma_count_char_single('+', '\n');
        lemma_count_char_concat(seq![' '], seq!['+'], '\n');
        lemma_count_char_concat(seq![' '] + seq!['+'], seq![' '], '\n');
        lemma_count_char_concat(join_plus(rolls.drop_last()), sep_plus(), '\n');
        lemma_count_char_concat(
            join_plus(rolls.drop_last()) + sep_plus(),
            dec_str(rolls.last() as nat),
            '\n',
        );
    }
}

/// A verbose line holds no newline when its token text holds none.
proof fn lemma_pretty_no_newline(r: Roll)
    requires
        count_char(r.desc@, '\n') == 0,
    ensures
        count_char(pretty_spec(r), '\n') == 0,
{
    let a = r.desc@;
    let b = seq![':', ' '];
    let c = dec_str(sum_of(r.rolls@));
    let d = seq![' ', '=', ' '];
    let e = join_plus(r.rolls@);
    lemma_dec_str_no_newline(sum_of(r.rolls@));
    lemma_join_plus_no_newline(r.rolls@);
    lemma_count_char_single(':', '\n');
    lemma_count_char_single(' ', '\n');
    lemma_count_char_single('=', '\n');
    assert(b =~= seq![':'] + seq![' ']);
    lemma_count_char_concat(seq![':'], seq![' '], '\n');
    assert(d =~= seq![' '] + seq!['='] + seq![' ']);
    lemma_count_char_concat(seq![' '], seq!['='], '\n');
    lemma_count_char_concat(seq![' '] + seq!['='], seq![' '], '\n');
    lemma_count_char_concat(a, b, '\n');
    lemma_count_char_concat(a + b, c, '\n');
    lemma_count_char_concat(a + b + c, d, '\n');
    lemma_count_char_concat(a + b + c + d, e, '\n');
}

/// Newline count of the verbose per-die output: only the separators.
proof fn lemma_pretty_lines_newlines(rs: Seq<Roll>)
    requires
        forall|i: int| 0 <= i < rs.len() ==> count_char(#[trigger] rs[i].desc@, '\n') == 0,
    ensures
        count_char(pretty_lines(rs), '\n') == if rs.len() == 0 {
            0nat
        } else {
            (rs.len() - 1) as nat
        },
    decreases rs.len(),
{
    if rs.len() == 0 {
    } else if rs.len() == 1 {
        lemma_pretty_no_newline(rs[0]);
    } else {
        lemma_pretty_lines_newlines(rs.drop_last());
        lemma_pretty_no_newline(rs.last());
        lemma_count_char_single('\n', '\n');
        lemma_count_char_concat(pretty_lines(rs.drop_last()), seq!['\n'], '\n');
        lemma_count_char_concat(
            pretty_lines(rs.drop_last()) + seq!['\n'],
            pretty_spec(rs.last()),
            '\n',
        );
    }
}

/// Law: verbose per-die output has one line per result, in input order: it is
/// the results' verbose lines joined by single newlines, and when no token
/// text holds a newline it has exactly one newline fewer than results.
pub proof fn lemma_verbose_per_die_lines(rs: Seq<Roll>)
    requires
        rs.len() > 0,
        forall|i: int| 0 <= i < rs.len() ==> count_char(#[trigger] rs[i].desc@, '\n') == 0,
    ensures
        format_spec(rs, DisplayMode { terse: false, summed: false }) == pretty_lines(rs),
        count_char(format_spec(rs, DisplayMode { terse: false, summed: false }), '\n') == rs.len()
            - 1,
{
    lemma_pretty_lines_newlines(rs);
}

impl Roll {
    /// The sum of this result's values.
    pub fn total(&self) -> (r: u64)
        requires
            self.wf(),
        ensures
            r as nat == sum_of(self.rolls@),
    {
        let mut acc: u64 = 0;
        let mut i: usize = 0;
        while i < self.rolls.len()
            invariant
                self.wf(),
                i <= self.rolls@.len(),
                acc as nat == sum_of(self.rolls@.take(i as int)),
                acc as nat <= (i as nat) * (u32::MAX as nat),
            decreases self.rolls@.len() - i,
        {
            proof {
                assert(self.rolls@.take(i + 1).drop_last() =~= self.rolls@.take(i as int));
                lemma_mul_inequality(i as int + 1, u32::MAX as int, u32::MAX as int);
            }
            acc = acc + (self.rolls[i] as u64);
            i = i + 1;
        }
        proof {
            assert(self.rolls@.take(self.rolls@.len() as int) =~= self.rolls@);
        }
        acc
    }

    /// This result's values joined by " + ".
    pub fn pretty_bare(&self) -> (r: String)
        ensures
            r@ == join_plus(self.rolls@),
    {
        let mut s = String::new();
        let mut i: usize = 0;
        while i < self.rolls.len()
            invariant
                i <= self.rolls@.len(),
                s@ == join_plus(self.rolls@.take(i as int)),
            decreases self.rolls@.len() - i,
        {
            if i > 0 {
                s.append(" + ");
            }
            let d = u128_to_string(self.rolls[i] as u128);
            s.append(d.as_str());
            proof {
                reveal_strlit(" + ");
                assert(" + "@ =~= sep_plus());
                assert(self.rolls@.take(i + 1).drop_last() =~= self.rolls@.take(i as int));
                assert(s@ =~= join_plus(self.rolls@.take(i + 1)));
            }
            i = i + 1;
        }
        proof {
            assert(self.rolls@.take(self.rolls@.len() as int) =~= self.rolls@);
        }
        s
    }

    /// This result's verbose line: its token text, total, and values.
    pub fn pretty(&self) -> (r: String)
        requires
            self.wf(),
        ensures
            r@ == pretty_spec(*self),
    {
        let mut s = self.desc.clone();
        s.append(": ");
        let t = self.total();
        let ts = u128_to_string(t as u128);
        s.append(ts.as_str());
        s.append(" = ");
        let b = self.pretty_bare();
        s.append(b.as_str());
        proof {
            reveal_strlit(": ");
            reveal_strlit(" = ");
            assert(": "@ =~= seq![':', ' ']);
            assert(" = "@ =~= seq![' ', '=', ' ']);
            assert(s@ =~= pretty_spec(*self));
        }
        s
    }
}

/// The sum of all results' totals, exactly.
fn grand_total_exec(results: &Vec<Roll>) -> (r: u128)
    requires
        forall|i: int| 0 <= i < results@.len() ==> (#[trigger] results@[i]).wf(),
    ensures
        r as nat == grand_total(results@),
{
    let mut acc: u128 = 0;
    let mut i: usize = 0;
    while i < results.len()
        invariant
            i <= results@.len(),
            forall|m: int| 0 <= m < results@.len() ==> (#[trigger] results@[m]).wf(),
            acc as nat == grand_total(results@.take(i as int)),
            acc as nat <= (i as nat) * 0xffff_fffe_0000_0001,
        decreases results@.len() - i,
    {
        let t = results[i].total();
        proof {
            assert(results@.take(i + 1).drop_last() =~= results@.take(i as int));
            assert(results@.take(i + 1).last() == results@[i as int]);
            lemma_sum_of_bound(results@[i as int].rolls@);
            lemma_mul_inequality(
                results@[i as int].rolls@.len() as int,
                u32::MAX as int,
                u32::MAX as int,
            );
            assert((u32::MAX as int) * (u32::MAX as int) == 0xffff_fffe_0000_0001);
            assert(t as nat <= 0xffff_fffe_0000_0001);
            assert(i + 1 <= 0x1_0000_0000_0000_0000) by {
                assert(usize::MAX <= 0xffff_ffff_ffff_ffff);
            }
            lemma_mul_inequality(i as int + 1, 0x1_0000_0000_0000_0000, 0xffff_fffe_0000_0001);
        }
        acc = acc + (t as u128);
        i = i + 1;
    }
    proof {
        assert(results@.take(results@.len() as int) =~= results@);
    }
    acc
}

/// Renders the results under the requested mode; the output is a function of
/// the results and the mode alone.
pub fn format_results(results: &Vec<Roll>, mode: DisplayMode) -> (r: String)
    requires
        forall|i: int| 0 <= i < results@.len() ==> (#[trigger] results@[i]).wf(),
    ensures
        r@ == format_spec(results@, mode),
{
    if mode.summed {
        let grand = grand_total_exec(results);
        let mut out = u128_to_string(grand);
        if mode.terse {
            return out;
        }
        out.append("\n= (");
        proof {
            reveal_strlit("\n= (");
            assert("\n= ("@ =~= seq!['\n', '=', ' ', '(']);
            assert(out@ =~= dec_str(grand_total(results@)) + seq!['\n', '=', ' ', '('] + bare_join(
                results@.take(0int),
            ));
        }
        let mut i: usize = 0;
        while i < results.len()
            invariant
                i <= results@.len(),
                forall|m: int| 0 <= m < results@.len() ==> (#[trigger] results@[m]).wf(),
                out@ == dec_str(grand_total(results@)) + seq!['\n', '=', ' ', '('] + bare_join(
                    results@.take(i as int),
                ),
            decreases results@.len() - i,
        {
            if i > 0 {
                out.append(")\n+ (");
            }
            let b = results[i].pretty_bare();
            out.append(b.as_str());
            proof {
                reveal_strlit(")\n+ (");
                assert(")\n+ ("@ =~= seq![')', '\n', '+', ' ', '(']);
                assert(results@.take(i + 1).drop_last() =~= results@.take(i as int));
                assert(results@.take(i + 1).last() == results@[i as int]);
                assert(out@ =~= dec_str(grand_total(results@)) + seq!['\n', '=', ' ', '(']
                    + bare_join(results@.take(i + 1)));
            }
            i = i + 1;
        }
        out.append(")");
        proof {
            reveal_strlit("\n= (");
            reveal_strlit(")");
            assert("\n= ("@ =~= seq!['\n', '=', ' ', '(']);
            assert(")"@ =~= seq![')']);
            assert(results@.take(results@.len() as int) =~= results@);
            assert(out@ =~= format_spec(results@, mode));
        }
        out
    } else {
        let mut out = String::new();
        let mut i: usize = 0;
        while i < results.len()
            invariant
                i <= results@.len(),
                forall|m: int| 0 <= m < results@.len() ==> (#[trigger] results@[m]).wf(),
                mode.terse ==> out@ == terse_lines(results@.take(i as int)),
                !mode.terse ==> out@ == pretty_lines(results@.take(i as int)),
            decreases results@.len() - i,
        {
            if i > 0 {
                out.append("\n");
            }
            if mode.terse {
                let t = results[i].total();
                let ts = u128_to_string(t as u128);
                out.append(ts.as_str());
            } else {
                let p = results[i].pretty();
                out.append(p.as_str());
            }
            proof {
                reveal_strlit("\n");
                assert("\n"@ =~= seq!['\n']);
                assert(results@.take(i + 1).drop_last() =~= results@.take(i as int));
                assert(results@.take(i + 1).last() == results@[i as int]);
                if mode.terse {
                    assert(out@ =~= terse_lines(results@.take(i + 1)));
                } else {
                    assert(out@ =~= pretty_lines(results@.take(i + 1)));
                }
            }
            i = i + 1;
        }
        proof {
            assert(results@.take(results@.len() as int) =~= results@);
        }
        out
    }
}

} // verus!
