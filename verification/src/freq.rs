//! Frequency tables of feature values: counting, the sort token of a value, and the
//! order in which frequency rows are listed (most frequent first, then by token).

use vstd::prelude::*;
use crate::strs::{dec_nat, lt_chars, str_le, str_lt, lemma_str_le_facts, lemma_str_lt_total, u64_to_chars};
use crate::value::{FValue, FeatureValue};

verus! {

broadcast use vstd::seq_lib::group_to_multiset_ensures, vstd::seq_lib::group_seq_properties;

/// `n` zero characters (none when `n` is not positive).
pub open spec fn zeros(n: int) -> Seq<char> {
    Seq::new(if n > 0 { n as nat } else { 0 }, |i: int| '0')
}

/// An integer rendered with zero padding to a width of twenty characters, sign included.
pub open spec fn padded_int(v: int) -> Seq<char> {
    if v < 0 {
        seq!['-'] + zeros(19 - dec_nat((-v) as nat).len()) + dec_nat((-v) as nat)
    } else {
        zeros(20 - dec_nat(v as nat).len()) + dec_nat(v as nat)
    }
}

/// The token by which feature values are ordered in frequency tables.
pub open spec fn fv_token(v: FValue) -> Seq<char> {
    match v {
        FValue::Str(s) => seq!['s', ':'] + s,
        FValue::Int(i) => seq!['i', ':'] + padded_int(i as int),
    }
}

/// The token of an optional value; a missing value has its own token.
pub open spec fn opt_token(v: Option<FValue>) -> Seq<char> {
    match v {
        Some(x) => fv_token(x),
        None => seq!['n', ':'],
    }
}

/// Row `a` may stand before row `b`: a higher count, or an equal count and a token not after.
pub open spec fn row_le(ca: int, ta: Seq<char>, cb: int, tb: Seq<char>) -> bool {
    ca > cb || (ca == cb && str_le(ta, tb))
}

/// Rows ordered by `row_le` on their count and token.
pub open spec fn rows_sorted<T>(s: Seq<(T, usize, Vec<char>)>) -> bool {
    forall|i: int, j: int|
        0 <= i < j < s.len() ==> row_le(#[trigger] s[i].1 as int, s[i].2@, #[trigger] s[j].1 as int, s[j].2@)
}

proof fn lemma_row_le(ca: int, ta: Seq<char>, cb: int, tb: Seq<char>, cc: int, tc: Seq<char>)
    ensures
        row_le(ca, ta, cb, tb) || row_le(cb, tb, ca, ta),
        row_le(ca, ta, cb, tb) && row_le(cb, tb, cc, tc) ==> row_le(ca, ta, cc, tc),
{
    lemma_str_le_facts(ta, tb, tc);
}

fn push_zeros(out: &mut Vec<char>, n: usize)
    ensures
        final(out)@ == old(out)@ + zeros(n as int),
{
    let ghost o = out@;
    let mut i: usize = 0;
    while i < n
        invariant
            0 <= i <= n,
            out@ == o + zeros(i as int),
        decreases n - i,
    {
        out.push('0');
        i += 1;
        proof {
            assert(out@ =~= o + zeros(i as int));
        }
    }
}

/// The sort token of a value: `s:` and the string, or `i:` and the zero-padded integer.
pub fn sort_token(value: &FeatureValue) -> (r: Vec<char>)
    ensures
        r@ == fv_token(value@),
{
    let mut out: Vec<char> = Vec::new();
    match value {
        FeatureValue::Str(s) => {
            out.push('s');
            out.push(':');
            let cs = crate::strs::to_chars(s.as_str());
            let ghost o = out@;
            let mut i: usize = 0;
            while i < cs.len()
                invariant
                    0 <= i <= cs.len(),
                    out@ == o + cs@.take(i as int),
                decreases cs.len() - i,
            {
                out.push(cs[i]);
                i += 1;
                proof {
                    assert(out@ =~= o + cs@.take(i as int));
                }
            }
            proof {
                assert(cs@.take(cs@.len() as int) =~= cs@);
                assert(out@ =~= seq!['s', ':'] + s@);
            }
        },
        FeatureValue::Int(v) => {
            out.push('i');
            out.push(':');
            let neg = *v < 0;
            let mag: u64 = if neg {
                (0i128 - *v as i128) as u64
            } else {
                *v as u64
            };
            let digits = u64_to_chars(mag);
            let width: usize = if neg { 19 } else { 20 };
            if neg {
                out.push('-');
            }
            let pad: usize = if digits.len() < width { width - digits.len() } else { 0 };
            push_zeros(&mut out, pad);
            let ghost o = out@;
            let mut i: usize = 0;
            while i < digits.len()
                invariant
                    0 <= i <= digits.len(),
                    out@ == o + digits@.take(i as int),
                decreases digits.len() - i,
            {
                out.push(digits[i]);
                i += 1;
                proof {
                    assert(out@ =~= o + digits@.take(i as int));
                }
            }
            proof {
                assert(digits@.take(digits@.len() as int) =~= digits@);
                if neg {
                    assert(mag as int == -(*v as int));
                    assert(zeros(pad as int) =~= zeros(19 - dec_nat(mag as nat).len()));
                    assert(out@ =~= seq!['i', ':'] + padded_int(*v as int));
                } else {
                    assert(zeros(pad as int) =~= zeros(20 - dec_nat(mag as nat).len()));
                    assert(out@ =~= seq!['i', ':'] + padded_int(*v as int));
                }
            }
        },
    }
    out
}

/// The sort token of an optional value.
pub fn opt_sort_token(value: &Option<FeatureValue>) -> (r: Vec<char>)
    ensures
        r@ == opt_token(crate::value::opt_fv(*value)),
{
    match value {
        Some(v) => sort_token(v),
        None => {
            let mut out: Vec<char> = Vec::new();
            out.push('n');
            out.push(':');
            proof {
                assert(out@ =~= seq!['n', ':']);
            }
            out
        },
    }
}

fn row_le_exec(ca: usize, ta: &Vec<char>, cb: usize, tb: &Vec<char>) -> (r: bool)
    ensures
        r == row_le(ca as int, ta@, cb as int, tb@),
{
    proof {
        lemma_str_lt_total(ta@, tb@);
    }
    if ca > cb {
        true
    } else if ca == cb {
        !lt_chars(tb.as_slice(), ta.as_slice())
    } else {
        false
    }
}

/// The rows in frequency order: the same rows, ordered by `row_le`.
pub fn sort_rows<T>(rows: Vec<(T, usize, Vec<char>)>) -> (r: Vec<(T, usize, Vec<char>)>)
    ensures
        r@.to_multiset() == rows@.to_multiset(),
        rows_sorted(r@),
{
    let mut rest = rows;
    let mut out: Vec<(T, usize, Vec<char>)> = Vec::new();
    while rest.len() > 0
        invariant
            out@.to_multiset().add(rest@.to_multiset()) == rows@.to_multiset(),
            rows_sorted(out@),
        decreases rest.len(),
    {
        let ghost rest0 = rest@;
        let x = rest.pop().unwrap();
        proof {
            assert(rest0 == rest@.push(x));
        }
        let mut p: usize = 0;
        while p < out.len() && row_le_exec(out[p].1, &out[p].2, x.1, &x.2)
            invariant
                0 <= p <= out.len(),
                forall|k: int| 0 <= k < p ==> row_le(#[trigger] out@[k].1 as int, out@[k].2@, x.1 as int, x.2@),
            decreases out.len() - p,
        {
            p += 1;
        }
        let ghost out0 = out@;
        proof {
            if p < out0.len() {
                lemma_row_le(out0[p as int].1 as int, out0[p as int].2@, x.1 as int, x.2@, 0, seq![]);
                assert(row_le(x.1 as int, x.2@, out0[p as int].1 as int, out0[p as int].2@));
            }
        }
        out.insert(p, x);
        proof {
            assert(out@ == out0.insert(p as int, x));
            assert forall|i: int, j: int| 0 <= i < j < out@.len() implies row_le(#[trigger] out@[i].1 as int, out@[i].2@, #[trigger] out@[j].1 as int, out@[j].2@) by {
                if i < p && j < p {
                } else if i < p && j == p {
                } else if i < p && j > p {
                    assert(out@[j] == out0[j - 1]);
                } else if i == p {
                    assert(out@[j] == out0[j - 1]);
                    if j - 1 > p {
                        lemma_row_le(x.1 as int, x.2@, out0[p as int].1 as int, out0[p as int].2@, out0[j - 1].1 as int, out0[j - 1].2@);
                    }
                } else {
                    assert(out@[i] == out0[i - 1]);
                    assert(out@[j] == out0[j - 1]);
                }
            }
        }
    }
    out
}

} // verus!
