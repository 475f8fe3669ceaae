//! Sequence records: which lines of a sequence file hold training text.

use crate::token::{lemma_tokens_of_push, tokens_of};
use vstd::prelude::*;
use vstd::string::StrSliceExecFns;

verus! {

/// A line is a sequence record unless it is empty or begins with `>`, the
/// mark of a header.
pub open spec fn is_record(line: Seq<char>) -> bool {
    line.len() > 0 && line[0] != '>'
}

/// [`is_record`] as a predicate value.
pub open spec fn record_pred() -> spec_fn(Seq<char>) -> bool {
    |line: Seq<char>| is_record(line)
}

/// The sequence records among `lines`, in their order.
pub open spec fn records(lines: Seq<Seq<char>>) -> Seq<Seq<char>> {
    lines.filter(record_pred())
}

/// The first `limit` sequence records among `lines`, or all of them where
/// there are fewer.
pub open spec fn first_records(lines: Seq<Seq<char>>, limit: nat) -> Seq<Seq<char>> {
    if records(lines).len() <= limit {
        records(lines)
    } else {
        records(lines).take(limit as int)
    }
}

/// Whether `line` is a sequence record.
pub fn is_sequence_record(line: &str) -> (record: bool)
    ensures
        record == is_record(line@),
{
    !line.is_empty() && line.get_char(0) != '>'
}

/// The first `limit` sequence records among `lines`.
pub fn sequence_records(lines: &Vec<String>, limit: usize) -> (out: Vec<String>)
    ensures
        tokens_of(out@) == first_records(tokens_of(lines@), limit as nat),
{
    let ghost all = tokens_of(lines@);
    let mut out: Vec<String> = Vec::new();
    let mut k: usize = 0;
    proof {
        assert(all.take(0) =~= Seq::<Seq<char>>::empty());
        reveal(Seq::filter);
        assert(tokens_of(out@) =~= records(all.take(0)));
    }
    while k < lines.len() && out.len() < limit
        invariant
            k <= lines.len(),
            all == tokens_of(lines@),
            out@.len() <= limit,
            tokens_of(out@) == records(all.take(k as int)),
        decreases lines.len() - k,
    {
        let ghost so_far = out@;
        proof {
            assert(all.take(k + 1) =~= all.take(k as int).push(all[k as int]));
            all.take(k as int).lemma_filter_push(all[k as int], record_pred());
        }
        if is_sequence_record(lines[k].as_str()) {
            out.push(lines[k].clone());
            proof {
                lemma_tokens_of_push(so_far, lines[k as int]);
            }
        }
        k += 1;
    }
    proof {
        let head = all.take(k as int);
        let tail = all.skip(k as int);
        assert(head + tail =~= all);
        Seq::filter_distributes_over_add(head, tail, record_pred());
        assert(tokens_of(out@).len() == out@.len());
        if k == lines.len() {
            assert(head =~= all);
        } else {
            assert(records(all).take(limit as int) =~= records(head));
        }
    }
    out
}

} // verus!
