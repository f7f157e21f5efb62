//! Serialization of a frequency table to folded-stack text.
//!
//! Each distinct key becomes one line: the raw key bytes, a single space,
//! the decimal count, and a newline. The lines come in the table's stored
//! order; consumers must not depend on any particular order.

use vstd::prelude::*;

use crate::encode::dec_bytes;
use crate::table::{lemma_entries_map_at, lemma_entries_map_dom, CountTable};

verus! {

/// The bytes of one output line: the key, a space, the decimal count, a
/// newline.
pub open spec fn line_of(key: Seq<u8>, count: nat) -> Seq<u8> {
    key + seq![32u8] + dec_bytes(count) + seq![10u8]
}

/// The bytes of a whole table: one line per entry, in entry order.
pub open spec fn lines_bytes(entries: Seq<(Seq<u8>, nat)>) -> Seq<u8>
    decreases entries.len(),
{
    if entries.len() == 0 {
        Seq::<u8>::empty()
    } else {
        lines_bytes(entries.drop_last()) + line_of(entries.last().0, entries.last().1)
    }
}

/// Serializes a table: one `key count` line per distinct key, in stored
/// order.
pub fn table_lines(t: &CountTable) -> (out: Vec<u8>)
    ensures
        out@ == lines_bytes(t.entries_seq()),
{
    let mut out: Vec<u8> = Vec::new();
    let n = t.len();
    let mut i: usize = 0;
    proof {
        assert(t.entries_seq().take(0) =~= Seq::<(Seq<u8>, nat)>::empty());
    }
    while i < n
        invariant
            i <= n,
            n == t.entries_seq().len(),
            out@ == lines_bytes(t.entries_seq().take(i as int)),
        decreases n - i,
    {
        let ghost s = t.entries_seq();
        let entry = t.entry_at(i);
        let mut line = crate::table::copy_bytes(&entry.0);
        line.push(32);
        let mut digits = crate::encode::to_decimal(entry.1);
        line.append(&mut digits);
        line.push(10);
        proof {
            assert(line@ =~= line_of(s[i as int].0, s[i as int].1));
        }
        out.append(&mut line);
        i += 1;
        proof {
            assert(s.take(i as int).drop_last() =~= s.take(i as int - 1));
            assert(s.take(i as int).last() == s[i as int - 1]);
        }
    }
    proof {
        assert(t.entries_seq().take(n as int) =~= t.entries_seq());
    }
    out
}

/// Each key of the table stands in exactly one entry, paired with the
/// table's count for it, and each entry's key is a key of the table: the
/// serialized lines list every `(key, count)` pair of the table once.
pub proof fn lemma_entries_complete(t: CountTable)
    requires
        t.wf(),
    ensures
        forall|i: int| 0 <= i < t.entries_seq().len() ==> t@.contains_key(
            (#[trigger] t.entries_seq()[i]).0,
        ) && t@[t.entries_seq()[i].0] == t.entries_seq()[i].1,
        forall|k: Seq<u8>| t@.contains_key(k) ==> exists|i: int| 0 <= i < t.entries_seq().len()
            && (#[trigger] t.entries_seq()[i]) == (k, t@[k]),
{
    let s = t.entries_seq();
    assert forall|i: int| 0 <= i < s.len() implies t@.contains_key((#[trigger] s[i]).0)
        && t@[s[i].0] == s[i].1 by {
        lemma_entries_map_at(s, i);
    }
    assert forall|k: Seq<u8>| t@.contains_key(k) implies exists|i: int| 0 <= i < s.len()
        && (#[trigger] s[i]) == (k, t@[k]) by {
        lemma_entries_map_dom(s, k);
        let i = choose|i: int| 0 <= i < s.len() && (#[trigger] s[i]).0 == k;
        lemma_entries_map_at(s, i);
        assert(s[i] == (k, t@[k]));
    }
}

} // verus!
