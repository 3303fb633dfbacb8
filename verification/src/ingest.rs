use vstd::prelude::*;

use crate::model::{AccessInfo, AccessRec};
use crate::read_logs::{parse_line, read_access_info_from_line, record_of};
use crate::store::{insert_batch, recs_of, Store};

verus! {

// ---------------------------------------------------------------------------
// The ingestion cycle: the queue's drained elements come in as plain
// lines, the extractor turns them into records, and the store
// persists the batch.  The queue transport itself lives outside this
// crate; a transport error simply means no lines reach these
// functions this cycle.
// ---------------------------------------------------------------------------

/// The records a sequence of lines yields, in order; lines that match
/// nothing are dropped.
pub open spec fn extracted(lines: Seq<Seq<char>>) -> Seq<AccessRec>
    decreases lines.len(),
{
    if lines.len() == 0 {
        Seq::empty()
    } else {
        let prev = extracted(lines.drop_last());
        match parse_line(lines.last()) {
            Some(parts) => prev.push(record_of(parts)),
            None => prev,
        }
    }
}

/// Draining from nothing yields nothing: an empty pull is an empty
/// batch, never an error.
pub proof fn lemma_empty_drain_empty_batch()
    ensures
        extracted(Seq::<Seq<char>>::empty()) == Seq::<AccessRec>::empty(),
{
}

/// Applies the extractor to every line in order, keeping the records
/// of the lines that match and dropping the rest.
pub fn read_records(lines: &Vec<String>) -> (batch: Vec<AccessInfo>)
    ensures
        recs_of(batch@) == extracted(lines.deep_view()),
        batch@.len() <= lines@.len(),
{
    let ghost lv = lines.deep_view();
    let mut batch: Vec<AccessInfo> = Vec::new();
    let mut i: usize = 0;
    proof {
        assert(lv.subrange(0, 0) =~= Seq::<Seq<char>>::empty());
        assert(recs_of(batch@) =~= extracted(lv.subrange(0, 0)));
    }
    while i < lines.len()
        invariant
            0 <= i <= lines.len(),
            lv == lines.deep_view(),
            lv.len() == lines.len(),
            forall|q: int| 0 <= q < lv.len() ==> lv[q] == lines@[q]@,
            recs_of(batch@) == extracted(lv.subrange(0, i as int)),
            batch@.len() <= i,
        decreases lines.len() - i,
    {
        proof {
            assert(lv.subrange(0, i as int + 1).drop_last() =~= lv.subrange(0, i as int));
            assert(lv.subrange(0, i as int + 1).last() == lv[i as int]);
        }
        match read_access_info_from_line(lines[i].as_str()) {
            Some(info) => {
                let ghost before = recs_of(batch@);
                batch.push(info);
                proof {
                    assert(recs_of(batch@) =~= before.push(info@));
                }
            },
            None => {
            },
        }
        i = i + 1;
    }
    proof {
        assert(lv.subrange(0, lines.len() as int) =~= lv);
    }
    batch
}

/// One ingestion pass: the drained lines become records and the batch
/// lands in the store, insert-or-ignore, in one step.  Returns the
/// number of records attempted; an empty batch changes nothing and is
/// no error.
pub fn consume_lines_and_update_db(store: &mut Store, lines: &Vec<String>) -> (n: usize)
    ensures
        final(store)@ == insert_batch(old(store)@, extracted(lines.deep_view())),
        n == extracted(lines.deep_view()).len(),
{
    let batch = read_records(lines);
    if batch.is_empty() {
        proof {
            assert(extracted(lines.deep_view()).len() == 0);
        }
        0
    } else {
        store.update_database(&batch)
    }
}

} // verus!
