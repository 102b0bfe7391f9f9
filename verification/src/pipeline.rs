//! The data-flow contract of a run: the fixed preamble, and the conversion of
//! a sequence of records in arrival order, dropped records leaving no trace.

use vstd::prelude::*;
use crate::convert::{LuteTerm, LuteTermV, AnkiNote, AnkiNoteV, convert, convert_spec, is_dropped};

verus! {

/// The notes yielded by a sequence of records, in the records' order.
pub open spec fn convert_seq(ts: Seq<LuteTermV>) -> Seq<AnkiNoteV> {
    ts.filter_map(|t: LuteTermV| convert_spec(t))
}

/// One more record appends its note, or nothing, to the converted sequence.
pub proof fn lemma_convert_seq_push(ts: Seq<LuteTermV>, t: LuteTermV)
    ensures
        convert_seq(ts.push(t)) == match convert_spec(t) {
            Option::Some(n) => convert_seq(ts) + seq![n],
            Option::None => convert_seq(ts),
        },
{
    assert(ts.push(t).drop_last() =~= ts);
    assert(ts.push(t).last() == t);
}

/// How many of the records a drop rule excludes.
pub open spec fn count_dropped(ts: Seq<LuteTermV>) -> int
    decreases ts.len(),
{
    if ts.len() == 0 {
        0
    } else {
        count_dropped(ts.drop_last()) + if is_dropped(ts.last()) {
            1int
        } else {
            0int
        }
    }
}

/// Of `N` records of which a drop rule excludes `K`, the conversion yields
/// exactly `N - K` notes, in the records' order.
pub proof fn lemma_convert_seq_count(ts: Seq<LuteTermV>)
    ensures
        convert_seq(ts).len() + count_dropped(ts) == ts.len(),
    decreases ts.len(),
{
    if ts.len() > 0 {
        lemma_convert_seq_count(ts.drop_last());
        lemma_convert_seq_push(ts.drop_last(), ts.last());
        assert(ts.drop_last().push(ts.last()) =~= ts);
    }
}

/// Converts records in arrival order; a record that yields no note leaves no
/// trace in the output.
pub fn convert_all(records: Vec<LuteTerm>) -> (r: Vec<AnkiNote>)
    ensures
        r.deep_view() == convert_seq(records.deep_view()),
{
    let ghost orig = records.deep_view();
    let mut records = records;
    let mut out: Vec<AnkiNote> = Vec::new();
    let ghost mut done: int = 0;
    proof {
        assert(records.deep_view() =~= orig.skip(0));
        assert(orig.take(0) =~= Seq::<LuteTermV>::empty());
        assert(out.deep_view() =~= convert_seq(orig.take(0)));
    }
    while records.len() > 0
        invariant
            0 <= done <= orig.len(),
            records.deep_view() == orig.skip(done),
            out.deep_view() == convert_seq(orig.take(done)),
        decreases records.len(),
    {
        let ghost old_records = records.deep_view();
        let ghost old_out = out.deep_view();
        let lt = records.remove(0);
        proof {
            assert(lt@ == old_records[0]);
            assert(old_records.len() > 0);
            assert(orig.skip(done) =~= orig.subrange(done, orig.len() as int));
            assert(orig.subrange(done, orig.len() as int)[0] == orig[done]);
            assert(old_records[0] == orig[done]);
            assert(records.deep_view() =~= old_records.remove(0));
            assert(old_records.remove(0) =~= orig.skip(done + 1));
            assert(orig.take(done + 1) =~= orig.take(done).push(orig[done]));
            lemma_convert_seq_push(orig.take(done), orig[done]);
        }
        match convert(lt) {
            Option::Some(note) => {
                out.push(note);
                proof {
                    assert(out.deep_view() =~= old_out.push(note@));
                    assert(old_out.push(note@) =~= old_out + seq![note@]);
                }
            },
            Option::None => {},
        }
        proof {
            done = done + 1;
        }
    }
    proof {
        assert(orig.take(done) =~= orig);
    }
    out
}

/// The six fixed preamble lines a run emits before any note: format metadata
/// for the flashcard import.
pub fn preamble_lines() -> (r: Vec<&'static str>)
    ensures
        r@.len() == 6,
        r@[0]@ == "#separator: Comma"@,
        r@[1]@ == "#html: false"@,
        r@[2]@ == "#columns: Front,Back,Tags,Deck"@,
        r@[3]@ == "#notetype: Basic (and reversed card)"@,
        r@[4]@ == "#deck column: 4"@,
        r@[5]@ == "#tags column: 3"@,
{
    let mut v: Vec<&'static str> = Vec::new();
    v.push("#separator: Comma");
    v.push("#html: false");
    v.push("#columns: Front,Back,Tags,Deck");
    v.push("#notetype: Basic (and reversed card)");
    v.push("#deck column: 4");
    v.push("#tags column: 3");
    v
}

} // verus!
