//! Per-group counts behind the fairness audit: how many rows of a group
//! there are, how many the model got right, and the confusion counts that
//! each rate is divided from.
use vstd::prelude::*;

use crate::text::{chars_of, split_char, split_on, string_from_chars, strip_prefix, strip_prefix_spec, eq_str};

verus! {

/// One audited example: its group, its true label and the model's
/// prediction.
#[derive(Clone, Copy, Debug, PartialEq, Eq)]
pub struct PredictionRow {
    pub group: char,
    pub label: bool,
    pub predicted: bool,
}

/// The counts of one group.
#[derive(Clone, Copy, Debug, PartialEq, Eq)]
pub struct GroupCounts {
    pub count: usize,
    pub correct: usize,
    pub predicted_positive: usize,
    pub positives: usize,
    pub negatives: usize,
    pub true_positives: usize,
    pub false_positives: usize,
}

/// How many rows of `group` satisfy `keep`.
pub open spec fn count_rows(rows: Seq<PredictionRow>, group: char, keep: spec_fn(PredictionRow) -> bool) -> nat
    decreases rows.len(),
{
    if rows.len() == 0 {
        0
    } else {
        count_rows(rows.drop_last(), group, keep) + if rows.last().group == group && keep(
            rows.last(),
        ) {
            1nat
        } else {
            0nat
        }
    }
}

/// The counts of `group` among `rows`, or an error when the group has no
/// rows.
pub fn group_counts(rows: &[PredictionRow], group: char) -> (r: Result<GroupCounts, &'static str>)
    ensures
        count_rows(rows@, group, |x: PredictionRow| true) == 0 ==> r == Err::<GroupCounts, &'static str>(
            "group has no rows",
        ),
        count_rows(rows@, group, |x: PredictionRow| true) > 0 ==> (r matches Ok(g) && {
            &&& g.count == count_rows(rows@, group, |x: PredictionRow| true)
            &&& g.correct == count_rows(rows@, group, |x: PredictionRow| x.predicted == x.label)
            &&& g.predicted_positive == count_rows(rows@, group, |x: PredictionRow| x.predicted)
            &&& g.positives == count_rows(rows@, group, |x: PredictionRow| x.label)
            &&& g.negatives == count_rows(rows@, group, |x: PredictionRow| !x.label)
            &&& g.true_positives == count_rows(rows@, group, |x: PredictionRow| x.predicted && x.label)
            &&& g.false_positives == count_rows(rows@, group, |x: PredictionRow| x.predicted && !x.label)
        }),
{
    let ghost all = |x: PredictionRow| true;
    let ghost right = |x: PredictionRow| x.predicted == x.label;
    let ghost pp = |x: PredictionRow| x.predicted;
    let ghost pos = |x: PredictionRow| x.label;
    let ghost neg = |x: PredictionRow| !x.label;
    let ghost tp = |x: PredictionRow| x.predicted && x.label;
    let ghost fp = |x: PredictionRow| x.predicted && !x.label;
    let mut g = GroupCounts {
        count: 0,
        correct: 0,
        predicted_positive: 0,
        positives: 0,
        negatives: 0,
        true_positives: 0,
        false_positives: 0,
    };
    let mut i: usize = 0;
    while i < rows.len()
        invariant
            i <= rows@.len(),
            all == (|x: PredictionRow| true),
            right == (|x: PredictionRow| x.predicted == x.label),
            pp == (|x: PredictionRow| x.predicted),
            pos == (|x: PredictionRow| x.label),
            neg == (|x: PredictionRow| !x.label),
            tp == (|x: PredictionRow| x.predicted && x.label),
            fp == (|x: PredictionRow| x.predicted && !x.label),
            g.count == count_rows(rows@.take(i as int), group, all),
            g.correct == count_rows(rows@.take(i as int), group, right),
            g.predicted_positive == count_rows(rows@.take(i as int), group, pp),
            g.positives == count_rows(rows@.take(i as int), group, pos),
            g.negatives == count_rows(rows@.take(i as int), group, neg),
            g.true_positives == count_rows(rows@.take(i as int), group, tp),
            g.false_positives == count_rows(rows@.take(i as int), group, fp),
            g.correct <= g.count && g.predicted_positive <= g.count && g.positives <= g.count
                && g.negatives <= g.count && g.true_positives <= g.count && g.false_positives <= g.count,
            g.count <= i,
        decreases rows.len() - i,
    {
        let row = rows[i];
        assert(rows@.take(i + 1).drop_last() =~= rows@.take(i as int));
        assert(rows@.take(i + 1).last() == row);
        if row.group == group {
            g.count += 1;
            if row.predicted == row.label {
                g.correct += 1;
            }
            if row.predicted {
                g.predicted_positive += 1;
            }
            if row.label {
                g.positives += 1;
            } else {
                g.negatives += 1;
            }
            if row.predicted && row.label {
                g.true_positives += 1;
            }
            if row.predicted && !row.label {
                g.false_positives += 1;
            }
        }
        i += 1;
    }
    assert(rows@.take(rows@.len() as int) =~= rows@);
    if g.count == 0 {
        return Err("group has no rows");
    }
    Ok(g)
}

/// The text of feature `index` (0 or 1) of an audit input of the form
/// `schema=1,f0=<number>,f1=<number>`, or why the input is refused.
pub open spec fn feature_text_spec(text: Seq<char>, index: int) -> Result<Seq<char>, &'static str> {
    let fields = split_on(text, ',');
    if fields.len() != 3 || fields[0] != "schema=1"@ {
        Err("expected schema=1,f0=<number>,f1=<number>")
    } else if index == 0 {
        match strip_prefix_spec(fields[1], "f0="@) {
            None => Err("missing f0"),
            Some(t) => Ok(t),
        }
    } else {
        match strip_prefix_spec(fields[2], "f1="@) {
            None => Err("missing f1"),
            Some(t) => Ok(t),
        }
    }
}

/// Checks the shape of an audit input and returns the text of feature
/// `index`; the caller reads it as a number (reading feature 0 before it
/// asks for feature 1, as the format's errors are ordered).
pub fn feature_text(text: &str, index: usize) -> (r: Result<String, &'static str>)
    requires
        index <= 1,
    ensures
        match r {
            Ok(t) => feature_text_spec(text@, index as int) == Ok::<Seq<char>, &'static str>(t@),
            Err(e) => feature_text_spec(text@, index as int) == Err::<Seq<char>, &'static str>(e),
        },
{
    let cs = chars_of(text);
    let fields = split_char(&cs, ',');
    if fields.len() != 3 || !eq_str(&fields[0], "schema=1") {
        proof {
            if fields@.len() == 3 {
                assert(fields@[0]@ == split_on(text@, ',')[0]);
            }
        }
        return Err("expected schema=1,f0=<number>,f1=<number>");
    }
    assert(fields@[0]@ == split_on(text@, ',')[0]);
    assert(fields@[1]@ == split_on(text@, ',')[1]);
    assert(fields@[2]@ == split_on(text@, ',')[2]);
    if index == 0 {
        match strip_prefix(&fields[1], "f0=") {
            None => Err("missing f0"),
            Some(t) => Ok(string_from_chars(&t)),
        }
    } else {
        match strip_prefix(&fields[2], "f1=") {
            None => Err("missing f1"),
            Some(t) => Ok(string_from_chars(&t)),
        }
    }
}

} // verus!
