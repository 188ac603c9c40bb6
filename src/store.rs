use vstd::prelude::*;

verus! {

/// Model of a session's message list in the store: raw lines, newest first.
/// These describe the list commands that the service issues.
/// The list after pushing `values` to its front one by one, so that the last
/// value pushed becomes the newest.
pub open spec fn push_front_spec(list: Seq<Seq<char>>, values: Seq<Seq<char>>) -> Seq<Seq<char>>
    decreases values.len(),
{
    if values.len() == 0 {
        list
    } else {
        seq![values.last()] + push_front_spec(list, values.drop_last())
    }
}

/// The lines at indices `0..=stop` of the list (the inclusive range read),
/// or all of them when the list is shorter.
pub open spec fn range_from_head(list: Seq<Seq<char>>, stop: int) -> Seq<Seq<char>> {
    if stop + 1 < list.len() {
        list.take(stop + 1)
    } else {
        list
    }
}

/// The list trimmed to the lines from index `keep_from` onward.
pub open spec fn trim_from(list: Seq<Seq<char>>, keep_from: int) -> Seq<Seq<char>> {
    if keep_from < list.len() {
        list.skip(keep_from)
    } else {
        Seq::empty()
    }
}

/// The list of a session that starts empty and receives `batches` in turn.
pub open spec fn after_batches(batches: Seq<Seq<Seq<char>>>) -> Seq<Seq<char>>
    decreases batches.len(),
{
    if batches.len() == 0 {
        Seq::empty()
    } else {
        push_front_spec(after_batches(batches.drop_last()), batches.last())
    }
}

/// The store with the entries of `keys` removed; absent keys are skipped.
pub open spec fn remove_keys<V>(store: Map<Seq<char>, V>, keys: Seq<Seq<char>>) -> Map<Seq<char>, V> {
    store.remove_keys(keys.to_set())
}

} // verus!
