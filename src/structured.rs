use vstd::prelude::*;
use crate::message_id::{id_views, legacy_id_of, parse_message_id, MessageId};

verus! {

/// A parsed message body: a tree of mappings, sequences, strings and other
/// scalars (numbers, booleans, null), or a body that did not parse.
pub enum StructuredValue {
    Text(String),
    Sequence(Vec<StructuredValue>),
    Mapping(Vec<(String, StructuredValue)>),
    Other,
}

/// The identifier that a string denotes, as a sequence of zero or one views.
pub open spec fn id_in_text(text: Seq<char>) -> Seq<(bool, Seq<u8>)> {
    match legacy_id_of(text) {
        Some(id) => seq![id],
        None => seq![],
    }
}

/// The references found in a value, in depth-first order: every string at
/// any depth that decodes as an identifier.
pub open spec fn refs_in(v: StructuredValue) -> Seq<(bool, Seq<u8>)>
    decreases v, 0int,
{
    match v {
        StructuredValue::Text(s) => id_in_text(s@),
        StructuredValue::Sequence(items) => refs_in_items(items, items.len() as int),
        StructuredValue::Mapping(entries) => refs_in_entries(entries, entries.len() as int),
        StructuredValue::Other => seq![],
    }
}

/// The references in the first `n` elements of a sequence.
pub open spec fn refs_in_items(items: Vec<StructuredValue>, n: int) -> Seq<(bool, Seq<u8>)>
    decreases items, n,
{
    if n <= 0 || n > items.len() {
        seq![]
    } else {
        refs_in_items(items, n - 1) + refs_in(items[n - 1])
    }
}

/// The references in the values of the first `n` entries of a mapping; keys
/// are never scanned.
pub open spec fn refs_in_entries(entries: Vec<(String, StructuredValue)>, n: int) -> Seq<(bool, Seq<u8>)>
    decreases entries, n,
{
    if n <= 0 || n > entries.len() {
        seq![]
    } else {
        refs_in_entries(entries, n - 1) + refs_in(entries[n - 1].1)
    }
}

/// Appends the references in `v` to `out`.
fn find_all_links(v: &StructuredValue, out: &mut Vec<MessageId>)
    ensures
        id_views(final(out)@) == id_views(old(out)@) + refs_in(*v),
    decreases v,
{
    match v {
        StructuredValue::Text(s) => {
            match parse_message_id(s.as_str()) {
                Some(id) => {
                    out.push(id);
                    assert(id_views(out@) =~= id_views(old(out)@) + refs_in(*v));
                },
                None => {
                    assert(id_views(out@) =~= id_views(old(out)@) + refs_in(*v));
                },
            }
        },
        StructuredValue::Sequence(items) => {
            let mut i: usize = 0;
            while i < items.len()
                invariant
                    i <= items.len(),
                    *v == StructuredValue::Sequence(*items),
                    id_views(out@) == id_views(old(out)@) + refs_in_items(*items, i as int),
                decreases items.len() - i,
            {
                assert(decreases_to!(*v => (*v)->Sequence_0));
                assert(decreases_to!(*items => items[i as int]));
                assert(decreases_to!(*v => items[i as int]));
                find_all_links(&items[i], out);
                assert(refs_in_items(*items, i + 1) == refs_in_items(*items, i as int) + refs_in(items@[i as int]));
                i = i + 1;
            }
        },
        StructuredValue::Mapping(entries) => {
            let mut i: usize = 0;
            while i < entries.len()
                invariant
                    i <= entries.len(),
                    *v == StructuredValue::Mapping(*entries),
                    id_views(out@) == id_views(old(out)@) + refs_in_entries(*entries, i as int),
                decreases entries.len() - i,
            {
                assert(decreases_to!(*v => (*v)->Mapping_0));
                assert(decreases_to!(*entries => entries[i as int]));
                assert(decreases_to!(entries[i as int] => entries[i as int].1));
                assert(decreases_to!(*v => entries[i as int].1));
                find_all_links(&entries[i].1, out);
                assert(refs_in_entries(*entries, i + 1) == refs_in_entries(*entries, i as int) + refs_in(entries@[i as int].1));
                i = i + 1;
            }
        },
        StructuredValue::Other => {
            assert(id_views(out@) =~= id_views(old(out)@) + refs_in(*v));
        },
    }
}

/// Every identifier written as a string anywhere in the value, in
/// depth-first order, duplicates kept.
pub fn extract_references(v: &StructuredValue) -> (r: Vec<MessageId>)
    ensures
        id_views(r@) == refs_in(*v),
{
    let mut out: Vec<MessageId> = Vec::new();
    find_all_links(v, &mut out);
    assert(id_views(Seq::<MessageId>::empty()) + refs_in(*v) =~= refs_in(*v));
    out
}

/// Extraction depends on the value alone: two results of it on one value
/// hold the same identifiers, as often each.
pub proof fn lemma_extraction_repeatable(v: StructuredValue, first: Seq<MessageId>, second: Seq<MessageId>)
    requires
        id_views(first) == refs_in(v),
        id_views(second) == refs_in(v),
    ensures
        id_views(first).to_multiset() == id_views(second).to_multiset(),
{
}

} // verus!
