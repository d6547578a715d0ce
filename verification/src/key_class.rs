//! What kind of object a key is of.

use crate::text::{contains_str, contains_text, ends_with_str, ends_with_text};
use vstd::prelude::*;

verus! {

/// The kind of object under the consumer tree that a key is of.
pub open spec fn group_class_of(path: Seq<char>) -> Seq<char> {
    if contains_text(path, "/offsets/"@) || ends_with_text(path, "/offsets.json"@) {
        "group_offsets"@
    } else if contains_text(path, "/members/"@) {
        "group_member"@
    } else if contains_text(path, "/assignment/"@) {
        "group_assignment"@
    } else if ends_with_text(path, "/generation.json"@) {
        "group_generation"@
    } else {
        "group"@
    }
}

/// The kind of object that a key is of.
pub open spec fn class_of(path: Seq<char>) -> Seq<char> {
    if ends_with_text(path, ".seg"@) || contains_text(path, "/segments/"@) || ends_with_text(
        path,
        "/segments"@,
    ) {
        "segment"@
    } else if ends_with_text(path, ".batch"@) || contains_text(path, "/records/"@)
        || ends_with_text(path, "/records"@) {
        "records"@
    } else if ends_with_text(path, "/meta.json"@) {
        "meta"@
    } else if ends_with_text(path, "/watermark.json"@) {
        "watermark"@
    } else if ends_with_text(path, "/seq-floor.json"@) {
        "seq_floor"@
    } else if ends_with_text(path, "/era.json"@) {
        "era"@
    } else if ends_with_text(path, "/lease.json"@) {
        "lease"@
    } else if contains_text(path, "/producers/"@) {
        "producer"@
    } else if contains_text(path, "/groups/"@) {
        group_class_of(path)
    } else if contains_text(path, "/topic-metadata/"@) || contains_text(path, "/topic-ids/"@) {
        "topic_metadata"@
    } else {
        "other"@
    }
}

fn group_class(path: &str) -> (class: &'static str)
    ensures
        class@ == group_class_of(path@),
{
    if contains_str(path, "/offsets/") || ends_with_str(path, "/offsets.json") {
        "group_offsets"
    } else if contains_str(path, "/members/") {
        "group_member"
    } else if contains_str(path, "/assignment/") {
        "group_assignment"
    } else if ends_with_str(path, "/generation.json") {
        "group_generation"
    } else {
        "group"
    }
}

/// What kind of object a key is of. The prefix of a listing is of the kind that it
/// lists.
pub fn key_class(path: &str) -> (class: &'static str)
    ensures
        class@ == class_of(path@),
{
    if ends_with_str(path, ".seg") || contains_str(path, "/segments/") || ends_with_str(
        path,
        "/segments",
    ) {
        "segment"
    } else if ends_with_str(path, ".batch") || contains_str(path, "/records/") || ends_with_str(
        path,
        "/records",
    ) {
        "records"
    } else if ends_with_str(path, "/meta.json") {
        "meta"
    } else if ends_with_str(path, "/watermark.json") {
        "watermark"
    } else if ends_with_str(path, "/seq-floor.json") {
        "seq_floor"
    } else if ends_with_str(path, "/era.json") {
        "era"
    } else if ends_with_str(path, "/lease.json") {
        "lease"
    } else if contains_str(path, "/producers/") {
        "producer"
    } else if contains_str(path, "/groups/") {
        group_class(path)
    } else if contains_str(path, "/topic-metadata/") || contains_str(path, "/topic-ids/") {
        "topic_metadata"
    } else {
        "other"
    }
}

/// Whether an object is written once and never changed: a segment or a batch.
pub open spec fn is_written_once(path: Seq<char>) -> bool {
    ends_with_text(path, ".seg"@) || ends_with_text(path, ".batch"@)
}

/// Whether an object is written once and never changed. Nobody asks whether such a
/// one has changed.
pub fn is_immutable(path: &str) -> (immutable: bool)
    ensures
        immutable == is_written_once(path@),
{
    ends_with_str(path, ".seg") || ends_with_str(path, ".batch")
}

/// What is written once is data.
pub proof fn what_is_written_once_is_data(path: Seq<char>)
    requires
        is_written_once(path),
    ensures
        class_of(path) == "segment"@ || class_of(path) == "records"@,
{
}

/// Whether a key is of data: of a segment or of records.
pub open spec fn is_data(path: Seq<char>) -> bool {
    ||| ends_with_text(path, ".seg"@)
    ||| contains_text(path, "/segments/"@)
    ||| ends_with_text(path, "/segments"@)
    ||| ends_with_text(path, ".batch"@)
    ||| contains_text(path, "/records/"@)
    ||| ends_with_text(path, "/records"@)
}

/// What a key is told by: data by its extension or by where it lies, before all else;
/// then a document by its name; and then an object by the tree that it lies in. What
/// nothing tells is of no class.
pub proof fn what_tells_a_key(path: Seq<char>)
    ensures
        ends_with_text(path, ".seg"@) || contains_text(path, "/segments/"@) ==> class_of(path)
            == "segment"@,
        ends_with_text(path, ".batch"@) && !ends_with_text(path, ".seg"@) && !contains_text(
            path,
            "/segments/"@,
        ) && !ends_with_text(path, "/segments"@) ==> class_of(path) == "records"@,
        is_data(path) ==> class_of(path) == "segment"@ || class_of(path) == "records"@,
        !is_data(path) && ends_with_text(path, "/meta.json"@) ==> class_of(path) == "meta"@,
        !is_data(path) && ends_with_text(path, "/watermark.json"@) ==> class_of(path) == "meta"@
            || class_of(path) == "watermark"@,
        !is_data(path) && !ends_with_text(path, "/meta.json"@) && ends_with_text(
            path,
            "/watermark.json"@,
        ) ==> class_of(path) == "watermark"@,
        !is_data(path) && !is_named_document(path) && contains_text(path, "/producers/"@)
            ==> class_of(path) == "producer"@,
        !is_data(path) && !is_named_document(path) && !contains_text(path, "/producers/"@)
            && contains_text(path, "/groups/"@) ==> class_of(path) == group_class_of(path),
        !is_data(path) && !is_named_document(path) && !contains_text(path, "/producers/"@)
            && !contains_text(path, "/groups/"@) && (contains_text(path, "/topic-metadata/"@)
            || contains_text(path, "/topic-ids/"@)) ==> class_of(path) == "topic_metadata"@,
        !is_data(path) && !is_named_document(path) && !contains_text(path, "/producers/"@)
            && !contains_text(path, "/groups/"@) && !contains_text(path, "/topic-metadata/"@)
            && !contains_text(path, "/topic-ids/"@) ==> class_of(path) == "other"@,
{
}

/// Whether a key is of a document that is told by its name.
pub open spec fn is_named_document(path: Seq<char>) -> bool {
    ||| ends_with_text(path, "/meta.json"@)
    ||| ends_with_text(path, "/watermark.json"@)
    ||| ends_with_text(path, "/seq-floor.json"@)
    ||| ends_with_text(path, "/era.json"@)
    ||| ends_with_text(path, "/lease.json"@)
}

/// What an object of a group is told by: committed offsets by where they lie or by their
/// name, then members and assignments by where they lie, and a generation by its name.
pub proof fn what_tells_an_object_of_a_group(path: Seq<char>)
    ensures
        contains_text(path, "/offsets/"@) || ends_with_text(path, "/offsets.json"@)
            ==> group_class_of(path) == "group_offsets"@,
        ({
            let offsets = contains_text(path, "/offsets/"@) || ends_with_text(
                path,
                "/offsets.json"@,
            );
            let member = contains_text(path, "/members/"@);
            let assignment = contains_text(path, "/assignment/"@);
            let generation = ends_with_text(path, "/generation.json"@);
            &&& !offsets && member ==> group_class_of(path) == "group_member"@
            &&& !offsets && !member && assignment ==> group_class_of(path) == "group_assignment"@
            &&& !offsets && !member && !assignment && generation ==> group_class_of(path)
                == "group_generation"@
            &&& !offsets && !member && !assignment && !generation ==> group_class_of(path)
                == "group"@
        }),
{
}

} // verus!
