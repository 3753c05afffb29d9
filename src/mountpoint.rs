//! The mountpoint normalizer: one nullable path, or a list of them, becomes
//! an ordered list of optional paths.
use vstd::prelude::*;
use crate::json::{Json, JsonValue, view_items, lemma_view_items};

verus! {

/// The slot that one nullable path gives: `null` is an empty slot.
pub open spec fn mount_slot(j: Json) -> Option<Option<Seq<char>>> {
    match j {
        Json::Null => Some(None),
        Json::Str(s) => Some(Some(s)),
        _ => None,
    }
}

/// The slots of a list, element by element; `None` if any element is
/// neither `null` nor a string.
pub open spec fn mount_slots(items: Seq<Json>) -> Option<Seq<Option<Seq<char>>>>
    decreases items.len(),
{
    if items.len() == 0 {
        Some(Seq::empty())
    } else {
        match (mount_slots(items.drop_last()), mount_slot(items.last())) {
            (Some(v), Some(x)) => Some(v.push(x)),
            _ => None,
        }
    }
}

/// The normalized mountpoint list of a device record: an absent field gives
/// no slot, a single value gives one, a list gives one per element.
pub open spec fn normalize_mounts(field: Option<Json>) -> Option<Seq<Option<Seq<char>>>> {
    match field {
        None => Some(Seq::empty()),
        Some(Json::Array(items)) => mount_slots(items),
        Some(j) => match mount_slot(j) {
            Some(x) => Some(seq![x]),
            None => None,
        },
    }
}

/// The value of a list of optional paths.
pub open spec fn mounts_view(v: Seq<Option<String>>) -> Seq<Option<Seq<char>>> {
    v.map_values(|m: Option<String>| slot_view(m))
}

pub open spec fn slot_view(m: Option<String>) -> Option<Seq<char>> {
    match m {
        Some(s) => Some(s@),
        None => None,
    }
}

/// A single value and the one-element list that holds it normalize alike.
pub proof fn lemma_single_is_one_element_list(j: Json)
    requires
        !(j is Array),
    ensures
        normalize_mounts(Some(j)) == normalize_mounts(Some(Json::Array(seq![j]))),
{
    let items = seq![j];
    assert(items.drop_last() =~= Seq::<Json>::empty());
    assert(items.last() == j);
    assert(mount_slots(Seq::<Json>::empty()) == Some(Seq::<Option<Seq<char>>>::empty()));
    if mount_slot(j) is Some {
        assert(Seq::<Option<Seq<char>>>::empty().push(mount_slot(j)->0) =~= seq![
            mount_slot(j)->0,
        ]);
    }
}

fn slot_of(j: &JsonValue) -> (r: Option<Option<String>>)
    ensures
        match mount_slot(j@) {
            None => r is None,
            Some(x) => r matches Some(m) && slot_view(m) == x,
        },
{
    match j {
        JsonValue::Null => Some(None),
        JsonValue::Str(s) => Some(Some(s.clone())),
        _ => None,
    }
}

/// Normalizes the mountpoint field of a device record, absent or present.
///
/// Returns `None` when the field is present but neither a nullable string
/// nor a list of them.
pub fn normalize_mountpoints(field: Option<&JsonValue>) -> (r: Option<Vec<Option<String>>>)
    ensures
        match normalize_mounts(
            match field {
                Some(j) => Some(j@),
                None => None,
            },
        ) {
            None => r is None,
            Some(m) => r matches Some(v) && mounts_view(v@) == m,
        },
{
    match field {
        None => {
            let v: Vec<Option<String>> = Vec::new();
            assert(mounts_view(v@) =~= Seq::<Option<Seq<char>>>::empty());
            Some(v)
        },
        Some(JsonValue::Array(items)) => {
            let ghost js = view_items(items@);
            proof {
                lemma_view_items(items@);
            }
            let mut v: Vec<Option<String>> = Vec::new();
            let mut i: usize = 0;
            while i < items.len()
                invariant
                    js == view_items(items@),
                    field matches Some(f) && f@ == Json::Array(js),
                    js.len() == items@.len(),
                    forall|k: int| 0 <= k < items@.len() ==> #[trigger] js[k] == items@[k]@,
                    i <= items@.len(),
                    mount_slots(js.take(i as int)) == Some(mounts_view(v@)),
                decreases items.len() - i,
            {
                let ghost before = v@;
                assert(js.take(i + 1).drop_last() =~= js.take(i as int));
                assert(js.take(i + 1).last() == items@[i as int]@);
                match slot_of(&items[i]) {
                    Some(m) => {
                        v.push(m);
                        assert(mounts_view(v@) =~= mounts_view(before).push(slot_view(m)));
                    },
                    None => {
                        proof {
                            lemma_slots_fail(js, (i + 1) as nat);
                        }
                        return None;
                    },
                }
                i = i + 1;
            }
            assert(js.take(i as int) =~= js);
            Some(v)
        },
        Some(j) => {
            match slot_of(j) {
                Some(m) => {
                    let mut v: Vec<Option<String>> = Vec::new();
                    v.push(m);
                    assert(mounts_view(v@) =~= seq![slot_view(m)]);
                    Some(v)
                },
                None => None,
            }
        },
    }
}

/// Once a prefix of a list fails, the whole list fails.
proof fn lemma_slots_fail(items: Seq<Json>, n: nat)
    requires
        n <= items.len(),
        mount_slots(items.take(n as int)) is None,
    ensures
        mount_slots(items) is None,
    decreases items.len() - n,
{
    if n < items.len() {
        assert(items.take(n + 1 as int).drop_last() =~= items.take(n as int));
        lemma_slots_fail(items, n + 1);
    } else {
        assert(items.take(n as int) =~= items);
    }
}

} // verus!
