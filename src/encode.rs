//! Writing the device tree back as a document of the shape it was read from.
use vstd::prelude::*;
use crate::decode::{
    decode_device, decode_document, decode_list, lemma_lookup_decreases, mount_member, Failure,
};
use crate::device::{view_devices, lemma_view_devices, BlockDevice, BlockDevices, Device};
use crate::json::{
    lookup, lemma_lookup_absent, lemma_lookup_first, view_items, view_members, Json, JsonValue,
    Member,
};
use crate::mountpoint::{mount_slots, mounts_view, normalize_mounts, slot_view};
use crate::text::owned;

verus! {

/// The document value of one mount slot.
pub open spec fn slot_json(x: Option<Seq<char>>) -> Json {
    match x {
        Some(p) => Json::Str(p),
        None => Json::Null,
    }
}

pub open spec fn encode_slots(m: Seq<Option<Seq<char>>>) -> Seq<Json> {
    m.map_values(|x: Option<Seq<char>>| slot_json(x))
}

/// The members that every device record has, in wire order.
pub open spec fn device_members(d: Device) -> Seq<(Seq<char>, Json)> {
    seq![
        ("name"@, Json::Str(d.name)),
        ("maj:min"@, Json::Str(d.maj_min)),
        ("rm"@, Json::Bool(d.rm)),
        ("size"@, Json::Unsigned(d.size)),
        ("ro"@, Json::Bool(d.ro)),
        ("type"@, Json::Str(d.kind)),
        ("mountpoints"@, Json::Array(encode_slots(d.mountpoints))),
    ]
}

/// The record of a device: the size as a byte count, the mountpoints as a
/// list, and a `children` member only when a children list is present.
pub open spec fn encode_device(d: Device) -> Json
    decreases d,
{
    Json::Object(
        match d.children {
            Some(c) => device_members(d).push(("children"@, Json::Array(encode_list(c)))),
            None => device_members(d),
        },
    )
}

pub open spec fn encode_list(s: Seq<Device>) -> Seq<Json>
    decreases s,
{
    if s.len() == 0 {
        Seq::empty()
    } else {
        encode_list(s.drop_last()).push(encode_device(s[s.len() - 1]))
    }
}

/// The document of an inventory.
pub open spec fn encode_document(ds: Seq<Device>) -> Json {
    Json::Object(seq![("blockdevices"@, Json::Array(encode_list(ds)))])
}

/// Every name in the subtree is non-empty.
pub open spec fn named(d: Device) -> bool
    decreases d,
{
    d.name.len() > 0 && match d.children {
        Some(c) => all_named(c),
        None => true,
    }
}

pub open spec fn all_named(s: Seq<Device>) -> bool
    decreases s,
{
    s.len() > 0 ==> (all_named(s.drop_last()) && named(s[s.len() - 1]))
}

proof fn lemma_slots_round_trip(m: Seq<Option<Seq<char>>>)
    ensures
        mount_slots(encode_slots(m)) == Some(m),
    decreases m.len(),
{
    if m.len() == 0 {
        assert(encode_slots(m) =~= Seq::<Json>::empty());
    } else {
        lemma_slots_round_trip(m.drop_last());
        assert(encode_slots(m).drop_last() =~= encode_slots(m.drop_last()));
        assert(m.drop_last().push(m.last()) =~= m);
    }
}

#[verifier::rlimit(60)]
proof fn lemma_device_round_trip(d: Device)
    requires
        named(d),
    ensures
        decode_device(encode_device(d)) == Ok::<Device, Failure>(d),
    decreases d,
{
    reveal_strlit("name");
    reveal_strlit("maj:min");
    reveal_strlit("rm");
    reveal_strlit("size");
    reveal_strlit("ro");
    reveal_strlit("type");
    reveal_strlit("mountpoints");
    reveal_strlit("mountpoint");
    reveal_strlit("children");
    lemma_slots_round_trip(d.mountpoints);
    let ms = match encode_device(d) {
        Json::Object(ms) => ms,
        _ => Seq::empty(),
    };
    let keys = seq!["name"@, "maj:min"@, "rm"@, "size"@, "ro"@, "type"@, "mountpoints"@, "children"@];
    assert forall|i: int, j: int| 0 <= i < j < 8 implies keys[i] != keys[j] by {
        if keys[i] == keys[j] {
            assert(keys[i].len() == keys[j].len());
            assert(keys[i][0] == keys[j][0]);
            assert(keys[i][1] == keys[j][1]);
        }
    }
    assert forall|i: int| 0 <= i < ms.len() implies ms[i].0 == keys[i] by {}
    assert(ms.len() == 7 || ms.len() == 8);
    lemma_lookup_first(ms, "name"@, 0);
    lemma_lookup_first(ms, "maj:min"@, 1);
    lemma_lookup_first(ms, "rm"@, 2);
    lemma_lookup_first(ms, "size"@, 3);
    lemma_lookup_first(ms, "ro"@, 4);
    lemma_lookup_first(ms, "type"@, 5);
    lemma_lookup_first(ms, "mountpoints"@, 6);
    assert(mount_member(ms) == Some(Json::Array(encode_slots(d.mountpoints))));
    match d.children {
        Some(c) => {
            lemma_lookup_first(ms, "children"@, 7);
            lemma_list_round_trip(c);
        },
        None => {
            lemma_lookup_absent(ms, "children"@);
        },
    }
}

proof fn lemma_list_round_trip(s: Seq<Device>)
    requires
        all_named(s),
    ensures
        decode_list(encode_list(s)) == Ok::<Seq<Device>, Failure>(s),
    decreases s,
{
    if s.len() == 0 {
        assert(encode_list(s) =~= Seq::<Json>::empty());
        assert(s =~= Seq::<Device>::empty());
    } else {
        let e = encode_list(s);
        lemma_list_round_trip(s.drop_last());
        lemma_device_round_trip(s[s.len() - 1]);
        assert(e.drop_last() =~= encode_list(s.drop_last()));
        assert(s.drop_last().push(s[s.len() - 1]) =~= s);
        assert(e.len() > 0);
        assert(e[e.len() - 1] == encode_device(s[s.len() - 1]));
        assert(decode_list(e.drop_last()) == Ok::<Seq<Device>, Failure>(s.drop_last()));
        assert(decode_device(e[e.len() - 1]) == Ok::<Device, Failure>(s[s.len() - 1]));
    }
}


proof fn lemma_decoded_named(j: Json)
    ensures
        decode_device(j) matches Ok(d) ==> named(d),
    decreases j,
{
    if let Json::Object(ms) = j {
        if let Some(Json::Array(items)) = lookup(ms, "children"@) {
            lemma_lookup_decreases(ms, "children"@);
            lemma_decoded_list_named(items);
        }
    }
}

proof fn lemma_decoded_list_named(items: Seq<Json>)
    ensures
        decode_list(items) matches Ok(ds) ==> all_named(ds),
    decreases items,
{
    if items.len() > 0 {
        lemma_decoded_list_named(items.drop_last());
        lemma_decoded_named(items[items.len() - 1]);
        if let Ok(ds) = decode_list(items) {
            let prev = decode_list(items.drop_last())->Ok_0;
            assert(ds.drop_last() =~= prev);
        }
    }
}

/// Writing an inventory out and reading it back gives the same inventory,
/// field for field, whenever every device has a name.
pub proof fn lemma_document_round_trip(ds: Seq<Device>)
    requires
        all_named(ds),
    ensures
        decode_document(encode_document(ds)) == Ok::<Seq<Device>, Failure>(ds),
{
    reveal_strlit("blockdevices");
    let ms = seq![("blockdevices"@, Json::Array(encode_list(ds)))];
    lemma_lookup_first(ms, "blockdevices"@, 0);
    lemma_list_round_trip(ds);
}

/// Parse, write out, parse again: the second parse gives exactly what the
/// first one gave.
pub proof fn lemma_parse_write_parse(j: Json)
    requires
        decode_document(j) is Ok,
    ensures
        decode_document(encode_document(decode_document(j)->Ok_0)) == decode_document(j),
{
    if let Json::Object(ms) = j {
        if let Some(Json::Array(items)) = lookup(ms, "blockdevices"@) {
            lemma_decoded_list_named(items);
        }
    }
    lemma_document_round_trip(decode_document(j)->Ok_0);
}

/// Appends a member and says so in terms of values.
fn push_member(ms: &mut Vec<Member>, key: &str, value: JsonValue)
    ensures
        view_members(final(ms)@) == view_members(old(ms)@).push((key@, value@)),
{
    let ghost before = ms@;
    let ghost v = value@;
    ms.push(Member { key: owned(key), value });
    assert(ms@.drop_last() =~= before);
}

fn slots_json(m: &Vec<Option<String>>) -> (r: Vec<JsonValue>)
    ensures
        view_items(r@) == encode_slots(mounts_view(m@)),
{
    let mut r: Vec<JsonValue> = Vec::new();
    let mut i: usize = 0;
    let ghost target = encode_slots(mounts_view(m@));
    assert(view_items(r@) =~= target.take(0));
    while i < m.len()
        invariant
            target == encode_slots(mounts_view(m@)),
            i <= m@.len(),
            view_items(r@) == target.take(i as int),
        decreases m.len() - i,
    {
        let ghost before = r@;
        let item = match &m[i] {
            Some(p) => JsonValue::Str(p.clone()),
            None => JsonValue::Null,
        };
        assert(item@ == slot_json(slot_view(m@[i as int])));
        r.push(item);
        assert(r@.drop_last() =~= before);
        assert(target.take(i + 1) =~= target.take(i as int).push(item@));
        i = i + 1;
    }
    assert(target.take(i as int) =~= target);
    r
}

impl BlockDevice {
    /// The record of this device, with its subtree.
    pub fn to_json(&self) -> (r: JsonValue)
        ensures
            r@ == encode_device(self@),
        decreases self,
    {
        let mut ms: Vec<Member> = Vec::new();
        push_member(&mut ms, "name", JsonValue::Str(self.name.clone()));
        push_member(&mut ms, "maj:min", JsonValue::Str(self.maj_min.clone()));
        push_member(&mut ms, "rm", JsonValue::Bool(self.rm));
        push_member(&mut ms, "size", JsonValue::Unsigned(self.size));
        push_member(&mut ms, "ro", JsonValue::Bool(self.ro));
        push_member(&mut ms, "type", JsonValue::Str(self.device_type.label()));
        push_member(&mut ms, "mountpoints", JsonValue::Array(slots_json(&self.mountpoints)));
        assert(view_members(ms@) =~= device_members(self@));
        match &self.children {
            Some(c) => {
                proof {
                    let ch = self.children;
                    assert(decreases_to!(self => ch));
                    assert(decreases_to!(ch => ch->0));
                }
                push_member(&mut ms, "children", JsonValue::Array(BlockDevice::list_to_json(c)));
            },
            None => {},
        }
        JsonValue::Object(ms)
    }

    /// The records of a list of devices, in order.
    pub fn list_to_json(v: &Vec<BlockDevice>) -> (r: Vec<JsonValue>)
        ensures
            view_items(r@) == encode_list(view_devices(v@)),
        decreases v,
    {
        let ghost s = view_devices(v@);
        proof {
            lemma_view_devices(v@);
            assert(s.take(0) =~= Seq::<Device>::empty());
            assert(view_items(Seq::<JsonValue>::empty()) =~= Seq::<Json>::empty());
        }
        let mut r: Vec<JsonValue> = Vec::new();
        let mut i: usize = 0;
        while i < v.len()
            invariant
                s == view_devices(v@),
                s.len() == v@.len(),
                forall|k: int| 0 <= k < v@.len() ==> #[trigger] s[k] == v@[k]@,
                i <= v@.len(),
                view_items(r@) == encode_list(s.take(i as int)),
            decreases v.len() - i,
        {
            let ghost before = r@;
            assert(decreases_to!(*v => v[i as int]));
            let item = v[i].to_json();
            r.push(item);
            assert(r@.drop_last() =~= before);
            assert(s.take(i + 1).drop_last() =~= s.take(i as int));
            assert(s.take(i + 1)[i as int] == v@[i as int]@);
            i = i + 1;
        }
        assert(s.take(i as int) =~= s);
        r
    }
}

impl BlockDevices {
    /// The document of this inventory, of the shape it is read from.
    pub fn to_json(&self) -> (r: JsonValue)
        ensures
            r@ == encode_document(self@),
    {
        let mut ms: Vec<Member> = Vec::new();
        push_member(
            &mut ms,
            "blockdevices",
            JsonValue::Array(BlockDevice::list_to_json(&self.blockdevices)),
        );
        assert(view_members(ms@) =~= seq![
            ("blockdevices"@, Json::Array(encode_list(self@))),
        ]);
        JsonValue::Object(ms)
    }
}

} // verus!
