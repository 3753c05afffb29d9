//! Building the device tree from a parsed document, all or nothing.
use vstd::prelude::*;
use crate::device::{all_wf, view_devices, BlockDevice, BlockDevices, Device};
use crate::json::{
    get_member, lookup, opt_view, view_items, view_members, lemma_view_items, Json, JsonValue, Member,
};
use crate::kind::DeviceKind;
use crate::mountpoint::{normalize_mounts, normalize_mountpoints};
use crate::size::{number_size, size_from_number, size_from_text, text_size};
use crate::text::owned;

verus! {

/// The field of a device record that a failure is about.
#[derive(Clone, Copy, PartialEq, Eq, Structural, Debug)]
pub enum Field {
    /// The document as a whole.
    Document,
    /// The `blockdevices` list.
    BlockDevices,
    /// A device record, which must be an object.
    Device,
    Name,
    MajMin,
    Removable,
    Size,
    ReadOnly,
    Type,
    Mountpoints,
    Children,
}

/// Why an inventory could not be had.
#[derive(Clone, Debug, PartialEq, Eq)]
pub enum ParseError {
    /// The listing tool could not be run or gave no usable output.
    Acquisition(String),
    /// The listing tool ran and reported failure; its diagnostics, verbatim.
    Upstream(String),
    /// A field is missing or has a shape the record does not allow.
    Structure(Field),
    /// A field has the right shape but a value that cannot be normalized;
    /// the raw value.
    Normalization(Field, String),
}

/// The value of a failure.
pub enum Failure {
    Acquisition(Seq<char>),
    Upstream(Seq<char>),
    Structure(Field),
    Normalization(Field, Seq<char>),
}

impl View for ParseError {
    type V = Failure;

    open spec fn view(&self) -> Failure {
        match self {
            ParseError::Acquisition(s) => Failure::Acquisition(s@),
            ParseError::Upstream(s) => Failure::Upstream(s@),
            ParseError::Structure(f) => Failure::Structure(*f),
            ParseError::Normalization(f, s) => Failure::Normalization(*f, s@),
        }
    }
}

/// A string member.
pub open spec fn text_member(ms: Seq<(Seq<char>, Json)>, key: Seq<char>, f: Field) -> Result<
    Seq<char>,
    Failure,
> {
    match lookup(ms, key) {
        Some(Json::Str(s)) => Ok(s),
        _ => Err(Failure::Structure(f)),
    }
}

/// A boolean member.
pub open spec fn bool_member(ms: Seq<(Seq<char>, Json)>, key: Seq<char>, f: Field) -> Result<
    bool,
    Failure,
> {
    match lookup(ms, key) {
        Some(Json::Bool(b)) => Ok(b),
        _ => Err(Failure::Structure(f)),
    }
}

/// The size member: a byte count, a number, or a size string.
pub open spec fn size_member(v: Option<Json>) -> Result<u64, Failure> {
    match v {
        Some(Json::Unsigned(n)) => Ok(n),
        Some(Json::Decimal(t)) => match number_size(t) {
            Some(n) => Ok(n),
            None => Err(Failure::Normalization(Field::Size, t)),
        },
        Some(Json::Str(s)) => match text_size(s) {
            Some(n) => Ok(n),
            None => Err(Failure::Normalization(Field::Size, s)),
        },
        _ => Err(Failure::Structure(Field::Size)),
    }
}

/// The mountpoint member: the plural name wins when both are present.
pub open spec fn mount_member(ms: Seq<(Seq<char>, Json)>) -> Option<Json> {
    if lookup(ms, "mountpoints"@) is Some {
        lookup(ms, "mountpoints"@)
    } else {
        lookup(ms, "mountpoint"@)
    }
}

pub proof fn lemma_lookup_decreases(ms: Seq<(Seq<char>, Json)>, key: Seq<char>)
    ensures
        lookup(ms, key) matches Some(v) ==> decreases_to!(ms => v),
    decreases ms.len(),
{
    if ms.len() > 0 {
        if ms[0].0 == key {
            assert(decreases_to!(ms => ms[0]));
            assert(decreases_to!(ms[0] => ms[0].1));
        } else {
            let rest = ms.subrange(1, ms.len() as int);
            lemma_lookup_decreases(rest, key);
            assert(decreases_to!(ms => rest));
        }
    }
}

/// The device that a record denotes, or the first failure in field order:
/// `name`, `maj:min`, `rm`, `size`, `ro`, `type`, the mountpoints, then the
/// children in order.
pub open spec fn decode_device(j: Json) -> Result<Device, Failure>
    decreases j,
{
    match j {
        Json::Object(ms) => match text_member(ms, "name"@, Field::Name) {
            Err(e) => Err(e),
            Ok(name) => if name.len() == 0 {
                Err(Failure::Normalization(Field::Name, name))
            } else {
                match text_member(ms, "maj:min"@, Field::MajMin) {
                    Err(e) => Err(e),
                    Ok(maj_min) => match bool_member(ms, "rm"@, Field::Removable) {
                        Err(e) => Err(e),
                        Ok(rm) => match size_member(lookup(ms, "size"@)) {
                            Err(e) => Err(e),
                            Ok(size) => match bool_member(ms, "ro"@, Field::ReadOnly) {
                                Err(e) => Err(e),
                                Ok(ro) => match text_member(ms, "type"@, Field::Type) {
                                    Err(e) => Err(e),
                                    Ok(kind) => match normalize_mounts(mount_member(ms)) {
                                        None => Err(Failure::Structure(Field::Mountpoints)),
                                        Some(mountpoints) => {
                                            let base = Device {
                                                name,
                                                maj_min,
                                                rm,
                                                size,
                                                ro,
                                                kind,
                                                mountpoints,
                                                children: None,
                                            };
                                            match lookup(ms, "children"@) {
                                                None => Ok(base),
                                                Some(Json::Null) => Ok(base),
                                                Some(Json::Array(items)) => {
                                                    proof {
                                                        lemma_lookup_decreases(ms, "children"@);
                                                    }
                                                    match decode_list(items) {
                                                        Err(e) => Err(e),
                                                        Ok(c) => Ok(Device { children: Some(c), ..base }),
                                                    }
                                                },
                                                _ => Err(Failure::Structure(Field::Children)),
                                            }
                                        },
                                    },
                                },
                            },
                        },
                    },
                }
            },
        },
        _ => Err(Failure::Structure(Field::Device)),
    }
}

/// The devices that a list of records denotes, or the failure of the first
/// record that fails.
pub open spec fn decode_list(items: Seq<Json>) -> Result<Seq<Device>, Failure>
    decreases items,
{
    if items.len() == 0 {
        Ok(Seq::empty())
    } else {
        match decode_list(items.drop_last()) {
            Err(e) => Err(e),
            Ok(ds) => match decode_device(items[items.len() - 1]) {
                Err(e) => Err(e),
                Ok(d) => Ok(ds.push(d)),
            },
        }
    }
}

/// The inventory that a document denotes: an object whose `blockdevices`
/// member is a list of device records.
pub open spec fn decode_document(j: Json) -> Result<Seq<Device>, Failure> {
    match j {
        Json::Object(ms) => match lookup(ms, "blockdevices"@) {
            Some(Json::Array(items)) => decode_list(items),
            _ => Err(Failure::Structure(Field::BlockDevices)),
        },
        _ => Err(Failure::Structure(Field::Document)),
    }
}


/// `r` is the outcome that `s` describes.
pub open spec fn device_outcome(r: Result<BlockDevice, ParseError>, s: Result<Device, Failure>) -> bool {
    match s {
        Ok(d) => r matches Ok(b) && b@ == d && b.wf(),
        Err(e) => r matches Err(x) && x@ == e,
    }
}

/// `r` is the outcome that `s` describes.
pub open spec fn list_outcome(r: Result<Vec<BlockDevice>, ParseError>, s: Result<Seq<Device>, Failure>) -> bool {
    match s {
        Ok(ds) => r matches Ok(v) && view_devices(v@) == ds && all_wf(v@),
        Err(e) => r matches Err(x) && x@ == e,
    }
}

fn text_of<'a>(ms: &'a Vec<Member>, key: &str, f: Field) -> (r: Result<&'a String, ParseError>)
    ensures
        match text_member(view_members(ms@), key@, f) {
            Ok(s) => r matches Ok(x) && x@ == s,
            Err(e) => r matches Err(x) && x@ == e,
        },
{
    match get_member(ms, key) {
        Some(JsonValue::Str(s)) => Ok(s),
        _ => Err(ParseError::Structure(f)),
    }
}

fn bool_of(ms: &Vec<Member>, key: &str, f: Field) -> (r: Result<bool, ParseError>)
    ensures
        match bool_member(view_members(ms@), key@, f) {
            Ok(b) => r == Ok::<bool, ParseError>(b),
            Err(e) => r matches Err(x) && x@ == e,
        },
{
    match get_member(ms, key) {
        Some(JsonValue::Bool(b)) => Ok(*b),
        _ => Err(ParseError::Structure(f)),
    }
}

fn size_of(v: Option<&JsonValue>) -> (r: Result<u64, ParseError>)
    ensures
        match size_member(opt_view(v)) {
            Ok(n) => r == Ok::<u64, ParseError>(n),
            Err(e) => r matches Err(x) && x@ == e,
        },
{
    match v {
        Some(JsonValue::Unsigned(n)) => Ok(*n),
        Some(JsonValue::Decimal(t)) => match size_from_number(t.as_str()) {
            Some(n) => Ok(n),
            None => Err(ParseError::Normalization(Field::Size, t.clone())),
        },
        Some(JsonValue::Str(s)) => match size_from_text(s.as_str()) {
            Some(n) => Ok(n),
            None => Err(ParseError::Normalization(Field::Size, s.clone())),
        },
        _ => Err(ParseError::Structure(Field::Size)),
    }
}

fn mount_of<'a>(ms: &'a Vec<Member>) -> (r: Option<&'a JsonValue>)
    ensures
        opt_view(r) == mount_member(view_members(ms@)),
{
    match get_member(ms, "mountpoints") {
        Some(v) => Some(v),
        None => get_member(ms, "mountpoint"),
    }
}

/// Once a prefix of a list fails, the whole list fails the same way.
proof fn lemma_list_fails(items: Seq<Json>, n: nat)
    requires
        n <= items.len(),
        decode_list(items.take(n as int)) is Err,
    ensures
        decode_list(items) == decode_list(items.take(n as int)),
    decreases items.len() - n,
{
    if n < items.len() {
        assert(items.take(n + 1 as int).drop_last() =~= items.take(n as int));
        lemma_list_fails(items, n + 1);
    } else {
        assert(items.take(n as int) =~= items);
    }
}

impl BlockDevice {
    /// Builds a device, with its subtree, from a device record.
    pub fn from_json(j: &JsonValue) -> (r: Result<BlockDevice, ParseError>)
        ensures
            device_outcome(r, decode_device(j@)),
        decreases j,
    {
        let ms = match j {
            JsonValue::Object(ms) => ms,
            _ => return Err(ParseError::Structure(Field::Device)),
        };
        let name = match text_of(ms, "name", Field::Name) {
            Ok(s) => s,
            Err(e) => return Err(e),
        };
        if name.as_str().unicode_len() == 0 {
            return Err(ParseError::Normalization(Field::Name, name.clone()));
        }
        let maj_min = match text_of(ms, "maj:min", Field::MajMin) {
            Ok(s) => s,
            Err(e) => return Err(e),
        };
        let rm = match bool_of(ms, "rm", Field::Removable) {
            Ok(b) => b,
            Err(e) => return Err(e),
        };
        let size = match size_of(get_member(ms, "size")) {
            Ok(n) => n,
            Err(e) => return Err(e),
        };
        let ro = match bool_of(ms, "ro", Field::ReadOnly) {
            Ok(b) => b,
            Err(e) => return Err(e),
        };
        let label = match text_of(ms, "type", Field::Type) {
            Ok(s) => s,
            Err(e) => return Err(e),
        };
        let mountpoints = match normalize_mountpoints(mount_of(ms)) {
            Some(m) => m,
            None => return Err(ParseError::Structure(Field::Mountpoints)),
        };
        let children = match get_member(ms, "children") {
            None => None,
            Some(JsonValue::Null) => None,
            Some(JsonValue::Array(items)) => {
                proof {
                    let i = choose|i: int|
                        0 <= i < ms@.len() && ms@[i].value == JsonValue::Array(*items);
                    assert(decreases_to!(*j => *ms));
                    assert(decreases_to!(*ms => ms[i]));
                    assert(decreases_to!(ms[i] => ms[i].value));
                    assert(decreases_to!(ms[i].value => *items));
                }
                match BlockDevice::from_json_list(items) {
                    Ok(v) => Some(v),
                    Err(e) => return Err(e),
                }
            },
            _ => return Err(ParseError::Structure(Field::Children)),
        };
        Ok(
            BlockDevice {
                name: name.clone(),
                maj_min: maj_min.clone(),
                rm,
                size,
                ro,
                device_type: DeviceKind::classify(label.as_str()),
                mountpoints,
                children,
            },
        )
    }

    /// Builds the devices of a list of records, in order.
    pub fn from_json_list(items: &Vec<JsonValue>) -> (r: Result<Vec<BlockDevice>, ParseError>)
        ensures
            list_outcome(r, decode_list(view_items(items@))),
        decreases items,
    {
        let ghost js = view_items(items@);
        proof {
            lemma_view_items(items@);
            assert(js.take(0) =~= Seq::<Json>::empty());
            assert(view_devices(Seq::<BlockDevice>::empty()) =~= Seq::<Device>::empty());
        }
        let mut out: Vec<BlockDevice> = Vec::new();
        let mut i: usize = 0;
        while i < items.len()
            invariant
                js == view_items(items@),
                js.len() == items@.len(),
                forall|k: int| 0 <= k < items@.len() ==> #[trigger] js[k] == items@[k]@,
                i <= items@.len(),
                decode_list(js.take(i as int)) == Ok::<Seq<Device>, Failure>(view_devices(out@)),
                all_wf(out@),
            decreases items.len() - i,
        {
            let ghost before = out@;
            assert(js.take(i + 1).drop_last() =~= js.take(i as int));
            assert(js.take(i + 1)[i as int] == items@[i as int]@);
            assert(decreases_to!(*items => items[i as int]));
            match BlockDevice::from_json(&items[i]) {
                Ok(b) => {
                    out.push(b);
                    assert(out@.drop_last() =~= before);
                    assert(view_devices(out@) == view_devices(before).push(b@));
                },
                Err(e) => {
                    proof {
                        lemma_list_fails(js, (i + 1) as nat);
                    }
                    return Err(e);
                },
            }
            i = i + 1;
        }
        assert(js.take(i as int) =~= js);
        Ok(out)
    }
}

impl BlockDevices {
    /// Builds the inventory from a parsed document: an object whose
    /// `blockdevices` member lists the top-level device records.
    pub fn from_json(j: &JsonValue) -> (r: Result<BlockDevices, ParseError>)
        ensures
            match decode_document(j@) {
                Ok(ds) => r matches Ok(b) && b@ == ds && all_wf(b.blockdevices@),
                Err(e) => r matches Err(x) && x@ == e,
            },
    {
        match j {
            JsonValue::Object(ms) => match get_member(ms, "blockdevices") {
                Some(JsonValue::Array(items)) => match BlockDevice::from_json_list(items) {
                    Ok(v) => Ok(BlockDevices { blockdevices: v }),
                    Err(e) => Err(e),
                },
                _ => Err(ParseError::Structure(Field::BlockDevices)),
            },
            _ => Err(ParseError::Structure(Field::Document)),
        }
    }
}

} // verus!
