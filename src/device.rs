//! The device tree and the queries on it.
use vstd::prelude::*;
use crate::kind::DeviceKind;
use crate::mountpoint::{mounts_view, slot_view};
use crate::text::str_eq;

verus! {

/// One node of the device tree, as `lsblk` reports it.
#[derive(Debug, PartialEq, Eq)]
pub struct BlockDevice {
    /// The device name, unique among its siblings.
    pub name: String,
    /// The `major:minor` pair, passed through as it came.
    pub maj_min: String,
    /// Whether the device is removable.
    pub rm: bool,
    /// The size in bytes.
    pub size: u64,
    /// Whether the device is read-only.
    pub ro: bool,
    /// The kind of device; on the wire this is the `type` field.
    pub device_type: DeviceKind,
    /// The mount slots in reported order; `None` is a slot with nothing
    /// mounted.
    pub mountpoints: Vec<Option<String>>,
    /// The nested devices. `None` when none were reported, which is kept
    /// apart from an empty list.
    pub children: Option<Vec<BlockDevice>>,
}

/// The whole inventory: the top-level devices in reported order.
#[derive(Debug, PartialEq, Eq)]
pub struct BlockDevices {
    pub blockdevices: Vec<BlockDevice>,
}

/// The value of a device node.
pub struct Device {
    pub name: Seq<char>,
    pub maj_min: Seq<char>,
    pub rm: bool,
    pub size: u64,
    pub ro: bool,
    /// The wire label of the kind.
    pub kind: Seq<char>,
    pub mountpoints: Seq<Option<Seq<char>>>,
    pub children: Option<Seq<Device>>,
}

/// The values of a sequence of device nodes.
pub open spec fn view_devices(s: Seq<BlockDevice>) -> Seq<Device>
    decreases s,
{
    if s.len() == 0 {
        Seq::empty()
    } else {
        view_devices(s.drop_last()).push(s[s.len() - 1].view())
    }
}

impl View for BlockDevice {
    type V = Device;

    open spec fn view(&self) -> Device
        decreases self,
    {
        Device {
            name: self.name@,
            maj_min: self.maj_min@,
            rm: self.rm,
            size: self.size,
            ro: self.ro,
            kind: self.device_type@,
            mountpoints: mounts_view(self.mountpoints@),
            children: match &self.children {
                Some(c) => Some(view_devices(c@)),
                None => None,
            },
        }
    }
}

/// Every device of `s` is well formed.
pub open spec fn all_wf(s: Seq<BlockDevice>) -> bool
    decreases s,
{
    s.len() > 0 ==> (all_wf(s.drop_last()) && s[s.len() - 1].wf())
}

impl BlockDevice {
    /// Names are non-empty and each kind is carried by its own variant,
    /// throughout the subtree.
    pub open spec fn wf(&self) -> bool
        decreases self,
    {
        &&& self.name@.len() > 0
        &&& self.device_type.wf()
        &&& match &self.children {
            Some(c) => all_wf(c@),
            None => true,
        }
    }
}

impl View for BlockDevices {
    type V = Seq<Device>;

    open spec fn view(&self) -> Seq<Device> {
        view_devices(self.blockdevices@)
    }
}

pub proof fn lemma_view_devices(s: Seq<BlockDevice>)
    ensures
        view_devices(s).len() == s.len(),
        forall|i: int| 0 <= i < s.len() ==> #[trigger] view_devices(s)[i] == s[i]@,
    decreases s.len(),
{
    if s.len() > 0 {
        lemma_view_devices(s.drop_last());
        assert(view_devices(s) == view_devices(s.drop_last()).push(s[s.len() - 1]@));
    } else {
        assert(view_devices(s) == Seq::<Device>::empty());
    }
}

/// The path of the root file system.
pub open spec fn root_path() -> Seq<char> {
    seq!['/']
}

/// Whether one of the slots holds `/`.
pub open spec fn mounts_root(m: Seq<Option<Seq<char>>>) -> bool {
    exists|i: int| 0 <= i < m.len() && m[i] == Some(root_path())
}

/// Whether `/` is mounted on the device or anywhere below it.
pub open spec fn is_system_device(d: Device) -> bool
    decreases d,
{
    mounts_root(d.mountpoints) || match d.children {
        Some(c) => any_system(c),
        None => false,
    }
}

/// Whether one of the devices is a system device.
pub open spec fn any_system(s: Seq<Device>) -> bool
    decreases s,
{
    s.len() > 0 && (any_system(s.drop_last()) || is_system_device(s[s.len() - 1]))
}

/// The mounted paths, in order, without the empty slots.
pub open spec fn active(m: Seq<Option<Seq<char>>>) -> Seq<Seq<char>>
    decreases m.len(),
{
    if m.len() == 0 {
        Seq::empty()
    } else {
        match m.last() {
            Some(p) => active(m.drop_last()).push(p),
            None => active(m.drop_last()),
        }
    }
}

/// The index of the first device named `name`.
pub open spec fn first_named(s: Seq<Device>, name: Seq<char>) -> Option<int>
    decreases s.len(),
{
    if s.len() == 0 {
        None
    } else if s[0].name == name {
        Some(0)
    } else {
        match first_named(s.subrange(1, s.len() as int), name) {
            Some(i) => Some(i + 1),
            None => None,
        }
    }
}

/// The devices of `s` whose system status is `want`, in order.
pub open spec fn select(s: Seq<BlockDevice>, want: bool) -> Seq<BlockDevice>
    decreases s.len(),
{
    if s.len() == 0 {
        Seq::empty()
    } else if is_system_device(s.last()@) == want {
        select(s.drop_last(), want).push(s.last())
    } else {
        select(s.drop_last(), want)
    }
}

proof fn lemma_any_system_step(s: Seq<Device>, i: int)
    requires
        0 <= i < s.len(),
    ensures
        any_system(s.take(i + 1)) == (any_system(s.take(i)) || is_system_device(s[i])),
{
    let t = s.take(i + 1);
    assert(t.drop_last() =~= s.take(i));
    assert(t[t.len() - 1] == s[i]);
}

proof fn lemma_first_named_step(s: Seq<Device>, name: Seq<char>, i: int)
    requires
        0 <= i < s.len(),
        first_named(s, name) == (match first_named(s.subrange(i, s.len() as int), name) {
            Some(j) => Some(j + i),
            None => None,
        }),
        s[i].name != name,
    ensures
        first_named(s, name) == (match first_named(s.subrange(i + 1, s.len() as int), name) {
            Some(j) => Some(j + i + 1),
            None => None,
        }),
{
    let t = s.subrange(i, s.len() as int);
    assert(t.subrange(1, t.len() as int) =~= s.subrange(i + 1, s.len() as int));
    assert(t[0] == s[i]);
}

proof fn lemma_any_system_prefix(s: Seq<Device>, n: nat)
    requires
        n <= s.len(),
        any_system(s.take(n as int)),
    ensures
        any_system(s),
    decreases s.len() - n,
{
    if n < s.len() {
        lemma_any_system_step(s, n as int);
        lemma_any_system_prefix(s, n + 1);
    } else {
        assert(s.take(n as int) =~= s);
    }
}

/// The first device of `v` named `name`.
fn find_named<'a>(v: &'a Vec<BlockDevice>, name: &str) -> (r: Option<&'a BlockDevice>)
    ensures
        match first_named(view_devices(v@), name@) {
            None => r is None,
            Some(i) => r matches Some(d) && 0 <= i < v@.len() && *d == v@[i],
        },
{
    let ghost s = view_devices(v@);
    proof {
        lemma_view_devices(v@);
        assert(s.subrange(0, s.len() as int) =~= s);
    }
    let mut i: usize = 0;
    while i < v.len()
        invariant
            s == view_devices(v@),
            s.len() == v@.len(),
            forall|k: int| 0 <= k < v@.len() ==> #[trigger] s[k] == v@[k]@,
            i <= v@.len(),
            first_named(s, name@) == (match first_named(s.subrange(i as int, s.len() as int), name@) {
                Some(j) => Some(j + i),
                None => None,
            }),
        decreases v.len() - i,
    {
        let ghost t = s.subrange(i as int, s.len() as int);
        assert(t[0] == s[i as int]);
        if str_eq(v[i].name.as_str(), name) {
            return Some(&v[i]);
        }
        proof {
            lemma_first_named_step(s, name@, i as int);
        }
        i = i + 1;
    }
    None
}

fn slot_is_root(m: &Option<String>) -> (r: bool)
    ensures
        r == (slot_view(*m) == Some(root_path())),
{
    match m {
        Some(p) => {
            proof {
                reveal_strlit("/");
                assert("/"@ =~= root_path());
            }
            str_eq(p.as_str(), "/")
        },
        None => false,
    }
}

impl BlockDevice {
    /// Whether this device, or any device below it, has `/` mounted.
    pub fn is_system(&self) -> (r: bool)
        ensures
            r == is_system_device(self@),
        decreases self,
    {
        let ghost m = mounts_view(self.mountpoints@);
        let mut i: usize = 0;
        while i < self.mountpoints.len()
            invariant
                m == mounts_view(self.mountpoints@),
                i <= self.mountpoints@.len(),
                forall|k: int| 0 <= k < i ==> m[k] != Some(root_path()),
            decreases self.mountpoints.len() - i,
        {
            if slot_is_root(&self.mountpoints[i]) {
                assert(m[i as int] == Some(root_path()));
                return true;
            }
            i = i + 1;
        }
        assert(!mounts_root(m));
        match &self.children {
            None => false,
            Some(c) => {
                let ghost s = view_devices(c@);
                proof {
                    lemma_view_devices(c@);
                    assert(s.take(0) =~= Seq::<Device>::empty());
                }
                let mut j: usize = 0;
                while j < c.len()
                    invariant
                        self.children == Some(*c),
                        s == view_devices(c@),
                        s.len() == c@.len(),
                        forall|k: int| 0 <= k < c@.len() ==> #[trigger] s[k] == c@[k]@,
                        j <= c@.len(),
                        !any_system(s.take(j as int)),
                    decreases c.len() - j,
                {
                    proof {
                        lemma_any_system_step(s, j as int);
                    }
                    proof {
                        let ch = self.children;
                        assert(decreases_to!(self => ch));
                        assert(decreases_to!(ch => ch->0));
                        assert(decreases_to!(ch->0 => ch->0[j as int]));
                    }
                    if c[j].is_system() {
                        proof {
                            lemma_any_system_prefix(s, (j + 1) as nat);
                        }
                        return true;
                    }
                    j = j + 1;
                }
                assert(s.take(j as int) =~= s);
                false
            },
        }
    }
}


pub open spec fn strings_view(v: Seq<String>) -> Seq<Seq<char>> {
    v.map_values(|p: String| p@)
}

impl BlockDevice {
    /// The mounted paths of this device, in order, without the empty slots.
    pub fn active_mountpoints(&self) -> (r: Vec<String>)
        ensures
            strings_view(r@) == active(self@.mountpoints),
    {
        let ghost m = mounts_view(self.mountpoints@);
        let mut r: Vec<String> = Vec::new();
        let mut i: usize = 0;
        assert(m.take(0) =~= Seq::<Option<Seq<char>>>::empty());
        assert(strings_view(r@) =~= Seq::<Seq<char>>::empty());
        while i < self.mountpoints.len()
            invariant
                m == mounts_view(self.mountpoints@),
                i <= self.mountpoints@.len(),
                strings_view(r@) == active(m.take(i as int)),
            decreases self.mountpoints.len() - i,
        {
            let ghost before = r@;
            assert(m.take(i + 1).drop_last() =~= m.take(i as int));
            assert(m.take(i + 1).last() == slot_view(self.mountpoints@[i as int]));
            match &self.mountpoints[i] {
                Some(p) => {
                    r.push(p.clone());
                    assert(strings_view(r@) =~= strings_view(before).push(p@));
                },
                None => {},
            }
            i = i + 1;
        }
        assert(m.take(i as int) =~= m);
        r
    }

    /// Whether anything is mounted on this device itself.
    pub fn is_mounted(&self) -> (r: bool)
        ensures
            r == (active(self@.mountpoints).len() > 0),
    {
        let a = self.active_mountpoints();
        a.len() > 0
    }

    /// The first direct child named `name`; children of children are not
    /// searched.
    pub fn find_child<'a>(&'a self, name: &str) -> (r: Option<&'a BlockDevice>)
        ensures
            match self.children {
                None => r is None,
                Some(c) => match first_named(view_devices(c@), name@) {
                    None => r is None,
                    Some(i) => r matches Some(d) && 0 <= i < c@.len() && *d == c@[i],
                },
            },
    {
        match &self.children {
            None => None,
            Some(c) => find_named(c, name),
        }
    }

    /// Whether the device has at least one child; an absent list and an
    /// empty one both count as none.
    pub fn has_children(&self) -> (r: bool)
        ensures
            r == (self.children matches Some(c) && c@.len() > 0),
    {
        match &self.children {
            None => false,
            Some(c) => c.len() > 0,
        }
    }

    /// The direct children in order; empty when none were reported.
    pub fn child_devices(&self) -> (r: &[BlockDevice])
        ensures
            r@ == match self.children {
                Some(c) => c@,
                None => Seq::<BlockDevice>::empty(),
            },
    {
        match &self.children {
            Some(c) => c.as_slice(),
            None => &[],
        }
    }
}

proof fn lemma_select_step(s: Seq<BlockDevice>, i: int, want: bool)
    requires
        0 <= i < s.len(),
    ensures
        select(s.take(i + 1), want) == if is_system_device(s[i]@) == want {
            select(s.take(i), want).push(s[i])
        } else {
            select(s.take(i), want)
        },
{
    let t = s.take(i + 1);
    assert(t.drop_last() =~= s.take(i));
    assert(t.last() == s[i]);
}

/// The devices of `v` whose system status is `want`, in order.
fn select_devices<'a>(v: &'a Vec<BlockDevice>, want: bool) -> (r: Vec<&'a BlockDevice>)
    ensures
        r@.len() == select(v@, want).len(),
        forall|i: int| 0 <= i < r@.len() ==> *r@[i] == #[trigger] select(v@, want)[i],
{
    let mut r: Vec<&'a BlockDevice> = Vec::new();
    let mut i: usize = 0;
    assert(v@.take(0) =~= Seq::<BlockDevice>::empty());
    while i < v.len()
        invariant
            i <= v@.len(),
            r@.len() == select(v@.take(i as int), want).len(),
            forall|k: int|
                0 <= k < r@.len() ==> *r@[k] == #[trigger] select(v@.take(i as int), want)[k],
        decreases v.len() - i,
    {
        proof {
            lemma_select_step(v@, i as int, want);
        }
        if v[i].is_system() == want {
            r.push(&v[i]);
        }
        i = i + 1;
    }
    assert(v@.take(i as int) =~= v@);
    r
}

impl BlockDevices {
    /// The top-level devices that hold `/` somewhere in their subtree, in
    /// reported order.
    pub fn system(&self) -> (r: Vec<&BlockDevice>)
        ensures
            r@.len() == select(self.blockdevices@, true).len(),
            forall|i: int|
                0 <= i < r@.len() ==> *r@[i] == #[trigger] select(self.blockdevices@, true)[i],
    {
        select_devices(&self.blockdevices, true)
    }

    /// The top-level devices with `/` mounted neither on them nor anywhere
    /// below them, in reported order.
    pub fn non_system(&self) -> (r: Vec<&BlockDevice>)
        ensures
            r@.len() == select(self.blockdevices@, false).len(),
            forall|i: int|
                0 <= i < r@.len() ==> *r@[i] == #[trigger] select(self.blockdevices@, false)[i],
    {
        select_devices(&self.blockdevices, false)
    }

    /// The first top-level device named `name`; children are not searched.
    pub fn find_by_name<'a>(&'a self, name: &str) -> (r: Option<&'a BlockDevice>)
        ensures
            match first_named(self@, name@) {
                None => r is None,
                Some(i) => r matches Some(d) && 0 <= i < self.blockdevices@.len() && *d
                    == self.blockdevices@[i],
            },
    {
        find_named(&self.blockdevices, name)
    }

    /// The top-level devices in reported order.
    pub fn devices(&self) -> (r: &[BlockDevice])
        ensures
            r@ == self.blockdevices@,
    {
        self.blockdevices.as_slice()
    }

    /// Gives up the collection for its top-level devices, in reported order.
    pub fn into_devices(self) -> (r: Vec<BlockDevice>)
        ensures
            r@ == self.blockdevices@,
    {
        self.blockdevices
    }

    /// The number of top-level devices.
    pub fn len(&self) -> (r: usize)
        ensures
            r == self.blockdevices@.len(),
    {
        self.blockdevices.len()
    }

    /// Whether there are no top-level devices.
    pub fn is_empty(&self) -> (r: bool)
        ensures
            r == (self.blockdevices@.len() == 0),
    {
        self.blockdevices.len() == 0
    }
}


/// The device reached from `d` by following child indices along `path`.
pub open spec fn at_path(d: Device, path: Seq<int>) -> Option<Device>
    decreases path.len(),
{
    if path.len() == 0 {
        Some(d)
    } else {
        match d.children {
            Some(c) => if 0 <= path[0] < c.len() {
                at_path(c[path[0]], path.skip(1))
            } else {
                None
            },
            None => None,
        }
    }
}

proof fn lemma_active_contains(m: Seq<Option<Seq<char>>>, p: Seq<char>)
    ensures
        active(m).contains(p) <==> exists|i: int| 0 <= i < m.len() && m[i] == Some(p),
    decreases m.len(),
{
    if m.len() > 0 {
        let m0 = m.drop_last();
        lemma_active_contains(m0, p);
        if active(m).contains(p) {
            match m.last() {
                Some(q) => {
                    let k = choose|k: int| 0 <= k < active(m).len() && active(m)[k] == p;
                    if k < active(m0).len() {
                        assert(active(m0)[k] == p);
                        let i = choose|i: int| 0 <= i < m0.len() && m0[i] == Some(p);
                        assert(m[i] == m0[i]);
                    } else {
                        assert(m[m.len() - 1] == Some(p));
                    }
                },
                None => {
                    let i = choose|i: int| 0 <= i < m0.len() && m0[i] == Some(p);
                    assert(m[i] == m0[i]);
                },
            }
        }
        if exists|i: int| 0 <= i < m.len() && m[i] == Some(p) {
            let i = choose|i: int| 0 <= i < m.len() && m[i] == Some(p);
            if i < m.len() - 1 {
                assert(m0[i] == Some(p));
                let k = choose|k: int| 0 <= k < active(m0).len() && active(m0)[k] == p;
                match m.last() {
                    Some(q) => assert(active(m)[k] == p),
                    None => {},
                }
            } else {
                assert(active(m) == active(m0).push(p));
                assert(active(m)[active(m0).len() as int] == p);
            }
        }
    }
}

proof fn lemma_any_system_exists(s: Seq<Device>)
    ensures
        any_system(s) <==> exists|i: int| 0 <= i < s.len() && is_system_device(s[i]),
    decreases s.len(),
{
    if s.len() > 0 {
        let s0 = s.drop_last();
        lemma_any_system_exists(s0);
        if any_system(s0) {
            let i = choose|i: int| 0 <= i < s0.len() && is_system_device(s0[i]);
            assert(s[i] == s0[i]);
        }
        if exists|i: int| 0 <= i < s.len() && is_system_device(s[i]) {
            let i = choose|i: int| 0 <= i < s.len() && is_system_device(s[i]);
            if i < s.len() - 1 {
                assert(s0[i] == s[i]);
            }
        }
    }
}

proof fn lemma_system_from_path(d: Device, path: Seq<int>)
    requires
        at_path(d, path) matches Some(e) && active(e.mountpoints).contains(root_path()),
    ensures
        is_system_device(d),
    decreases path.len(),
{
    if path.len() == 0 {
        lemma_active_contains(d.mountpoints, root_path());
    } else {
        let c = d.children->0;
        let i = path[0];
        lemma_system_from_path(c[i], path.skip(1));
        lemma_any_system_exists(c);
    }
}

proof fn lemma_path_from_system(d: Device)
    requires
        is_system_device(d),
    ensures
        exists|path: Seq<int>|
            #[trigger] at_path(d, path) matches Some(e) && active(e.mountpoints).contains(
                root_path(),
            ),
    decreases d,
{
    if mounts_root(d.mountpoints) {
        lemma_active_contains(d.mountpoints, root_path());
        assert(at_path(d, Seq::empty()) == Some(d));
    } else {
        let c = d.children->0;
        lemma_any_system_exists(c);
        let i = choose|i: int| 0 <= i < c.len() && is_system_device(c[i]);
        assert(decreases_to!(d => d.children));
        assert(decreases_to!(d.children => c));
        assert(decreases_to!(c => c[i]));
        lemma_path_from_system(c[i]);
        let p = choose|p: Seq<int>|
            #[trigger] at_path(c[i], p) matches Some(e) && active(e.mountpoints).contains(
                root_path(),
            );
        let path = seq![i] + p;
        assert(path.skip(1) =~= p);
        assert(at_path(d, path) == at_path(c[i], p));
    }
}

/// A device is a system device exactly when `/` is among the active
/// mountpoints of the device itself or of some device below it.
pub proof fn lemma_system_iff_root_below(d: Device)
    ensures
        is_system_device(d) <==> exists|path: Seq<int>|
            #[trigger] at_path(d, path) matches Some(e) && active(e.mountpoints).contains(
                root_path(),
            ),
{
    if is_system_device(d) {
        lemma_path_from_system(d);
    }
    if exists|path: Seq<int>|
        #[trigger] at_path(d, path) matches Some(e) && active(e.mountpoints).contains(root_path()) {
        let path = choose|path: Seq<int>|
            #[trigger] at_path(d, path) matches Some(e) && active(e.mountpoints).contains(
                root_path(),
            );
        lemma_system_from_path(d, path);
    }
}

proof fn lemma_select_prefix(s: Seq<BlockDevice>, n: nat, want: bool)
    requires
        n <= s.len(),
    ensures
        select(s, want).take(select(s.take(n as int), want).len() as int) == select(
            s.take(n as int),
            want,
        ),
        select(s.take(n as int), want).len() <= select(s, want).len(),
    decreases s.len() - n,
{
    if n == s.len() {
        assert(s.take(n as int) =~= s);
        assert(select(s, want).take(select(s, want).len() as int) =~= select(s, want));
    } else {
        lemma_select_prefix(s, n + 1, want);
        lemma_select_step(s, n as int, want);
        let a = select(s.take(n as int), want);
        let b = select(s.take(n + 1 as int), want);
        let c = select(s, want);
        assert(c.take(a.len() as int) =~= b.take(a.len() as int));
        assert(b.take(a.len() as int) =~= a);
    }
}

proof fn lemma_select_len(s: Seq<BlockDevice>)
    ensures
        select(s, true).len() + select(s, false).len() == s.len(),
    decreases s.len(),
{
    if s.len() > 0 {
        lemma_select_len(s.drop_last());
    }
}

/// Device `i` of `s` stands in the list of its status, right after the
/// devices of that status that come before it in `s`.
pub open spec fn placed(s: Seq<BlockDevice>, i: int) -> bool {
    let w = is_system_device(s[i]@);
    let k = select(s.take(i), w).len() as int;
    k < select(s, w).len() && select(s, w)[k] == s[i]
}

/// The system and non-system lists together give back the top-level list:
/// their lengths add up to its length, and each device stands in the list
/// of its status at the place that the devices of that status before it
/// leave for it, so both keep the original order.
pub proof fn lemma_partition_complete(s: Seq<BlockDevice>)
    ensures
        select(s, true).len() + select(s, false).len() == s.len(),
        forall|i: int| 0 <= i < s.len() ==> #[trigger] placed(s, i),
{
    lemma_select_len(s);
    assert forall|i: int| 0 <= i < s.len() implies #[trigger] placed(s, i) by {
        let w = is_system_device(s[i]@);
        lemma_select_step(s, i, w);
        lemma_select_prefix(s, (i + 1) as nat, w);
        let b = select(s.take(i + 1), w);
        assert(b[b.len() - 1] == s[i]);
        assert(select(s, w).take(b.len() as int)[b.len() - 1] == s[i]);
    }
}

} // verus!
