//! The authoritative state store and its reducer: interface addresses,
//! index-to-name resolution, tracked containers, the zone projection and
//! the delta computation that drives the filter projector.

use vstd::prelude::*;

use crate::types::{
    AppConfig, AppConfigView, ControlCommand, DockerEvent, InterfaceConfig, InterfaceConfigView,
    IpAddress, NetworkEvent, SystemEvent,
};

verus! {

/// The addresses the kernel last reported for one interface.
pub struct InterfaceEntry {
    pub name: String,
    pub ips: Vec<IpAddress>,
}

/// One row of the index-to-name resolution map.
pub struct LinkEntry {
    pub index: u32,
    pub name: String,
}

/// Indexes are unique in an index-to-name map.
pub open spec fn link_wf(s: Seq<LinkEntry>) -> bool {
    forall|i: int, j: int| 0 <= i < j < s.len() ==> s[i].index != s[j].index
}

/// The map holds a name for this interface index.
pub open spec fn link_has(s: Seq<LinkEntry>, index: u32) -> bool {
    exists|i: int| 0 <= i < s.len() && s[i].index == index
}

/// The name the map holds for an index.
pub open spec fn link_name(s: Seq<LinkEntry>, index: u32) -> Seq<char> {
    let i = choose|i: int| 0 <= i < s.len() && s[i].index == index;
    s[i].name@
}

/// In a well-formed map, any row with a matching index is the row
/// `link_name` speaks about.
pub proof fn lemma_link_at(s: Seq<LinkEntry>, i: int)
    requires
        link_wf(s),
        0 <= i < s.len(),
    ensures
        link_has(s, s[i].index),
        link_name(s, s[i].index) == s[i].name@,
{
    let index = s[i].index;
    assert(link_has(s, index));
    let j = choose|j: int| 0 <= j < s.len() && s[j].index == index;
    if i < j {
        assert(s[i].index != s[j].index);
    } else if j < i {
        assert(s[j].index != s[i].index);
    }
}

/// The position of the row holding `index`, if any.
pub fn link_find(v: &Vec<LinkEntry>, index: u32) -> (r: Option<usize>)
    ensures
        match r {
            Some(i) => i < v@.len() && v@[i as int].index == index,
            None => !link_has(v@, index),
        },
{
    let n = v.len();
    let mut i: usize = 0;
    while i < n
        invariant
            n == v@.len(),
            i <= n,
            forall|j: int| 0 <= j < i ==> v@[j].index != index,
        decreases n - i,
    {
        if v[i].index == index {
            return Some(i);
        }
        i += 1;
    }
    None
}

/// Binds `index` to `name`, replacing any earlier binding; returns the
/// name the index was bound to before, if any.
pub fn link_set(v: &mut Vec<LinkEntry>, index: u32, name: String) -> (old_name: Option<String>)
    requires
        link_wf(old(v)@),
    ensures
        link_wf(final(v)@),
        link_has(final(v)@, index),
        link_name(final(v)@, index) == name@,
        forall|x: u32| x != index ==> link_has(final(v)@, x) == link_has(old(v)@, x),
        forall|x: u32|
            x != index && link_has(old(v)@, x) ==> link_name(final(v)@, x) == link_name(
                old(v)@,
                x,
            ),
        match old_name {
            Some(n) => link_has(old(v)@, index) && n@ == link_name(old(v)@, index),
            None => !link_has(old(v)@, index),
        },
{
    let ghost pre = v@;
    match link_find(v, index) {
        Some(i) => {
            proof {
                lemma_link_at(pre, i as int);
            }
            let prev_name = v[i].name.clone();
            v.set(i, LinkEntry { index, name });
            proof {
                let s = v@;
                assert forall|a: int, b: int| 0 <= a < b < s.len() implies s[a].index
                    != s[b].index by {
                    if a != i as int && b != i as int {
                        assert(pre[a].index != pre[b].index);
                    } else if a == i as int {
                        assert(pre[i as int].index != pre[b].index);
                    } else {
                        assert(pre[a].index != pre[i as int].index);
                    }
                }
                lemma_link_at(s, i as int);
                assert forall|x: u32| x != index implies link_has(s, x) == link_has(pre, x) by {
                    if link_has(s, x) {
                        let w = choose|w: int| 0 <= w < s.len() && s[w].index == x;
                        assert(pre[w].index == x);
                    }
                    if link_has(pre, x) {
                        let w = choose|w: int| 0 <= w < pre.len() && pre[w].index == x;
                        assert(w != i as int);
                        assert(s[w].index == x);
                    }
                }
                assert forall|x: u32| x != index && link_has(pre, x) implies link_name(s, x)
                    == link_name(pre, x) by {
                    let w = choose|w: int| 0 <= w < pre.len() && pre[w].index == x;
                    assert(w != i as int);
                    assert(s[w].index == x);
                    lemma_link_at(pre, w);
                    lemma_link_at(s, w);
                }
            }
            Some(prev_name)
        },
        None => {
            let ghost l = v@.len() as int;
            v.push(LinkEntry { index, name });
            proof {
                let s = v@;
                assert forall|a: int, b: int| 0 <= a < b < s.len() implies s[a].index
                    != s[b].index by {
                    if b < l {
                        assert(pre[a].index != pre[b].index);
                    } else {
                        assert(s[b].index == index);
                        assert(link_has(pre, pre[a].index)) by {
                            assert(0 <= a < pre.len() && pre[a].index == pre[a].index);
                        }
                    }
                }
                lemma_link_at(s, l);
                assert forall|x: u32| x != index implies link_has(s, x) == link_has(pre, x) by {
                    if link_has(s, x) {
                        let w = choose|w: int| 0 <= w < s.len() && s[w].index == x;
                        assert(w != l);
                        assert(pre[w].index == x);
                    }
                    if link_has(pre, x) {
                        let w = choose|w: int| 0 <= w < pre.len() && pre[w].index == x;
                        assert(s[w].index == x);
                    }
                }
                assert forall|x: u32| x != index && link_has(pre, x) implies link_name(s, x)
                    == link_name(pre, x) by {
                    let w = choose|w: int| 0 <= w < pre.len() && pre[w].index == x;
                    assert(s[w].index == x);
                    lemma_link_at(pre, w);
                    lemma_link_at(s, w);
                }
            }
            None
        },
    }
}

/// Forgets the binding for `index`; returns the name it was bound to.
pub fn link_remove(v: &mut Vec<LinkEntry>, index: u32) -> (old_name: Option<String>)
    requires
        link_wf(old(v)@),
    ensures
        link_wf(final(v)@),
        !link_has(final(v)@, index),
        forall|x: u32| x != index ==> link_has(final(v)@, x) == link_has(old(v)@, x),
        forall|x: u32|
            x != index && link_has(old(v)@, x) ==> link_name(final(v)@, x) == link_name(
                old(v)@,
                x,
            ),
        match old_name {
            Some(n) => link_has(old(v)@, index) && n@ == link_name(old(v)@, index),
            None => !link_has(old(v)@, index),
        },
{
    let ghost pre = v@;
    match link_find(v, index) {
        Some(i) => {
            proof {
                lemma_link_at(pre, i as int);
            }
            let old_entry = v.remove(i);
            proof {
                let s = v@;
                assert(s == pre.remove(i as int));
                assert forall|w: int| 0 <= w < s.len() implies #[trigger] s[w] == pre[if w
                    < i as int {
                    w
                } else {
                    w + 1
                }] by {}
                assert(link_wf(s));
                assert(!link_has(s, index)) by {
                    if link_has(s, index) {
                        let w = choose|w: int| 0 <= w < s.len() && s[w].index == index;
                        let w0 = if w < i as int { w } else { w + 1 };
                        assert(pre[w0].index == index);
                        if w0 < i as int {
                            assert(pre[w0].index != pre[i as int].index);
                        } else {
                            assert(pre[i as int].index != pre[w0].index);
                        }
                    }
                }
                assert forall|x: u32| x != index implies link_has(s, x) == link_has(pre, x) by {
                    if link_has(s, x) {
                        let w = choose|w: int| 0 <= w < s.len() && s[w].index == x;
                        let w0 = if w < i as int { w } else { w + 1 };
                        assert(pre[w0].index == x);
                    }
                    if link_has(pre, x) {
                        let w = choose|w: int| 0 <= w < pre.len() && pre[w].index == x;
                        assert(w != i as int);
                        let w1 = if w < i as int { w } else { w - 1 };
                        assert(s[w1].index == x);
                    }
                }
                assert forall|x: u32| x != index && link_has(pre, x) implies link_name(s, x)
                    == link_name(pre, x) by {
                    let w = choose|w: int| 0 <= w < pre.len() && pre[w].index == x;
                    assert(w != i as int);
                    let w1 = if w < i as int { w } else { w - 1 };
                    assert(s[w1].index == x);
                    lemma_link_at(pre, w);
                    lemma_link_at(s, w1);
                }
            }
            Some(old_entry.name)
        },
        None => None,
    }
}

/// Network-facing state: interface name to bound addresses, and interface
/// index to current name.  Both maps are association vectors with unique
/// keys.
pub struct NetworkState {
    pub interface_ips: Vec<InterfaceEntry>,
    pub if_index_to_name: Vec<LinkEntry>,
}

impl NetworkState {
    /// Keys are unique in both maps.
    pub open spec fn wf(self) -> bool {
        &&& forall|i: int, j: int|
            0 <= i < j < self.interface_ips@.len() ==> self.interface_ips@[i].name@
                != self.interface_ips@[j].name@
        &&& link_wf(self.if_index_to_name@)
    }

    /// The store holds an address set for the named interface.
    pub open spec fn has_if(self, name: Seq<char>) -> bool {
        exists|i: int| 0 <= i < self.interface_ips@.len() && self.interface_ips@[i].name@ == name
    }

    /// The address set held for the named interface.
    pub open spec fn ips_of(self, name: Seq<char>) -> Seq<IpAddress> {
        let i = choose|i: int|
            0 <= i < self.interface_ips@.len() && self.interface_ips@[i].name@ == name;
        self.interface_ips@[i].ips@
    }

    /// The resolution map knows this interface index.
    pub open spec fn has_index(self, index: u32) -> bool {
        link_has(self.if_index_to_name@, index)
    }

    /// The name the resolution map holds for an index.
    pub open spec fn name_of_index(self, index: u32) -> Seq<char> {
        link_name(self.if_index_to_name@, index)
    }

    /// In a well-formed store, any row with a matching name is the row
    /// `ips_of` speaks about.
    pub proof fn lemma_ips_at(self, i: int)
        requires
            self.wf(),
            0 <= i < self.interface_ips@.len(),
        ensures
            self.has_if(self.interface_ips@[i].name@),
            self.ips_of(self.interface_ips@[i].name@) == self.interface_ips@[i].ips@,
    {
        let name = self.interface_ips@[i].name@;
        assert(self.has_if(name));
        let j = choose|j: int|
            0 <= j < self.interface_ips@.len() && self.interface_ips@[j].name@ == name;
        if i < j {
            assert(self.interface_ips@[i].name@ != self.interface_ips@[j].name@);
        } else if j < i {
            assert(self.interface_ips@[j].name@ != self.interface_ips@[i].name@);
        }
    }

    pub fn new() -> (r: NetworkState)
        ensures
            r.wf(),
            r.interface_ips@.len() == 0,
            r.if_index_to_name@.len() == 0,
    {
        NetworkState { interface_ips: Vec::new(), if_index_to_name: Vec::new() }
    }

    /// The position of the row holding `name`, if any.
    fn find_if(&self, name: &str) -> (r: Option<usize>)
        ensures
            match r {
                Some(i) => i < self.interface_ips@.len() && self.interface_ips@[i as int].name@
                    == name@,
                None => !self.has_if(name@),
            },
    {
        let n = self.interface_ips.len();
        let mut i: usize = 0;
        while i < n
            invariant
                n == self.interface_ips@.len(),
                i <= n,
                forall|j: int| 0 <= j < i ==> self.interface_ips@[j].name@ != name@,
            decreases n - i,
        {
            if crate::types::str_eq_str(self.interface_ips[i].name.as_str(), name) {
                return Some(i);
            }
            i += 1;
        }
        None
    }

    /// Records the full current address set for an interface, replacing
    /// whatever was held before (state-not-delta contract).
    pub fn set_interface_ips(&mut self, name: String, ips: Vec<IpAddress>)
        requires
            old(self).wf(),
        ensures
            final(self).wf(),
            final(self).has_if(name@),
            final(self).ips_of(name@) == ips@,
            forall|n: Seq<char>|
                n != name@ ==> final(self).has_if(n) == old(self).has_if(n),
            forall|n: Seq<char>|
                n != name@ && old(self).has_if(n) ==> final(self).ips_of(n) == old(
                    self,
                ).ips_of(n),
            final(self).if_index_to_name == old(self).if_index_to_name,
    {
        let ghost pre = *self;
        match self.find_if(name.as_str()) {
            Some(i) => {
                let entry = InterfaceEntry { name, ips };
                self.interface_ips.set(i, entry);
                proof {
                    let s = *self;
                    assert(s.wf()) by {
                        assert forall|a: int, b: int|
                            0 <= a < b < s.interface_ips@.len() implies s.interface_ips@[a].name@
                            != s.interface_ips@[b].name@ by {
                            if a != i as int && b != i as int {
                                assert(pre.interface_ips@[a].name@ != pre.interface_ips@[b].name@);
                            } else if a == i as int {
                                assert(pre.interface_ips@[b].name@ != pre.interface_ips@[i as int].name@) by {
                                    if pre.interface_ips@[b].name@ == pre.interface_ips@[i as int].name@ {
                                        assert(pre.interface_ips@[i as int].name@
                                            != pre.interface_ips@[b].name@);
                                    }
                                }
                            } else {
                                assert(pre.interface_ips@[a].name@ != pre.interface_ips@[i as int].name@);
                            }
                        }
                    }
                    s.lemma_ips_at(i as int);
                    assert forall|n: Seq<char>| n != name@ implies s.has_if(n) == pre.has_if(n) by {
                        if s.has_if(n) {
                            let w = choose|w: int|
                                0 <= w < s.interface_ips@.len() && s.interface_ips@[w].name@ == n;
                            assert(w != i as int);
                            assert(pre.interface_ips@[w].name@ == n);
                        }
                        if pre.has_if(n) {
                            let w = choose|w: int|
                                0 <= w < pre.interface_ips@.len() && pre.interface_ips@[w].name@
                                    == n;
                            assert(w != i as int);
                            assert(s.interface_ips@[w].name@ == n);
                        }
                    }
                    assert forall|n: Seq<char>| n != name@ && pre.has_if(n) implies s.ips_of(n)
                        == pre.ips_of(n) by {
                        let w = choose|w: int|
                            0 <= w < pre.interface_ips@.len() && pre.interface_ips@[w].name@ == n;
                        assert(w != i as int);
                        assert(s.interface_ips@[w].name@ == n);
                        pre.lemma_ips_at(w);
                        s.lemma_ips_at(w);
                    }
                }
            },
            None => {
                let entry = InterfaceEntry { name, ips };
                self.interface_ips.push(entry);
                proof {
                    let s = *self;
                    let l = pre.interface_ips@.len() as int;
                    assert(s.interface_ips@ == pre.interface_ips@.push(
                        s.interface_ips@[l],
                    ));
                    assert(s.wf()) by {
                        assert forall|a: int, b: int|
                            0 <= a < b < s.interface_ips@.len() implies s.interface_ips@[a].name@
                            != s.interface_ips@[b].name@ by {
                            if b < l {
                                assert(pre.interface_ips@[a].name@ != pre.interface_ips@[b].name@);
                            } else {
                                assert(s.interface_ips@[b].name@ == name@);
                                assert(s.interface_ips@[a].name@ == pre.interface_ips@[a].name@);
                                assert(pre.has_if(pre.interface_ips@[a].name@)) by {
                                    assert(0 <= a < pre.interface_ips@.len()
                                        && pre.interface_ips@[a].name@
                                        == pre.interface_ips@[a].name@);
                                }
                            }
                        }
                    }
                    s.lemma_ips_at(l);
                    assert forall|n: Seq<char>| n != name@ implies s.has_if(n) == pre.has_if(n) by {
                        if s.has_if(n) {
                            let w = choose|w: int|
                                0 <= w < s.interface_ips@.len() && s.interface_ips@[w].name@ == n;
                            assert(w != l);
                            assert(pre.interface_ips@[w].name@ == n);
                        }
                        if pre.has_if(n) {
                            let w = choose|w: int|
                                0 <= w < pre.interface_ips@.len() && pre.interface_ips@[w].name@
                                    == n;
                            assert(s.interface_ips@[w].name@ == n);
                        }
                    }
                    assert forall|n: Seq<char>| n != name@ && pre.has_if(n) implies s.ips_of(n)
                        == pre.ips_of(n) by {
                        let w = choose|w: int|
                            0 <= w < pre.interface_ips@.len() && pre.interface_ips@[w].name@ == n;
                        assert(s.interface_ips@[w].name@ == n);
                        pre.lemma_ips_at(w);
                        s.lemma_ips_at(w);
                    }
                }
            },
        }
    }

    /// Forgets the named interface altogether; reports whether it was held.
    pub fn remove_interface(&mut self, name: &str) -> (removed: bool)
        requires
            old(self).wf(),
        ensures
            final(self).wf(),
            !final(self).has_if(name@),
            removed == old(self).has_if(name@),
            forall|n: Seq<char>|
                n != name@ ==> final(self).has_if(n) == old(self).has_if(n),
            forall|n: Seq<char>|
                n != name@ && old(self).has_if(n) ==> final(self).ips_of(n) == old(
                    self,
                ).ips_of(n),
            final(self).if_index_to_name == old(self).if_index_to_name,
    {
        let ghost pre = *self;
        match self.find_if(name) {
            Some(i) => {
                self.interface_ips.remove(i);
                proof {
                    let s = *self;
                    let l = pre.interface_ips@.len() as int;
                    assert(s.interface_ips@ == pre.interface_ips@.remove(i as int));
                    assert forall|w: int| 0 <= w < s.interface_ips@.len() implies #[trigger] s.interface_ips@[w]
                        == pre.interface_ips@[if w < i as int { w } else { w + 1 }] by {}
                    assert(s.wf());
                    assert(!s.has_if(name@)) by {
                        if s.has_if(name@) {
                            let w = choose|w: int|
                                0 <= w < s.interface_ips@.len() && s.interface_ips@[w].name@
                                    == name@;
                            let w0 = if w < i as int { w } else { w + 1 };
                            assert(pre.interface_ips@[w0].name@ == name@);
                            assert(w0 != i as int);
                            if w0 < i as int {
                                assert(pre.interface_ips@[w0].name@ != pre.interface_ips@[i as int].name@);
                            } else {
                                assert(pre.interface_ips@[i as int].name@
                                    != pre.interface_ips@[w0].name@);
                            }
                        }
                    }
                    assert(pre.has_if(name@));
                    assert forall|n: Seq<char>| n != name@ implies s.has_if(n) == pre.has_if(n) by {
                        if s.has_if(n) {
                            let w = choose|w: int|
                                0 <= w < s.interface_ips@.len() && s.interface_ips@[w].name@ == n;
                            let w0 = if w < i as int { w } else { w + 1 };
                            assert(pre.interface_ips@[w0].name@ == n);
                        }
                        if pre.has_if(n) {
                            let w = choose|w: int|
                                0 <= w < pre.interface_ips@.len() && pre.interface_ips@[w].name@
                                    == n;
                            assert(w != i as int);
                            let w1 = if w < i as int { w } else { w - 1 };
                            assert(s.interface_ips@[w1].name@ == n);
                        }
                    }
                    assert forall|n: Seq<char>| n != name@ && pre.has_if(n) implies s.ips_of(n)
                        == pre.ips_of(n) by {
                        let w = choose|w: int|
                            0 <= w < pre.interface_ips@.len() && pre.interface_ips@[w].name@ == n;
                        assert(w != i as int);
                        let w1 = if w < i as int { w } else { w - 1 };
                        assert(s.interface_ips@[w1].name@ == n);
                        assert(s.interface_ips@[w1].ips@ == pre.interface_ips@[w].ips@);
                        pre.lemma_ips_at(w);
                        s.lemma_ips_at(w1);
                    }
                }
                true
            },
            None => false,
        }
    }

    /// Binds an interface index to a name, returning the earlier name.
    pub fn set_index_name(&mut self, index: u32, name: String) -> (old_name: Option<String>)
        requires
            old(self).wf(),
        ensures
            final(self).wf(),
            final(self).interface_ips == old(self).interface_ips,
            final(self).has_index(index),
            final(self).name_of_index(index) == name@,
            forall|x: u32| x != index ==> final(self).has_index(x) == old(self).has_index(x),
            forall|x: u32|
                x != index && old(self).has_index(x) ==> final(self).name_of_index(x) == old(
                    self,
                ).name_of_index(x),
            match old_name {
                Some(n) => old(self).has_index(index) && n@ == old(self).name_of_index(index),
                None => !old(self).has_index(index),
            },
    {
        link_set(&mut self.if_index_to_name, index, name)
    }

    /// Forgets the binding for an interface index, returning its name.
    pub fn remove_index(&mut self, index: u32) -> (old_name: Option<String>)
        requires
            old(self).wf(),
        ensures
            final(self).wf(),
            final(self).interface_ips == old(self).interface_ips,
            !final(self).has_index(index),
            forall|x: u32| x != index ==> final(self).has_index(x) == old(self).has_index(x),
            forall|x: u32|
                x != index && old(self).has_index(x) ==> final(self).name_of_index(x) == old(
                    self,
                ).name_of_index(x),
            match old_name {
                Some(n) => old(self).has_index(index) && n@ == old(self).name_of_index(index),
                None => !old(self).has_index(index),
            },
    {
        link_remove(&mut self.if_index_to_name, index)
    }
}

// ---------------------------------------------------------------------------
// Zone projection
// ---------------------------------------------------------------------------

/// Some configuration row binds an interface to this zone.
pub open spec fn zone_declared(cfg: Seq<InterfaceConfig>, z: Seq<char>) -> bool {
    exists|i: int| 0 <= i < cfg.len() && cfg[i]@.nftables_zone == Some(z)
}

/// The zone's projected contents: an address belongs to zone `z` exactly
/// when some configured interface bound to `z` currently holds it.
pub open spec fn zone_has_addr(
    cfg: Seq<InterfaceConfig>,
    st: NetworkState,
    z: Seq<char>,
    a: IpAddress,
) -> bool {
    exists|i: int|
        0 <= i < cfg.len() && cfg[i]@.nftables_zone == Some(z) && st.has_if(cfg[i]@.name)
            && st.ips_of(cfg[i]@.name).contains(a)
}

/// Same as `zone_has_addr`, restricted to the first `n` configuration rows.
pub open spec fn zone_has_addr_upto(
    cfg: Seq<InterfaceConfig>,
    st: NetworkState,
    z: Seq<char>,
    a: IpAddress,
    n: int,
) -> bool {
    exists|i: int|
        0 <= i < n && i < cfg.len() && cfg[i]@.nftables_zone == Some(z) && st.has_if(
            cfg[i]@.name,
        ) && st.ips_of(cfg[i]@.name).contains(a)
}

/// The declared zones, in order of first appearance in the configuration.
pub open spec fn zones_in_order(cfg: Seq<InterfaceConfig>) -> Seq<Seq<char>>
    decreases cfg.len(),
{
    if cfg.len() == 0 {
        Seq::empty()
    } else {
        let front = zones_in_order(cfg.drop_last());
        match cfg.last()@.nftables_zone {
            Some(z) => if front.contains(z) {
                front
            } else {
                front.push(z)
            },
            None => front,
        }
    }
}

/// The ordered zone list holds exactly the declared zones, each once.
pub proof fn lemma_zones_in_order(cfg: Seq<InterfaceConfig>)
    ensures
        forall|z: Seq<char>| #[trigger] zones_in_order(cfg).contains(z) <==> zone_declared(cfg, z),
        forall|i: int, j: int|
            0 <= i < j < zones_in_order(cfg).len() ==> zones_in_order(cfg)[i] != zones_in_order(
                cfg,
            )[j],
    decreases cfg.len(),
{
    if cfg.len() == 0 {
        assert forall|z: Seq<char>| #[trigger] zones_in_order(cfg).contains(z) implies zone_declared(
            cfg,
            z,
        ) by {}
        assert forall|z: Seq<char>| zone_declared(cfg, z) implies #[trigger] zones_in_order(
            cfg,
        ).contains(z) by {}
    } else {
        let front = cfg.drop_last();
        lemma_zones_in_order(front);
        assert forall|z: Seq<char>| zone_declared(cfg, z) implies #[trigger] zones_in_order(
            cfg,
        ).contains(z) by {
            let i = choose|i: int| 0 <= i < cfg.len() && cfg[i]@.nftables_zone == Some(z);
            if i < cfg.len() - 1 {
                assert(front[i]@.nftables_zone == Some(z));
                assert(zone_declared(front, z));
                assert(zones_in_order(front).contains(z));
                let k = choose|k: int|
                    0 <= k < zones_in_order(front).len() && zones_in_order(front)[k] == z;
                assert(zones_in_order(cfg)[k] == z);
            } else {
                match cfg.last()@.nftables_zone {
                    Some(zz) => {
                        assert(zz == z);
                        if zones_in_order(front).contains(z) {
                            let k = choose|k: int|
                                0 <= k < zones_in_order(front).len() && zones_in_order(front)[k]
                                    == z;
                            assert(zones_in_order(cfg)[k] == z);
                        } else {
                            assert(zones_in_order(cfg).last() == z);
                        }
                    },
                    None => {
                        assert(false);
                    },
                }
            }
        }
        assert forall|z: Seq<char>| #[trigger] zones_in_order(cfg).contains(z) implies zone_declared(
            cfg,
            z,
        ) by {
            if zones_in_order(front).contains(z) {
                assert(zone_declared(front, z));
                let i = choose|i: int| 0 <= i < front.len() && front[i]@.nftables_zone == Some(z);
                assert(cfg[i]@.nftables_zone == Some(z));
            } else {
                let k = choose|k: int|
                    0 <= k < zones_in_order(cfg).len() && zones_in_order(cfg)[k] == z;
                match cfg.last()@.nftables_zone {
                    Some(zz) => {
                        if zones_in_order(front).contains(zz) {
                            assert(zones_in_order(cfg) == zones_in_order(front));
                            assert(false);
                        } else {
                            if k < zones_in_order(front).len() {
                                assert(zones_in_order(front)[k] == z);
                                assert(zones_in_order(front).contains(z));
                                assert(false);
                            } else {
                                assert(z == zz);
                                assert(cfg[cfg.len() - 1]@.nftables_zone == Some(z));
                            }
                        }
                    },
                    None => {
                        assert(zones_in_order(cfg) == zones_in_order(front));
                        assert(false);
                    },
                }
            }
        }
    }
}

/// No value occurs twice.
pub open spec fn nodup_u32(s: Seq<u32>) -> bool {
    forall|i: int, j: int| 0 <= i < j < s.len() ==> s[i] != s[j]
}

/// No value occurs twice.
pub open spec fn nodup_u128(s: Seq<u128>) -> bool {
    forall|i: int, j: int| 0 <= i < j < s.len() ==> s[i] != s[j]
}

pub fn contains_u32(v: &Vec<u32>, x: u32) -> (r: bool)
    ensures
        r == v@.contains(x),
{
    let mut i: usize = 0;
    while i < v.len()
        invariant
            i <= v@.len(),
            forall|j: int| 0 <= j < i ==> v@[j] != x,
        decreases v@.len() - i,
    {
        if v[i] == x {
            return true;
        }
        i += 1;
    }
    false
}

pub fn contains_u128(v: &Vec<u128>, x: u128) -> (r: bool)
    ensures
        r == v@.contains(x),
{
    let mut i: usize = 0;
    while i < v.len()
        invariant
            i <= v@.len(),
            forall|j: int| 0 <= j < i ==> v@[j] != x,
        decreases v@.len() - i,
    {
        if v[i] == x {
            return true;
        }
        i += 1;
    }
    false
}

/// Membership in a list of names.
pub fn vec_string_contains(v: &Vec<String>, s: &str) -> (r: bool)
    ensures
        r == v.deep_view().contains(s@),
{
    let mut i: usize = 0;
    while i < v.len()
        invariant
            i <= v@.len(),
            forall|j: int| 0 <= j < i ==> v@[j]@ != s@,
        decreases v@.len() - i,
    {
        if crate::types::str_eq_str(v[i].as_str(), s) {
            assert(v.deep_view()[i as int] == s@);
            return true;
        }
        i += 1;
    }
    proof {
        if v.deep_view().contains(s@) {
            let j = choose|j: int| 0 <= j < v.deep_view().len() && v.deep_view()[j] == s@;
            assert(v@[j]@ == s@);
        }
    }
    false
}

/// The declared zones in order of first appearance, each once.
pub fn unique_zones(cfg: &Vec<InterfaceConfig>) -> (r: Vec<String>)
    ensures
        r.deep_view() == zones_in_order(cfg@),
{
    let mut r: Vec<String> = Vec::new();
    let n = cfg.len();
    let mut i: usize = 0;
    while i < n
        invariant
            n == cfg@.len(),
            i <= n,
            r.deep_view() == zones_in_order(cfg@.take(i as int)),
        decreases n - i,
    {
        let ghost prefix = cfg@.take(i as int);
        let ghost prefix1 = cfg@.take(i as int + 1);
        proof {
            assert(prefix1.drop_last() =~= prefix);
            assert(prefix1.last() == cfg@[i as int]);
        }
        match &cfg[i].nftables_zone {
            Some(z) => {
                if !vec_string_contains(&r, z.as_str()) {
                    r.push(z.clone());
                    proof {
                        assert(r.deep_view() =~= zones_in_order(prefix).push(z@));
                    }
                } else {
                    proof {
                        assert(r.deep_view() =~= zones_in_order(prefix1));
                    }
                }
            },
            None => {
                proof {
                    assert(r.deep_view() =~= zones_in_order(prefix1));
                }
            },
        }
        i += 1;
    }
    proof {
        assert(cfg@.take(n as int) =~= cfg@);
    }
    r
}

/// The projected contents of one zone, partitioned by family.
pub struct ZoneSets {
    pub zone: String,
    pub v4: Vec<u32>,
    pub v6: Vec<u128>,
}

/// Collects, without duplicates, every address that the named zone's
/// interfaces currently hold, partitioned by family.
fn zone_addrs(cfg: &Vec<InterfaceConfig>, st: &NetworkState, zone: &str) -> (r: (Vec<u32>, Vec<
    u128,
>))
    requires
        st.wf(),
    ensures
        forall|a: u32|
            #[trigger] r.0@.contains(a) <==> zone_has_addr(cfg@, *st, zone@, IpAddress::V4(a)),
        forall|a: u128|
            #[trigger] r.1@.contains(a) <==> zone_has_addr(cfg@, *st, zone@, IpAddress::V6(a)),
        nodup_u32(r.0@),
        nodup_u128(r.1@),
{
    let mut v4: Vec<u32> = Vec::new();
    let mut v6: Vec<u128> = Vec::new();
    let n = cfg.len();
    let mut i: usize = 0;
    while i < n
        invariant
            st.wf(),
            n == cfg@.len(),
            i <= n,
            forall|a: u32|
                #[trigger] v4@.contains(a) <==> zone_has_addr_upto(
                    cfg@,
                    *st,
                    zone@,
                    IpAddress::V4(a),
                    i as int,
                ),
            forall|a: u128|
                #[trigger] v6@.contains(a) <==> zone_has_addr_upto(
                    cfg@,
                    *st,
                    zone@,
                    IpAddress::V6(a),
                    i as int,
                ),
            nodup_u32(v4@),
            nodup_u128(v6@),
        decreases n - i,
    {
        let row_matches: bool = match &cfg[i].nftables_zone {
            Some(z) => crate::types::str_eq_str(z.as_str(), zone),
            None => false,
        };
        if row_matches {
            match st.find_if(cfg[i].name.as_str()) {
                Some(j) => {
                    proof {
                        st.lemma_ips_at(j as int);
                    }
                    let ghost ips_seq = st.interface_ips@[j as int].ips@;
                    let m = st.interface_ips[j].ips.len();
                    let mut k: usize = 0;
                    while k < m
                        invariant
                            st.wf(),
                            n == cfg@.len(),
                            i < n,
                            j < st.interface_ips@.len(),
                            ips_seq == st.interface_ips@[j as int].ips@,
                            m == ips_seq.len(),
                            k <= m,
                            cfg@[i as int]@.nftables_zone == Some(zone@),
                            st.has_if(cfg@[i as int]@.name),
                            st.ips_of(cfg@[i as int]@.name) == ips_seq,
                            forall|a: u32|
                                #[trigger] v4@.contains(a) <==> (zone_has_addr_upto(
                                    cfg@,
                                    *st,
                                    zone@,
                                    IpAddress::V4(a),
                                    i as int,
                                ) || exists|t: int|
                                    0 <= t < k && ips_seq[t] == IpAddress::V4(a)),
                            forall|a: u128|
                                #[trigger] v6@.contains(a) <==> (zone_has_addr_upto(
                                    cfg@,
                                    *st,
                                    zone@,
                                    IpAddress::V6(a),
                                    i as int,
                                ) || exists|t: int|
                                    0 <= t < k && ips_seq[t] == IpAddress::V6(a)),
                            nodup_u32(v4@),
                            nodup_u128(v6@),
                        decreases m - k,
                    {
                        let ghost old_v4 = v4@;
                        let ghost old_v6 = v6@;
                        let a = st.interface_ips[j].ips[k];
                        match a {
                            IpAddress::V4(x) => {
                                if !contains_u32(&v4, x) {
                                    v4.push(x);
                                    proof {
                                        assert(v4@ == old_v4.push(x));
                                    }
                                }
                                proof {
                                    assert(ips_seq[k as int] == IpAddress::V4(x));
                                    assert forall|b: u32| #[trigger] v4@.contains(b) implies (
                                    zone_has_addr_upto(
                                        cfg@,
                                        *st,
                                        zone@,
                                        IpAddress::V4(b),
                                        i as int,
                                    ) || exists|t: int|
                                        0 <= t < k + 1 && ips_seq[t] == IpAddress::V4(b)) by {
                                        if b == x {
                                            assert(ips_seq[k as int] == IpAddress::V4(b));
                                        } else {
                                            assert(old_v4.contains(b)) by {
                                                let w = choose|w: int|
                                                    0 <= w < v4@.len() && v4@[w] == b;
                                                assert(old_v4[w] == b);
                                            }
                                            if !zone_has_addr_upto(
                                                cfg@,
                                                *st,
                                                zone@,
                                                IpAddress::V4(b),
                                                i as int,
                                            ) {
                                                let t = choose|t: int|
                                                    0 <= t < k && ips_seq[t] == IpAddress::V4(b);
                                                assert(0 <= t < k + 1 && ips_seq[t]
                                                    == IpAddress::V4(b));
                                            }
                                        }
                                    }
                                    assert forall|b: u32|
                                        (zone_has_addr_upto(
                                            cfg@,
                                            *st,
                                            zone@,
                                            IpAddress::V4(b),
                                            i as int,
                                        ) || exists|t: int|
                                            0 <= t < k + 1 && ips_seq[t] == IpAddress::V4(
                                                b,
                                            )) implies #[trigger] v4@.contains(b) by {
                                        if old_v4.contains(b) {
                                            let w = choose|w: int|
                                                0 <= w < old_v4.len() && old_v4[w] == b;
                                            assert(v4@[w] == b);
                                        } else {
                                            let t = choose|t: int|
                                                0 <= t < k + 1 && ips_seq[t] == IpAddress::V4(b);
                                            assert(t == k);
                                            assert(b == x);
                                            assert(v4@.last() == x);
                                        }
                                    }
                                    assert forall|b: u128| #[trigger] v6@.contains(b) implies (
                                    zone_has_addr_upto(
                                        cfg@,
                                        *st,
                                        zone@,
                                        IpAddress::V6(b),
                                        i as int,
                                    ) || exists|t: int|
                                        0 <= t < k + 1 && ips_seq[t] == IpAddress::V6(b)) by {
                                        if !zone_has_addr_upto(
                                            cfg@,
                                            *st,
                                            zone@,
                                            IpAddress::V6(b),
                                            i as int,
                                        ) {
                                            let t = choose|t: int|
                                                0 <= t < k && ips_seq[t] == IpAddress::V6(b);
                                            assert(0 <= t < k + 1 && ips_seq[t] == IpAddress::V6(
                                                b,
                                            ));
                                        }
                                    }
                                    assert forall|b: u128|
                                        (zone_has_addr_upto(
                                            cfg@,
                                            *st,
                                            zone@,
                                            IpAddress::V6(b),
                                            i as int,
                                        ) || exists|t: int|
                                            0 <= t < k + 1 && ips_seq[t] == IpAddress::V6(
                                                b,
                                            )) implies #[trigger] v6@.contains(b) by {
                                        if !zone_has_addr_upto(
                                            cfg@,
                                            *st,
                                            zone@,
                                            IpAddress::V6(b),
                                            i as int,
                                        ) && !(exists|t: int|
                                            0 <= t < k && ips_seq[t] == IpAddress::V6(b)) {
                                            let t = choose|t: int|
                                                0 <= t < k + 1 && ips_seq[t] == IpAddress::V6(b);
                                            assert(t == k);
                                            assert(false);
                                        }
                                    }
                                }
                            },
                            IpAddress::V6(x) => {
                                if !contains_u128(&v6, x) {
                                    v6.push(x);
                                    proof {
                                        assert(v6@ == old_v6.push(x));
                                    }
                                }
                                proof {
                                    assert(ips_seq[k as int] == IpAddress::V6(x));
                                    assert forall|b: u128| #[trigger] v6@.contains(b) implies (
                                    zone_has_addr_upto(
                                        cfg@,
                                        *st,
                                        zone@,
                                        IpAddress::V6(b),
                                        i as int,
                                    ) || exists|t: int|
                                        0 <= t < k + 1 && ips_seq[t] == IpAddress::V6(b)) by {
                                        if b == x {
                                            assert(ips_seq[k as int] == IpAddress::V6(b));
                                        } else {
                                            assert(old_v6.contains(b)) by {
                                                let w = choose|w: int|
                                                    0 <= w < v6@.len() && v6@[w] == b;
                                                assert(old_v6[w] == b);
                                            }
                                            if !zone_has_addr_upto(
                                                cfg@,
                                                *st,
                                                zone@,
                                                IpAddress::V6(b),
                                                i as int,
                                            ) {
                                                let t = choose|t: int|
                                                    0 <= t < k && ips_seq[t] == IpAddress::V6(b);
                                                assert(0 <= t < k + 1 && ips_seq[t]
                                                    == IpAddress::V6(b));
                                            }
                                        }
                                    }
                                    assert forall|b: u128|
                                        (zone_has_addr_upto(
                                            cfg@,
                                            *st,
                                            zone@,
                                            IpAddress::V6(b),
                                            i as int,
                                        ) || exists|t: int|
                                            0 <= t < k + 1 && ips_seq[t] == IpAddress::V6(
                                                b,
                                            )) implies #[trigger] v6@.contains(b) by {
                                        if old_v6.contains(b) {
                                            let w = choose|w: int|
                                                0 <= w < old_v6.len() && old_v6[w] == b;
                                            assert(v6@[w] == b);
                                        } else {
                                            let t = choose|t: int|
                                                0 <= t < k + 1 && ips_seq[t] == IpAddress::V6(b);
                                            assert(t == k);
                                            assert(b == x);
                                            assert(v6@.last() == x);
                                        }
                                    }
                                    assert forall|b: u32| #[trigger] v4@.contains(b) implies (
                                    zone_has_addr_upto(
                                        cfg@,
                                        *st,
                                        zone@,
                                        IpAddress::V4(b),
                                        i as int,
                                    ) || exists|t: int|
                                        0 <= t < k + 1 && ips_seq[t] == IpAddress::V4(b)) by {
                                        if !zone_has_addr_upto(
                                            cfg@,
                                            *st,
                                            zone@,
                                            IpAddress::V4(b),
                                            i as int,
                                        ) {
                                            let t = choose|t: int|
                                                0 <= t < k && ips_seq[t] == IpAddress::V4(b);
                                            assert(0 <= t < k + 1 && ips_seq[t] == IpAddress::V4(
                                                b,
                                            ));
                                        }
                                    }
                                    assert forall|b: u32|
                                        (zone_has_addr_upto(
                                            cfg@,
                                            *st,
                                            zone@,
                                            IpAddress::V4(b),
                                            i as int,
                                        ) || exists|t: int|
                                            0 <= t < k + 1 && ips_seq[t] == IpAddress::V4(
                                                b,
                                            )) implies #[trigger] v4@.contains(b) by {
                                        if !zone_has_addr_upto(
                                            cfg@,
                                            *st,
                                            zone@,
                                            IpAddress::V4(b),
                                            i as int,
                                        ) && !(exists|t: int|
                                            0 <= t < k && ips_seq[t] == IpAddress::V4(b)) {
                                            let t = choose|t: int|
                                                0 <= t < k + 1 && ips_seq[t] == IpAddress::V4(b);
                                            assert(t == k);
                                            assert(false);
                                        }
                                    }
                                }
                            },
                        }
                        k += 1;
                    }
                    proof {
                        assert forall|a: u32| #[trigger] v4@.contains(a) implies zone_has_addr_upto(
                            cfg@,
                            *st,
                            zone@,
                            IpAddress::V4(a),
                            i as int + 1,
                        ) by {
                            if zone_has_addr_upto(cfg@, *st, zone@, IpAddress::V4(a), i as int) {
                            } else {
                                let t = choose|t: int|
                                    0 <= t < m && ips_seq[t] == IpAddress::V4(a);
                                assert(ips_seq.contains(IpAddress::V4(a)));
                                assert(st.ips_of(cfg@[i as int]@.name).contains(IpAddress::V4(a)));
                            }
                        }
                        assert forall|a: u32|
                            zone_has_addr_upto(
                                cfg@,
                                *st,
                                zone@,
                                IpAddress::V4(a),
                                i as int + 1,
                            ) implies #[trigger] v4@.contains(a) by {
                            let w = choose|w: int|
                                0 <= w < i as int + 1 && w < cfg@.len()
                                    && cfg@[w]@.nftables_zone == Some(zone@) && st.has_if(
                                    cfg@[w]@.name,
                                ) && st.ips_of(cfg@[w]@.name).contains(IpAddress::V4(a));
                            if w < i as int {
                                assert(zone_has_addr_upto(
                                    cfg@,
                                    *st,
                                    zone@,
                                    IpAddress::V4(a),
                                    i as int,
                                ));
                            } else {
                                let t = choose|t: int|
                                    0 <= t < ips_seq.len() && ips_seq[t] == IpAddress::V4(a);
                                assert(0 <= t < m && ips_seq[t] == IpAddress::V4(a));
                            }
                        }
                        assert forall|a: u128| #[trigger] v6@.contains(a) implies zone_has_addr_upto(
                            cfg@,
                            *st,
                            zone@,
                            IpAddress::V6(a),
                            i as int + 1,
                        ) by {
                            if zone_has_addr_upto(cfg@, *st, zone@, IpAddress::V6(a), i as int) {
                            } else {
                                let t = choose|t: int|
                                    0 <= t < m && ips_seq[t] == IpAddress::V6(a);
                                assert(ips_seq.contains(IpAddress::V6(a)));
                                assert(st.ips_of(cfg@[i as int]@.name).contains(IpAddress::V6(a)));
                            }
                        }
                        assert forall|a: u128|
                            zone_has_addr_upto(
                                cfg@,
                                *st,
                                zone@,
                                IpAddress::V6(a),
                                i as int + 1,
                            ) implies #[trigger] v6@.contains(a) by {
                            let w = choose|w: int|
                                0 <= w < i as int + 1 && w < cfg@.len()
                                    && cfg@[w]@.nftables_zone == Some(zone@) && st.has_if(
                                    cfg@[w]@.name,
                                ) && st.ips_of(cfg@[w]@.name).contains(IpAddress::V6(a));
                            if w < i as int {
                                assert(zone_has_addr_upto(
                                    cfg@,
                                    *st,
                                    zone@,
                                    IpAddress::V6(a),
                                    i as int,
                                ));
                            } else {
                                let t = choose|t: int|
                                    0 <= t < ips_seq.len() && ips_seq[t] == IpAddress::V6(a);
                                assert(0 <= t < m && ips_seq[t] == IpAddress::V6(a));
                            }
                        }
                    }
                },
                None => {
                    proof {
                        assert forall|a: IpAddress|
                            zone_has_addr_upto(cfg@, *st, zone@, a, i as int + 1)
                                == zone_has_addr_upto(cfg@, *st, zone@, a, i as int) by {
                            if zone_has_addr_upto(cfg@, *st, zone@, a, i as int + 1) {
                                let w = choose|w: int|
                                    0 <= w < i as int + 1 && w < cfg@.len()
                                        && cfg@[w]@.nftables_zone == Some(zone@) && st.has_if(
                                        cfg@[w]@.name,
                                    ) && st.ips_of(cfg@[w]@.name).contains(a);
                                assert(w != i as int);
                            }
                        }
                    }
                },
            }
        } else {
            proof {
                assert forall|a: IpAddress|
                    zone_has_addr_upto(cfg@, *st, zone@, a, i as int + 1) == zone_has_addr_upto(
                        cfg@,
                        *st,
                        zone@,
                        a,
                        i as int,
                    ) by {
                    if zone_has_addr_upto(cfg@, *st, zone@, a, i as int + 1) {
                        let w = choose|w: int|
                            0 <= w < i as int + 1 && w < cfg@.len() && cfg@[w]@.nftables_zone
                                == Some(zone@) && st.has_if(cfg@[w]@.name) && st.ips_of(
                                cfg@[w]@.name,
                            ).contains(a);
                        assert(w != i as int);
                    }
                }
            }
        }
        i += 1;
    }
    proof {
        assert forall|a: u32|
            zone_has_addr_upto(cfg@, *st, zone@, IpAddress::V4(a), n as int)
                == zone_has_addr(cfg@, *st, zone@, IpAddress::V4(a)) by {}
        assert forall|a: u128|
            zone_has_addr_upto(cfg@, *st, zone@, IpAddress::V6(a), n as int)
                == zone_has_addr(cfg@, *st, zone@, IpAddress::V6(a)) by {}
    }
    (v4, v6)
}

/// Computes the full projection: one record per declared zone, in order of
/// first appearance, holding the zone's deduplicated v4 and v6 addresses.
/// Every declared zone is materialized, also when its sets are empty.
pub fn compute_projection(cfg: &Vec<InterfaceConfig>, st: &NetworkState) -> (r: Vec<ZoneSets>)
    requires
        st.wf(),
    ensures
        r@.len() == zones_in_order(cfg@).len(),
        forall|k: int| 0 <= k < r@.len() ==> r@[k].zone@ == zones_in_order(cfg@)[k],
        forall|k: int, a: u32|
            0 <= k < r@.len() ==> (#[trigger] r@[k].v4@.contains(a) <==> zone_has_addr(
                cfg@,
                *st,
                r@[k].zone@,
                IpAddress::V4(a),
            )),
        forall|k: int, a: u128|
            0 <= k < r@.len() ==> (#[trigger] r@[k].v6@.contains(a) <==> zone_has_addr(
                cfg@,
                *st,
                r@[k].zone@,
                IpAddress::V6(a),
            )),
        forall|k: int| 0 <= k < r@.len() ==> nodup_u32(r@[k].v4@) && nodup_u128(r@[k].v6@),
{
    let zones = unique_zones(cfg);
    let mut r: Vec<ZoneSets> = Vec::new();
    let n = zones.len();
    let mut k: usize = 0;
    while k < n
        invariant
            st.wf(),
            n == zones@.len(),
            zones.deep_view() == zones_in_order(cfg@),
            k <= n,
            r@.len() == k,
            forall|t: int| 0 <= t < k ==> r@[t].zone@ == zones_in_order(cfg@)[t],
            forall|t: int, a: u32|
                0 <= t < k ==> (#[trigger] r@[t].v4@.contains(a) <==> zone_has_addr(
                    cfg@,
                    *st,
                    r@[t].zone@,
                    IpAddress::V4(a),
                )),
            forall|t: int, a: u128|
                0 <= t < k ==> (#[trigger] r@[t].v6@.contains(a) <==> zone_has_addr(
                    cfg@,
                    *st,
                    r@[t].zone@,
                    IpAddress::V6(a),
                )),
            forall|t: int| 0 <= t < k ==> nodup_u32(r@[t].v4@) && nodup_u128(r@[t].v6@),
        decreases n - k,
    {
        let (v4, v6) = zone_addrs(cfg, st, zones[k].as_str());
        proof {
            assert(zones.deep_view()[k as int] == zones@[k as int]@);
        }
        r.push(ZoneSets { zone: zones[k].clone(), v4, v6 });
        k += 1;
    }
    r
}

// ---------------------------------------------------------------------------
// Projection deltas
// ---------------------------------------------------------------------------

/// The zone projects to the same contents under both configurations and
/// states.
pub open spec fn zone_unchanged(
    cfg0: Seq<InterfaceConfig>,
    st0: NetworkState,
    cfg1: Seq<InterfaceConfig>,
    st1: NetworkState,
    z: Seq<char>,
) -> bool {
    forall|a: IpAddress| zone_has_addr(cfg0, st0, z, a) == zone_has_addr(cfg1, st1, z, a)
}

/// No name occurs twice.
pub open spec fn nodup_names(s: Seq<Seq<char>>) -> bool {
    forall|i: int, j: int| 0 <= i < j < s.len() ==> s[i] != s[j]
}

fn u32_subset(a: &Vec<u32>, b: &Vec<u32>) -> (r: bool)
    ensures
        r == (forall|i: int| 0 <= i < a@.len() ==> b@.contains(#[trigger] a@[i])),
{
    let mut i: usize = 0;
    while i < a.len()
        invariant
            i <= a@.len(),
            forall|j: int| 0 <= j < i ==> b@.contains(#[trigger] a@[j]),
        decreases a@.len() - i,
    {
        if !contains_u32(b, a[i]) {
            return false;
        }
        i += 1;
    }
    true
}

fn u128_subset(a: &Vec<u128>, b: &Vec<u128>) -> (r: bool)
    ensures
        r == (forall|i: int| 0 <= i < a@.len() ==> b@.contains(#[trigger] a@[i])),
{
    let mut i: usize = 0;
    while i < a.len()
        invariant
            i <= a@.len(),
            forall|j: int| 0 <= j < i ==> b@.contains(#[trigger] a@[j]),
        decreases a@.len() - i,
    {
        if !contains_u128(b, a[i]) {
            return false;
        }
        i += 1;
    }
    true
}

fn u32_set_eq(a: &Vec<u32>, b: &Vec<u32>) -> (r: bool)
    ensures
        r == (forall|x: u32| #[trigger] a@.contains(x) == b@.contains(x)),
{
    let s1 = u32_subset(a, b);
    let s2 = u32_subset(b, a);
    proof {
        if s1 && s2 {
            assert forall|x: u32| #[trigger] a@.contains(x) == b@.contains(x) by {
                if a@.contains(x) {
                    let i = choose|i: int| 0 <= i < a@.len() && a@[i] == x;
                    assert(b@.contains(a@[i]));
                }
                if b@.contains(x) {
                    let i = choose|i: int| 0 <= i < b@.len() && b@[i] == x;
                    assert(a@.contains(b@[i]));
                }
            }
        } else if !s1 {
            let i = choose|i: int| 0 <= i < a@.len() && !b@.contains(a@[i]);
            assert(a@.contains(a@[i]));
        } else {
            let i = choose|i: int| 0 <= i < b@.len() && !a@.contains(b@[i]);
            assert(b@.contains(b@[i]));
        }
    }
    s1 && s2
}

fn u128_set_eq(a: &Vec<u128>, b: &Vec<u128>) -> (r: bool)
    ensures
        r == (forall|x: u128| #[trigger] a@.contains(x) == b@.contains(x)),
{
    let s1 = u128_subset(a, b);
    let s2 = u128_subset(b, a);
    proof {
        if s1 && s2 {
            assert forall|x: u128| #[trigger] a@.contains(x) == b@.contains(x) by {
                if a@.contains(x) {
                    let i = choose|i: int| 0 <= i < a@.len() && a@[i] == x;
                    assert(b@.contains(a@[i]));
                }
                if b@.contains(x) {
                    let i = choose|i: int| 0 <= i < b@.len() && b@[i] == x;
                    assert(a@.contains(b@[i]));
                }
            }
        } else if !s1 {
            let i = choose|i: int| 0 <= i < a@.len() && !b@.contains(a@[i]);
            assert(a@.contains(a@[i]));
        } else {
            let i = choose|i: int| 0 <= i < b@.len() && !a@.contains(b@[i]);
            assert(b@.contains(b@[i]));
        }
    }
    s1 && s2
}

/// Decides whether the named zone projects differently under the two
/// configuration-and-state pairs.
fn zone_changed(
    cfg0: &Vec<InterfaceConfig>,
    st0: &NetworkState,
    cfg1: &Vec<InterfaceConfig>,
    st1: &NetworkState,
    z: &str,
) -> (r: bool)
    requires
        st0.wf(),
        st1.wf(),
    ensures
        r == !zone_unchanged(cfg0@, *st0, cfg1@, *st1, z@),
{
    let (a4, a6) = zone_addrs(cfg0, st0, z);
    let (b4, b6) = zone_addrs(cfg1, st1, z);
    let e4 = u32_set_eq(&a4, &b4);
    let e6 = u128_set_eq(&a6, &b6);
    proof {
        if e4 && e6 {
            assert forall|a: IpAddress|
                zone_has_addr(cfg0@, *st0, z@, a) == zone_has_addr(cfg1@, *st1, z@, a) by {
                match a {
                    IpAddress::V4(x) => {
                        assert(a4@.contains(x) == b4@.contains(x));
                    },
                    IpAddress::V6(x) => {
                        assert(a6@.contains(x) == b6@.contains(x));
                    },
                }
            }
        } else if !e4 {
            let x = choose|x: u32| a4@.contains(x) != b4@.contains(x);
            assert(zone_has_addr(cfg0@, *st0, z@, IpAddress::V4(x)) != zone_has_addr(
                cfg1@,
                *st1,
                z@,
                IpAddress::V4(x),
            ));
        } else {
            let x = choose|x: u128| a6@.contains(x) != b6@.contains(x);
            assert(zone_has_addr(cfg0@, *st0, z@, IpAddress::V6(x)) != zone_has_addr(
                cfg1@,
                *st1,
                z@,
                IpAddress::V6(x),
            ));
        }
    }
    !(e4 && e6)
}

/// Every address in a zone comes from a configuration row that declares
/// the zone; an undeclared zone therefore projects to nothing.
pub proof fn lemma_undeclared_zone_empty(
    cfg: Seq<InterfaceConfig>,
    st: NetworkState,
    z: Seq<char>,
)
    requires
        !zone_declared(cfg, z),
    ensures
        forall|a: IpAddress| !zone_has_addr(cfg, st, z, a),
{
    assert forall|a: IpAddress| !zone_has_addr(cfg, st, z, a) by {
        if zone_has_addr(cfg, st, z, a) {
            let i = choose|i: int|
                0 <= i < cfg.len() && cfg[i]@.nftables_zone == Some(z) && st.has_if(cfg[i]@.name)
                    && st.ips_of(cfg[i]@.name).contains(a);
            assert(zone_declared(cfg, z));
        }
    }
}

/// The zones declared by either configuration, each once.
fn union_zones(cfg0: &Vec<InterfaceConfig>, cfg1: &Vec<InterfaceConfig>) -> (r: Vec<String>)
    ensures
        forall|z: Seq<char>|
            #[trigger] r.deep_view().contains(z) <==> (zone_declared(cfg0@, z) || zone_declared(
                cfg1@,
                z,
            )),
        nodup_names(r.deep_view()),
{
    proof {
        lemma_zones_in_order(cfg0@);
        lemma_zones_in_order(cfg1@);
    }
    let mut all = unique_zones(cfg0);
    let more = unique_zones(cfg1);
    let n = more.len();
    let mut i: usize = 0;
    while i < n
        invariant
            n == more@.len(),
            more.deep_view() == zones_in_order(cfg1@),
            i <= n,
            nodup_names(all.deep_view()),
            forall|z: Seq<char>|
                #[trigger] all.deep_view().contains(z) <==> (zones_in_order(cfg0@).contains(z)
                    || exists|j: int| 0 <= j < i && zones_in_order(cfg1@)[j] == z),
        decreases n - i,
    {
        let ghost pre = all.deep_view();
        if !vec_string_contains(&all, more[i].as_str()) {
            all.push(more[i].clone());
            proof {
                assert(all.deep_view() =~= pre.push(more@[i as int]@));
                assert(more@[i as int]@ == zones_in_order(cfg1@)[i as int]);
                assert forall|z: Seq<char>| #[trigger] all.deep_view().contains(z) implies (
                zones_in_order(cfg0@).contains(z) || exists|j: int|
                    0 <= j < i + 1 && zones_in_order(cfg1@)[j] == z) by {
                    let w = choose|w: int|
                        0 <= w < all.deep_view().len() && all.deep_view()[w] == z;
                    if w < pre.len() {
                        assert(pre.contains(z)) by {
                            assert(pre[w] == z);
                        }
                    } else {
                        assert(z == zones_in_order(cfg1@)[i as int]);
                    }
                }
                assert forall|z: Seq<char>|
                    (zones_in_order(cfg0@).contains(z) || exists|j: int|
                        0 <= j < i + 1 && zones_in_order(cfg1@)[j] == z) implies #[trigger] all.deep_view().contains(
                    z,
                ) by {
                    if zones_in_order(cfg0@).contains(z) || exists|j: int|
                        0 <= j < i && zones_in_order(cfg1@)[j] == z {
                        assert(pre.contains(z));
                        let w = choose|w: int| 0 <= w < pre.len() && pre[w] == z;
                        assert(all.deep_view()[w] == z);
                    } else {
                        let j = choose|j: int| 0 <= j < i + 1 && zones_in_order(cfg1@)[j] == z;
                        assert(j == i as int);
                        assert(all.deep_view().last() == z);
                    }
                }
                assert(nodup_names(all.deep_view())) by {
                    assert(!pre.contains(more@[i as int]@));
                    assert forall|x: int, y: int|
                        0 <= x < y < all.deep_view().len() implies all.deep_view()[x]
                        != all.deep_view()[y] by {
                        if y < pre.len() {
                            assert(pre[x] != pre[y]);
                        } else {
                            if all.deep_view()[x] == all.deep_view()[y] {
                                assert(pre.contains(pre[x])) by {
                                    assert(pre[x] == pre[x]);
                                }
                            }
                        }
                    }
                }
            }
        } else {
            proof {
                let ghost zc = more@[i as int]@;
                assert(zc == zones_in_order(cfg1@)[i as int]);
                assert forall|z: Seq<char>|
                    (zones_in_order(cfg0@).contains(z) || exists|j: int|
                        0 <= j < i + 1 && zones_in_order(cfg1@)[j] == z) implies #[trigger] all.deep_view().contains(
                    z,
                ) by {
                    if !(zones_in_order(cfg0@).contains(z) || exists|j: int|
                        0 <= j < i && zones_in_order(cfg1@)[j] == z) {
                        let j = choose|j: int| 0 <= j < i + 1 && zones_in_order(cfg1@)[j] == z;
                        assert(j == i as int);
                        assert(z == zc);
                    }
                }
            }
        }
        i += 1;
    }
    proof {
        assert forall|z: Seq<char>| #[trigger] all.deep_view().contains(z) implies (zone_declared(
            cfg0@,
            z,
        ) || zone_declared(cfg1@, z)) by {
            if !zones_in_order(cfg0@).contains(z) {
                let j = choose|j: int| 0 <= j < n && zones_in_order(cfg1@)[j] == z;
                assert(zones_in_order(cfg1@).contains(z)) by {
                    assert(zones_in_order(cfg1@)[j] == z);
                }
            }
        }
        assert forall|z: Seq<char>| (zone_declared(cfg0@, z) || zone_declared(cfg1@, z))
            implies #[trigger] all.deep_view().contains(z) by {
            if zone_declared(cfg1@, z) && !zone_declared(cfg0@, z) {
                assert(zones_in_order(cfg1@).contains(z));
                let j = choose|j: int|
                    0 <= j < zones_in_order(cfg1@).len() && zones_in_order(cfg1@)[j] == z;
            }
        }
    }
    all
}

/// The zones whose projected contents differ between the two
/// configuration-and-state pairs, each named once.
pub fn diff_zones(
    cfg0: &Vec<InterfaceConfig>,
    st0: &NetworkState,
    cfg1: &Vec<InterfaceConfig>,
    st1: &NetworkState,
) -> (r: Vec<String>)
    requires
        st0.wf(),
        st1.wf(),
    ensures
        forall|z: Seq<char>|
            #[trigger] r.deep_view().contains(z) <==> !zone_unchanged(cfg0@, *st0, cfg1@, *st1, z),
        nodup_names(r.deep_view()),
{
    let all = union_zones(cfg0, cfg1);
    let mut out: Vec<String> = Vec::new();
    let n = all.len();
    let mut i: usize = 0;
    while i < n
        invariant
            st0.wf(),
            st1.wf(),
            n == all@.len(),
            i <= n,
            nodup_names(all.deep_view()),
            forall|z: Seq<char>|
                #[trigger] all.deep_view().contains(z) <==> (zone_declared(cfg0@, z)
                    || zone_declared(cfg1@, z)),
            forall|z: Seq<char>|
                #[trigger] out.deep_view().contains(z) <==> ((exists|j: int|
                    0 <= j < i && all.deep_view()[j] == z) && !zone_unchanged(
                    cfg0@,
                    *st0,
                    cfg1@,
                    *st1,
                    z,
                )),
            nodup_names(out.deep_view()),
        decreases n - i,
    {
        let ghost pre = out.deep_view();
        let ghost zc = all@[i as int]@;
        let changed = zone_changed(cfg0, st0, cfg1, st1, all[i].as_str());
        if changed {
            out.push(all[i].clone());
            proof {
                assert(out.deep_view() =~= pre.push(zc));
                assert(all.deep_view()[i as int] == zc);
                assert forall|z: Seq<char>| #[trigger] out.deep_view().contains(z) implies ((exists|
                    j: int,
                |
                    0 <= j < i + 1 && all.deep_view()[j] == z) && !zone_unchanged(
                    cfg0@,
                    *st0,
                    cfg1@,
                    *st1,
                    z,
                )) by {
                    let w = choose|w: int|
                        0 <= w < out.deep_view().len() && out.deep_view()[w] == z;
                    if w < pre.len() {
                        assert(pre.contains(z)) by {
                            assert(pre[w] == z);
                        }
                        let j = choose|j: int| 0 <= j < i && all.deep_view()[j] == z;
                        assert(0 <= j < i + 1 && all.deep_view()[j] == z);
                    } else {
                        assert(z == zc);
                        assert(all.deep_view()[i as int] == z);
                    }
                }
                assert forall|z: Seq<char>|
                    ((exists|j: int| 0 <= j < i + 1 && all.deep_view()[j] == z) && !zone_unchanged(
                        cfg0@,
                        *st0,
                        cfg1@,
                        *st1,
                        z,
                    )) implies #[trigger] out.deep_view().contains(z) by {
                    let j = choose|j: int| 0 <= j < i + 1 && all.deep_view()[j] == z;
                    if j < i as int {
                        assert(pre.contains(z));
                        let w = choose|w: int| 0 <= w < pre.len() && pre[w] == z;
                        assert(out.deep_view()[w] == z);
                    } else {
                        assert(z == zc);
                        assert(out.deep_view().last() == z);
                    }
                }
                assert(nodup_names(out.deep_view())) by {
                    assert(!pre.contains(zc)) by {
                        if pre.contains(zc) {
                            let j = choose|j: int| 0 <= j < i && all.deep_view()[j] == zc;
                            assert(all.deep_view()[j] != all.deep_view()[i as int]);
                        }
                    }
                    assert forall|x: int, y: int|
                        0 <= x < y < out.deep_view().len() implies out.deep_view()[x]
                        != out.deep_view()[y] by {
                        if y < pre.len() {
                            assert(pre[x] != pre[y]);
                        } else {
                            if out.deep_view()[x] == out.deep_view()[y] {
                                assert(pre.contains(pre[x])) by {
                                    assert(pre[x] == pre[x]);
                                }
                            }
                        }
                    }
                }
            }
        } else {
            proof {
                assert(all.deep_view()[i as int] == zc);
                assert forall|z: Seq<char>|
                    ((exists|j: int| 0 <= j < i + 1 && all.deep_view()[j] == z) && !zone_unchanged(
                        cfg0@,
                        *st0,
                        cfg1@,
                        *st1,
                        z,
                    )) implies #[trigger] out.deep_view().contains(z) by {
                    let j = choose|j: int| 0 <= j < i + 1 && all.deep_view()[j] == z;
                    if j == i as int {
                        assert(z == zc);
                        assert(false);
                    } else {
                        assert(0 <= j < i && all.deep_view()[j] == z);
                    }
                }
            }
        }
        i += 1;
    }
    proof {
        assert forall|z: Seq<char>| #[trigger] out.deep_view().contains(z) implies !zone_unchanged(
            cfg0@,
            *st0,
            cfg1@,
            *st1,
            z,
        ) by {}
        assert forall|z: Seq<char>| !zone_unchanged(cfg0@, *st0, cfg1@, *st1, z)
            implies #[trigger] out.deep_view().contains(z) by {
            let a = choose|a: IpAddress|
                zone_has_addr(cfg0@, *st0, z, a) != zone_has_addr(cfg1@, *st1, z, a);
            if !zone_declared(cfg0@, z) && !zone_declared(cfg1@, z) {
                lemma_undeclared_zone_empty(cfg0@, *st0, z);
                lemma_undeclared_zone_empty(cfg1@, *st1, z);
                assert(false);
            }
            assert(all.deep_view().contains(z));
            let j = choose|j: int| 0 <= j < all.deep_view().len() && all.deep_view()[j] == z;
        }
    }
    out
}

// ---------------------------------------------------------------------------
// Snapshots and equality helpers
// ---------------------------------------------------------------------------

/// The two interface tables hold the same names and address sets, row by
/// row.
pub open spec fn if_entries_equiv(s1: Seq<InterfaceEntry>, s2: Seq<InterfaceEntry>) -> bool {
    &&& s1.len() == s2.len()
    &&& forall|i: int|
        0 <= i < s1.len() ==> #[trigger] s1[i].name@ == s2[i].name@ && s1[i].ips@ == s2[i].ips@
}

/// States whose interface tables agree row by row project every zone the
/// same way.
pub proof fn lemma_equiv_zone(cfg: Seq<InterfaceConfig>, s1: NetworkState, s2: NetworkState)
    requires
        forall|i: int, j: int|
            0 <= i < j < s1.interface_ips@.len() ==> s1.interface_ips@[i].name@
                != s1.interface_ips@[j].name@,
        if_entries_equiv(s1.interface_ips@, s2.interface_ips@),
    ensures
        forall|n: Seq<char>| #[trigger] s1.has_if(n) == s2.has_if(n),
        forall|n: Seq<char>| s1.has_if(n) ==> #[trigger] s1.ips_of(n) == s2.ips_of(n),
        forall|z: Seq<char>, a: IpAddress| #[trigger]
            zone_has_addr(cfg, s1, z, a) == zone_has_addr(cfg, s2, z, a),
{
    assert forall|n: Seq<char>| #[trigger] s1.has_if(n) == s2.has_if(n) by {
        if s1.has_if(n) {
            let i = choose|i: int|
                0 <= i < s1.interface_ips@.len() && s1.interface_ips@[i].name@ == n;
            assert(s2.interface_ips@[i].name@ == n);
        }
        if s2.has_if(n) {
            let i = choose|i: int|
                0 <= i < s2.interface_ips@.len() && s2.interface_ips@[i].name@ == n;
            assert(s1.interface_ips@[i].name@ == n);
        }
    }
    assert forall|n: Seq<char>| s1.has_if(n) implies #[trigger] s1.ips_of(n) == s2.ips_of(n) by {
        let i = choose|i: int| 0 <= i < s1.interface_ips@.len() && s1.interface_ips@[i].name@ == n;
        let j = choose|j: int| 0 <= j < s2.interface_ips@.len() && s2.interface_ips@[j].name@ == n;
        assert(s1.interface_ips@[j].name@ == n);
        if i < j {
            assert(s1.interface_ips@[i].name@ != s1.interface_ips@[j].name@);
        } else if j < i {
            assert(s1.interface_ips@[j].name@ != s1.interface_ips@[i].name@);
        }
        assert(s1.ips_of(n) == s1.interface_ips@[i].ips@);
        assert(s2.ips_of(n) == s2.interface_ips@[j].ips@);
    }
    assert forall|z: Seq<char>, a: IpAddress| #[trigger]
        zone_has_addr(cfg, s1, z, a) == zone_has_addr(cfg, s2, z, a) by {
        if zone_has_addr(cfg, s1, z, a) {
            let i = choose|i: int|
                0 <= i < cfg.len() && cfg[i]@.nftables_zone == Some(z) && s1.has_if(cfg[i]@.name)
                    && s1.ips_of(cfg[i]@.name).contains(a);
            assert(s2.has_if(cfg[i]@.name) && s2.ips_of(cfg[i]@.name).contains(a));
        }
        if zone_has_addr(cfg, s2, z, a) {
            let i = choose|i: int|
                0 <= i < cfg.len() && cfg[i]@.nftables_zone == Some(z) && s2.has_if(cfg[i]@.name)
                    && s2.ips_of(cfg[i]@.name).contains(a);
            assert(s1.has_if(cfg[i]@.name) && s1.ips_of(cfg[i]@.name).contains(a));
        }
    }
}

/// A by-value copy of an address list.
pub fn copy_ip_vec(v: &Vec<IpAddress>) -> (r: Vec<IpAddress>)
    ensures
        r@ == v@,
{
    let mut r: Vec<IpAddress> = Vec::new();
    let n = v.len();
    let mut i: usize = 0;
    while i < n
        invariant
            n == v@.len(),
            i <= n,
            r@ == v@.take(i as int),
        decreases n - i,
    {
        r.push(v[i]);
        proof {
            assert(r@ =~= v@.take(i as int + 1));
        }
        i += 1;
    }
    proof {
        assert(v@.take(n as int) =~= v@);
    }
    r
}

/// A snapshot of the network state whose tables agree with the original
/// row by row.
fn clone_network_state(st: &NetworkState) -> (r: NetworkState)
    requires
        st.wf(),
    ensures
        r.wf(),
        if_entries_equiv(r.interface_ips@, st.interface_ips@),
        r.if_index_to_name@ == st.if_index_to_name@,
{
    let mut ifs: Vec<InterfaceEntry> = Vec::new();
    let n = st.interface_ips.len();
    let mut i: usize = 0;
    while i < n
        invariant
            n == st.interface_ips@.len(),
            i <= n,
            ifs@.len() == i,
            forall|j: int|
                0 <= j < i ==> #[trigger] ifs@[j].name@ == st.interface_ips@[j].name@
                    && ifs@[j].ips@ == st.interface_ips@[j].ips@,
        decreases n - i,
    {
        let name = st.interface_ips[i].name.clone();
        let ips = copy_ip_vec(&st.interface_ips[i].ips);
        let ghost pre_ifs = ifs@;
        ifs.push(InterfaceEntry { name, ips });
        proof {
            assert(ifs@.len() == i + 1);
            assert(ifs@[i as int].name@ == st.interface_ips@[i as int].name@);
            assert(ifs@[i as int].ips@ == st.interface_ips@[i as int].ips@);
            assert forall|j: int|
                0 <= j < i + 1 implies #[trigger] ifs@[j].name@ == st.interface_ips@[j].name@
                && ifs@[j].ips@ == st.interface_ips@[j].ips@ by {
                if j < i as int {
                    assert(ifs@[j] == pre_ifs[j]);
                    assert(pre_ifs[j].name@ == st.interface_ips@[j].name@);
                }
            }
        }
        i += 1;
    }
    let mut links: Vec<LinkEntry> = Vec::new();
    let m = st.if_index_to_name.len();
    let mut k: usize = 0;
    while k < m
        invariant
            m == st.if_index_to_name@.len(),
            k <= m,
            links@ == st.if_index_to_name@.take(k as int),
        decreases m - k,
    {
        let name = st.if_index_to_name[k].name.clone();
        links.push(LinkEntry { index: st.if_index_to_name[k].index, name });
        proof {
            assert(links@ =~= st.if_index_to_name@.take(k as int + 1));
        }
        k += 1;
    }
    proof {
        assert(st.if_index_to_name@.take(m as int) =~= st.if_index_to_name@);
    }
    let r = NetworkState { interface_ips: ifs, if_index_to_name: links };
    proof {
        assert forall|a: int, b: int|
            0 <= a < b < r.interface_ips@.len() implies r.interface_ips@[a].name@
            != r.interface_ips@[b].name@ by {
            assert(st.interface_ips@[a].name@ != st.interface_ips@[b].name@);
        }
    }
    r
}

/// Equality of two configuration rows, by content.
pub open spec fn iface_equiv(a: InterfaceConfigView, b: InterfaceConfigView) -> bool {
    &&& a.name == b.name
    &&& a.dhcp == b.dhcp
    &&& a.address == b.address
    &&& a.nftables_zone == b.nftables_zone
}

/// Equality of two configurations, by content.
pub open spec fn config_equiv(a: AppConfigView, b: AppConfigView) -> bool {
    &&& a.interfaces.len() == b.interfaces.len()
    &&& forall|i: int|
        0 <= i < a.interfaces.len() ==> iface_equiv(
            #[trigger] a.interfaces[i],
            b.interfaces[i],
        )
    &&& a.socket_path == b.socket_path
    &&& a.nftables_rules_path == b.nftables_rules_path
}

fn opt_string_eq(a: &Option<String>, b: &Option<String>) -> (r: bool)
    ensures
        r == (a.deep_view() == b.deep_view()),
{
    match (a, b) {
        (Option::None, Option::None) => true,
        (Option::Some(x), Option::Some(y)) => {
            let e = crate::types::str_eq_str(x.as_str(), y.as_str());
            proof {
                if e {
                    assert(a.deep_view() == b.deep_view());
                }
            }
            e
        },
        _ => {
            proof {
                assert(a.deep_view() != b.deep_view());
            }
            false
        },
    }
}

fn opt_bool_eq(a: &Option<bool>, b: &Option<bool>) -> (r: bool)
    ensures
        r == (*a == *b),
{
    match (a, b) {
        (Option::None, Option::None) => true,
        (Option::Some(x), Option::Some(y)) => *x == *y,
        _ => false,
    }
}

fn iface_eq(a: &InterfaceConfig, b: &InterfaceConfig) -> (r: bool)
    ensures
        r == iface_equiv(a@, b@),
{
    crate::types::str_eq_str(a.name.as_str(), b.name.as_str()) && opt_bool_eq(&a.dhcp, &b.dhcp)
        && opt_string_eq(&a.address, &b.address) && opt_string_eq(
        &a.nftables_zone,
        &b.nftables_zone,
    )
}

/// Content equality of two configurations.
pub fn config_equal(a: &AppConfig, b: &AppConfig) -> (r: bool)
    ensures
        r == config_equiv(a@, b@),
{
    if a.interfaces.len() != b.interfaces.len() {
        return false;
    }
    let n = a.interfaces.len();
    let mut i: usize = 0;
    while i < n
        invariant
            n == a.interfaces@.len(),
            n == b.interfaces@.len(),
            i <= n,
            forall|j: int|
                0 <= j < i ==> iface_equiv(
                    #[trigger] a@.interfaces[j],
                    b@.interfaces[j],
                ),
        decreases n - i,
    {
        if !iface_eq(&a.interfaces[i], &b.interfaces[i]) {
            proof {
                assert(!iface_equiv(a@.interfaces[i as int], b@.interfaces[i as int]));
            }
            return false;
        }
        i += 1;
    }
    opt_string_eq(&a.socket_path, &b.socket_path) && opt_string_eq(
        &a.nftables_rules_path,
        &b.nftables_rules_path,
    )
}

// ---------------------------------------------------------------------------
// The application state and its reducer mutations
// ---------------------------------------------------------------------------

/// A tracked container and its primary address.
pub struct ContainerEntry {
    pub id: String,
    pub ip: IpAddress,
}

/// Ids are unique.
pub open spec fn cont_wf(s: Seq<ContainerEntry>) -> bool {
    forall|i: int, j: int| 0 <= i < j < s.len() ==> s[i].id@ != s[j].id@
}

/// The table tracks this container.
pub open spec fn cont_has(s: Seq<ContainerEntry>, id: Seq<char>) -> bool {
    exists|i: int| 0 <= i < s.len() && s[i].id@ == id
}

/// The address tracked for a container.
pub open spec fn cont_ip(s: Seq<ContainerEntry>, id: Seq<char>) -> IpAddress {
    let i = choose|i: int| 0 <= i < s.len() && s[i].id@ == id;
    s[i].ip
}

/// In a well-formed table, any row with a matching id is the row
/// `cont_ip` speaks about.
pub proof fn lemma_cont_at(s: Seq<ContainerEntry>, i: int)
    requires
        cont_wf(s),
        0 <= i < s.len(),
    ensures
        cont_has(s, s[i].id@),
        cont_ip(s, s[i].id@) == s[i].ip,
{
    let id = s[i].id@;
    assert(cont_has(s, id));
    let j = choose|j: int| 0 <= j < s.len() && s[j].id@ == id;
    if i < j {
        assert(s[i].id@ != s[j].id@);
    } else if j < i {
        assert(s[j].id@ != s[i].id@);
    }
}

fn cont_find(v: &Vec<ContainerEntry>, id: &str) -> (r: Option<usize>)
    ensures
        match r {
            Some(i) => i < v@.len() && v@[i as int].id@ == id@,
            None => !cont_has(v@, id@),
        },
{
    let n = v.len();
    let mut i: usize = 0;
    while i < n
        invariant
            n == v@.len(),
            i <= n,
            forall|j: int| 0 <= j < i ==> v@[j].id@ != id@,
        decreases n - i,
    {
        if crate::types::str_eq_str(v[i].id.as_str(), id) {
            return Some(i);
        }
        i += 1;
    }
    None
}

/// Tracks (or re-tracks) a container's address.
fn cont_set(v: &mut Vec<ContainerEntry>, id: String, ip: IpAddress)
    requires
        cont_wf(old(v)@),
    ensures
        cont_wf(final(v)@),
        cont_has(final(v)@, id@),
        cont_ip(final(v)@, id@) == ip,
        forall|x: Seq<char>| x != id@ ==> cont_has(final(v)@, x) == cont_has(old(v)@, x),
        forall|x: Seq<char>|
            x != id@ && cont_has(old(v)@, x) ==> cont_ip(final(v)@, x) == cont_ip(old(v)@, x),
{
    let ghost pre = v@;
    match cont_find(v, id.as_str()) {
        Some(i) => {
            v.set(i, ContainerEntry { id, ip });
            proof {
                let s = v@;
                assert forall|a: int, b: int| 0 <= a < b < s.len() implies s[a].id@
                    != s[b].id@ by {
                    if a != i as int && b != i as int {
                        assert(pre[a].id@ != pre[b].id@);
                    } else if a == i as int {
                        assert(pre[i as int].id@ != pre[b].id@);
                    } else {
                        assert(pre[a].id@ != pre[i as int].id@);
                    }
                }
                lemma_cont_at(s, i as int);
                assert forall|x: Seq<char>| x != id@ implies cont_has(s, x) == cont_has(
                    pre,
                    x,
                ) by {
                    if cont_has(s, x) {
                        let w = choose|w: int| 0 <= w < s.len() && s[w].id@ == x;
                        assert(pre[w].id@ == x);
                    }
                    if cont_has(pre, x) {
                        let w = choose|w: int| 0 <= w < pre.len() && pre[w].id@ == x;
                        assert(w != i as int);
                        assert(s[w].id@ == x);
                    }
                }
                assert forall|x: Seq<char>| x != id@ && cont_has(pre, x) implies cont_ip(s, x)
                    == cont_ip(pre, x) by {
                    let w = choose|w: int| 0 <= w < pre.len() && pre[w].id@ == x;
                    assert(w != i as int);
                    assert(s[w].id@ == x);
                    lemma_cont_at(pre, w);
                    lemma_cont_at(s, w);
                }
            }
        },
        None => {
            let ghost l = v@.len() as int;
            v.push(ContainerEntry { id, ip });
            proof {
                let s = v@;
                assert forall|a: int, b: int| 0 <= a < b < s.len() implies s[a].id@
                    != s[b].id@ by {
                    if b < l {
                        assert(pre[a].id@ != pre[b].id@);
                    } else {
                        assert(cont_has(pre, pre[a].id@)) by {
                            assert(0 <= a < pre.len() && pre[a].id@ == pre[a].id@);
                        }
                    }
                }
                lemma_cont_at(s, l);
                assert forall|x: Seq<char>| x != id@ implies cont_has(s, x) == cont_has(
                    pre,
                    x,
                ) by {
                    if cont_has(s, x) {
                        let w = choose|w: int| 0 <= w < s.len() && s[w].id@ == x;
                        assert(w != l);
                        assert(pre[w].id@ == x);
                    }
                    if cont_has(pre, x) {
                        let w = choose|w: int| 0 <= w < pre.len() && pre[w].id@ == x;
                        assert(s[w].id@ == x);
                    }
                }
                assert forall|x: Seq<char>| x != id@ && cont_has(pre, x) implies cont_ip(s, x)
                    == cont_ip(pre, x) by {
                    let w = choose|w: int| 0 <= w < pre.len() && pre[w].id@ == x;
                    assert(s[w].id@ == x);
                    lemma_cont_at(pre, w);
                    lemma_cont_at(s, w);
                }
            }
        },
    }
}

/// Stops tracking a container; reports whether it was tracked.
fn cont_remove(v: &mut Vec<ContainerEntry>, id: &str) -> (removed: bool)
    requires
        cont_wf(old(v)@),
    ensures
        cont_wf(final(v)@),
        !cont_has(final(v)@, id@),
        removed == cont_has(old(v)@, id@),
        forall|x: Seq<char>| x != id@ ==> cont_has(final(v)@, x) == cont_has(old(v)@, x),
        forall|x: Seq<char>|
            x != id@ && cont_has(old(v)@, x) ==> cont_ip(final(v)@, x) == cont_ip(old(v)@, x),
{
    let ghost pre = v@;
    match cont_find(v, id) {
        Some(i) => {
            v.remove(i);
            proof {
                let s = v@;
                assert(s == pre.remove(i as int));
                assert forall|w: int| 0 <= w < s.len() implies #[trigger] s[w] == pre[if w
                    < i as int {
                    w
                } else {
                    w + 1
                }] by {}
                assert(cont_wf(s));
                assert(!cont_has(s, id@)) by {
                    if cont_has(s, id@) {
                        let w = choose|w: int| 0 <= w < s.len() && s[w].id@ == id@;
                        let w0 = if w < i as int { w } else { w + 1 };
                        assert(pre[w0].id@ == id@);
                        if w0 < i as int {
                            assert(pre[w0].id@ != pre[i as int].id@);
                        } else {
                            assert(pre[i as int].id@ != pre[w0].id@);
                        }
                    }
                }
                assert(cont_has(pre, id@));
                assert forall|x: Seq<char>| x != id@ implies cont_has(s, x) == cont_has(
                    pre,
                    x,
                ) by {
                    if cont_has(s, x) {
                        let w = choose|w: int| 0 <= w < s.len() && s[w].id@ == x;
                        let w0 = if w < i as int { w } else { w + 1 };
                        assert(pre[w0].id@ == x);
                    }
                    if cont_has(pre, x) {
                        let w = choose|w: int| 0 <= w < pre.len() && pre[w].id@ == x;
                        assert(w != i as int);
                        let w1 = if w < i as int { w } else { w - 1 };
                        assert(s[w1].id@ == x);
                    }
                }
                assert forall|x: Seq<char>| x != id@ && cont_has(pre, x) implies cont_ip(s, x)
                    == cont_ip(pre, x) by {
                    let w = choose|w: int| 0 <= w < pre.len() && pre[w].id@ == x;
                    assert(w != i as int);
                    let w1 = if w < i as int { w } else { w - 1 };
                    assert(s[w1].id@ == x);
                    lemma_cont_at(pre, w);
                    lemma_cont_at(s, w1);
                }
            }
            true
        },
        None => false,
    }
}

/// Which zones' projected contents changed, and whether the kernel
/// structure must be ensured anew (only a configuration change forces
/// that).
pub struct ProjectionDelta {
    pub changed_zones: Vec<String>,
    pub full_refresh: bool,
}

impl ProjectionDelta {
    /// The changed-zone list names exactly the zones whose projection
    /// differs between the two configuration-and-state pairs.
    pub open spec fn delta_ok(
        self,
        cfg0: Seq<InterfaceConfig>,
        st0: NetworkState,
        cfg1: Seq<InterfaceConfig>,
        st1: NetworkState,
    ) -> bool {
        forall|z: Seq<char>|
            #[trigger] self.changed_zones.deep_view().contains(z) <==> !zone_unchanged(
                cfg0,
                st0,
                cfg1,
                st1,
                z,
            )
    }

    /// Nothing changed and no structural refresh is owed.
    pub open spec fn is_empty_spec(self) -> bool {
        self.changed_zones@.len() == 0 && !self.full_refresh
    }

    pub fn is_empty(&self) -> (r: bool)
        ensures
            r == self.is_empty_spec(),
    {
        self.changed_zones.len() == 0 && !self.full_refresh
    }
}

/// What applying one watcher event does to the network state: an
/// address event replaces the interface's full set; a link-down event
/// removes the interface; a link-up event changes nothing.
pub open spec fn network_event_applied(
    pre: NetworkState,
    post: NetworkState,
    ev: NetworkEvent,
) -> bool {
    match ev {
        NetworkEvent::IpUpdate { interface, ips } => {
            &&& post.has_if(interface@)
            &&& post.ips_of(interface@) == ips@
            &&& forall|n: Seq<char>| n != interface@ ==> post.has_if(n) == pre.has_if(n)
            &&& forall|n: Seq<char>|
                n != interface@ && pre.has_if(n) ==> post.ips_of(n) == pre.ips_of(n)
        },
        NetworkEvent::LinkChanged { name, is_up } => {
            if is_up {
                post == pre
            } else {
                &&& !post.has_if(name@)
                &&& forall|n: Seq<char>| n != name@ ==> post.has_if(n) == pre.has_if(n)
                &&& forall|n: Seq<char>|
                    n != name@ && pre.has_if(n) ==> post.ips_of(n) == pre.ips_of(n)
            }
        },
    }
}

/// What applying one container event does to the tracked containers: a
/// start with an address tracks it, one without changes nothing, a stop
/// forgets the container.
pub open spec fn docker_event_applied(
    pre: Seq<ContainerEntry>,
    post: Seq<ContainerEntry>,
    ev: DockerEvent,
) -> bool {
    match ev {
        DockerEvent::ContainerStarted(id, ip_opt) => match ip_opt {
            Some(ip) => {
                &&& cont_has(post, id@)
                &&& cont_ip(post, id@) == ip
                &&& forall|x: Seq<char>| x != id@ ==> cont_has(post, x) == cont_has(pre, x)
                &&& forall|x: Seq<char>|
                    x != id@ && cont_has(pre, x) ==> cont_ip(post, x) == cont_ip(pre, x)
            },
            None => post == pre,
        },
        DockerEvent::ContainerStopped(id) => {
            &&& !cont_has(post, id@)
            &&& forall|x: Seq<char>| x != id@ ==> cont_has(post, x) == cont_has(pre, x)
            &&& forall|x: Seq<char>|
                x != id@ && cont_has(pre, x) ==> cont_ip(post, x) == cont_ip(pre, x)
        },
    }
}

/// The single authoritative model: configuration snapshot, network state
/// and tracked containers.  Mutated only through `apply_network_event`,
/// `apply_docker_event` and `reload`.
pub struct AppState {
    pub config: AppConfig,
    pub network_state: NetworkState,
    pub container_ips: Vec<ContainerEntry>,
}

impl AppState {
    pub open spec fn wf(self) -> bool {
        self.network_state.wf() && cont_wf(self.container_ips@)
    }

    pub open spec fn has_container(self, id: Seq<char>) -> bool {
        cont_has(self.container_ips@, id)
    }

    pub open spec fn container_ip_of(self, id: Seq<char>) -> IpAddress {
        cont_ip(self.container_ips@, id)
    }

    pub fn new(config: AppConfig) -> (r: AppState)
        ensures
            r.wf(),
            r.config == config,
            r.network_state.interface_ips@.len() == 0,
            r.network_state.if_index_to_name@.len() == 0,
            r.container_ips@.len() == 0,
    {
        AppState { config, network_state: NetworkState::new(), container_ips: Vec::new() }
    }

    /// Applies a watcher event to the network state and reports which
    /// zones' projected contents changed.
    pub fn apply_network_event(&mut self, ev: &NetworkEvent) -> (d: ProjectionDelta)
        requires
            old(self).wf(),
        ensures
            final(self).wf(),
            final(self).config == old(self).config,
            final(self).container_ips == old(self).container_ips,
            final(self).network_state.if_index_to_name@ == old(
                self,
            ).network_state.if_index_to_name@,
            d.delta_ok(
                old(self).config.interfaces@,
                old(self).network_state,
                old(self).config.interfaces@,
                final(self).network_state,
            ),
            !d.full_refresh,
            network_event_applied(old(self).network_state, final(self).network_state, *ev),
    {
        match ev {
            NetworkEvent::IpUpdate { interface, ips } => {
                let snapshot = clone_network_state(&self.network_state);
                self.network_state.set_interface_ips(interface.clone(), copy_ip_vec(ips));
                let changed = diff_zones(
                    &self.config.interfaces,
                    &snapshot,
                    &self.config.interfaces,
                    &self.network_state,
                );
                proof {
                    lemma_equiv_zone(
                        self.config.interfaces@,
                        old(self).network_state,
                        snapshot,
                    );
                    assert forall|z: Seq<char>|
                        zone_unchanged(
                            self.config.interfaces@,
                            snapshot,
                            self.config.interfaces@,
                            self.network_state,
                            z,
                        ) == zone_unchanged(
                            self.config.interfaces@,
                            old(self).network_state,
                            self.config.interfaces@,
                            self.network_state,
                            z,
                        ) by {
                        assert forall|a: IpAddress| #[trigger]
                            zone_has_addr(self.config.interfaces@, snapshot, z, a)
                                == zone_has_addr(
                                self.config.interfaces@,
                                old(self).network_state,
                                z,
                                a,
                            ) by {}
                    }
                }
                ProjectionDelta { changed_zones: changed, full_refresh: false }
            },
            NetworkEvent::LinkChanged { name, is_up } => {
                if !*is_up {
                    let snapshot = clone_network_state(&self.network_state);
                    self.network_state.remove_interface(name.as_str());
                    let changed = diff_zones(
                        &self.config.interfaces,
                        &snapshot,
                        &self.config.interfaces,
                        &self.network_state,
                    );
                    proof {
                        lemma_equiv_zone(
                            self.config.interfaces@,
                            old(self).network_state,
                            snapshot,
                        );
                        assert forall|z: Seq<char>|
                            zone_unchanged(
                                self.config.interfaces@,
                                snapshot,
                                self.config.interfaces@,
                                self.network_state,
                                z,
                            ) == zone_unchanged(
                                self.config.interfaces@,
                                old(self).network_state,
                                self.config.interfaces@,
                                self.network_state,
                                z,
                            ) by {
                            assert forall|a: IpAddress| #[trigger]
                                zone_has_addr(self.config.interfaces@, snapshot, z, a)
                                    == zone_has_addr(
                                    self.config.interfaces@,
                                    old(self).network_state,
                                    z,
                                    a,
                                ) by {}
                        }
                    }
                    ProjectionDelta { changed_zones: changed, full_refresh: false }
                } else {
                    let d = ProjectionDelta { changed_zones: Vec::new(), full_refresh: false };
                    proof {
                        assert forall|z: Seq<char>| !(#[trigger] d.changed_zones.deep_view()
                            .contains(z)) by {
                            assert(d.changed_zones.deep_view().len() == 0);
                        }
                    }
                    d
                }
            },
        }
    }

    /// Tracks or forgets a container's primary address.  Containers are
    /// not projected into zones, so the delta is always empty.
    pub fn apply_docker_event(&mut self, ev: &DockerEvent) -> (d: ProjectionDelta)
        requires
            old(self).wf(),
        ensures
            final(self).wf(),
            final(self).config == old(self).config,
            final(self).network_state == old(self).network_state,
            d.is_empty_spec(),
            docker_event_applied(old(self).container_ips@, final(self).container_ips@, *ev),
    {
        match ev {
            DockerEvent::ContainerStarted(id, ip_opt) => {
                match ip_opt {
                    Some(ip) => {
                        cont_set(&mut self.container_ips, id.clone(), *ip);
                    },
                    None => {},
                }
            },
            DockerEvent::ContainerStopped(id) => {
                cont_remove(&mut self.container_ips, id.as_str());
            },
        }
        ProjectionDelta { changed_zones: Vec::new(), full_refresh: false }
    }

    /// Replaces the configuration snapshot.  The delta names the zones
    /// whose projection changes under the new bindings; any actual
    /// change of content forces a full structural refresh.
    pub fn reload(&mut self, new_config: AppConfig) -> (d: ProjectionDelta)
        requires
            old(self).wf(),
        ensures
            final(self).wf(),
            final(self).config == new_config,
            final(self).network_state == old(self).network_state,
            final(self).container_ips == old(self).container_ips,
            d.delta_ok(
                old(self).config.interfaces@,
                old(self).network_state,
                new_config.interfaces@,
                old(self).network_state,
            ),
            d.full_refresh == !config_equiv(old(self).config@, new_config@),
    {
        let changed = diff_zones(
            &self.config.interfaces,
            &self.network_state,
            &new_config.interfaces,
            &self.network_state,
        );
        let same = config_equal(&self.config, &new_config);
        self.config = new_config;
        ProjectionDelta { changed_zones: changed, full_refresh: !same }
    }
}

// ---------------------------------------------------------------------------
// Laws of the projection
// ---------------------------------------------------------------------------

/// Some configuration row binds the named interface to the zone.
pub open spec fn zone_binds(cfg: Seq<InterfaceConfig>, z: Seq<char>, name: Seq<char>) -> bool {
    exists|i: int|
        0 <= i < cfg.len() && cfg[i]@.nftables_zone == Some(z) && cfg[i]@.name == name
}

/// Zone membership counting every bound interface but the excluded one.
pub open spec fn zone_has_addr_except(
    cfg: Seq<InterfaceConfig>,
    st: NetworkState,
    z: Seq<char>,
    a: IpAddress,
    excluded: Seq<char>,
) -> bool {
    exists|i: int|
        0 <= i < cfg.len() && cfg[i]@.nftables_zone == Some(z) && cfg[i]@.name != excluded
            && st.has_if(cfg[i]@.name) && st.ips_of(cfg[i]@.name).contains(a)
}

/// Losing an interface removes exactly that interface's contribution:
/// afterwards a zone holds an address exactly when some other interface
/// bound to it still holds the address, and a zone with no binding to
/// the lost interface projects as before.
pub proof fn lemma_link_gone(
    cfg: Seq<InterfaceConfig>,
    pre: NetworkState,
    post: NetworkState,
    iface: Seq<char>,
)
    requires
        !post.has_if(iface),
        forall|n: Seq<char>| n != iface ==> post.has_if(n) == pre.has_if(n),
        forall|n: Seq<char>| n != iface && pre.has_if(n) ==> post.ips_of(n) == pre.ips_of(n),
    ensures
        forall|z: Seq<char>, a: IpAddress| #[trigger]
            zone_has_addr(cfg, post, z, a) == zone_has_addr_except(cfg, pre, z, a, iface),
        forall|z: Seq<char>|
            !zone_binds(cfg, z, iface) ==> zone_unchanged(cfg, pre, cfg, post, z),
{
    assert forall|z: Seq<char>, a: IpAddress| #[trigger]
        zone_has_addr(cfg, post, z, a) == zone_has_addr_except(cfg, pre, z, a, iface) by {
        if zone_has_addr(cfg, post, z, a) {
            let i = choose|i: int|
                0 <= i < cfg.len() && cfg[i]@.nftables_zone == Some(z) && post.has_if(cfg[i]@.name)
                    && post.ips_of(cfg[i]@.name).contains(a);
            assert(cfg[i]@.name != iface);
            assert(pre.has_if(cfg[i]@.name) && pre.ips_of(cfg[i]@.name).contains(a));
            assert(zone_has_addr_except(cfg, pre, z, a, iface));
        }
        if zone_has_addr_except(cfg, pre, z, a, iface) {
            let i = choose|i: int|
                0 <= i < cfg.len() && cfg[i]@.nftables_zone == Some(z) && cfg[i]@.name != iface
                    && pre.has_if(cfg[i]@.name) && pre.ips_of(cfg[i]@.name).contains(a);
            assert(post.has_if(cfg[i]@.name) && post.ips_of(cfg[i]@.name).contains(a));
            assert(zone_has_addr(cfg, post, z, a));
        }
    }
    assert forall|z: Seq<char>| !zone_binds(cfg, z, iface) implies zone_unchanged(
        cfg,
        pre,
        cfg,
        post,
        z,
    ) by {
        assert forall|a: IpAddress|
            zone_has_addr(cfg, pre, z, a) == zone_has_addr(cfg, post, z, a) by {
            if zone_has_addr(cfg, pre, z, a) {
                let i = choose|i: int|
                    0 <= i < cfg.len() && cfg[i]@.nftables_zone == Some(z) && pre.has_if(
                        cfg[i]@.name,
                    ) && pre.ips_of(cfg[i]@.name).contains(a);
                assert(cfg[i]@.name != iface) by {
                    if cfg[i]@.name == iface {
                        assert(zone_binds(cfg, z, iface));
                    }
                }
                assert(zone_has_addr_except(cfg, pre, z, a, iface));
            }
            if zone_has_addr(cfg, post, z, a) {
                assert(zone_has_addr_except(cfg, pre, z, a, iface));
                let i = choose|i: int|
                    0 <= i < cfg.len() && cfg[i]@.nftables_zone == Some(z) && cfg[i]@.name != iface
                        && pre.has_if(cfg[i]@.name) && pre.ips_of(cfg[i]@.name).contains(a);
                assert(zone_has_addr(cfg, pre, z, a));
            }
        }
    }
}

/// A reload that replaces the configuration with identical content
/// yields an empty delta.
pub proof fn lemma_reload_identical(d: ProjectionDelta, cfg: Seq<InterfaceConfig>, st: NetworkState)
    requires
        d.delta_ok(cfg, st, cfg, st),
    ensures
        d.changed_zones@.len() == 0,
{
    if d.changed_zones@.len() > 0 {
        let z = d.changed_zones.deep_view()[0];
        assert(d.changed_zones.deep_view().contains(z)) by {
            assert(d.changed_zones.deep_view()[0] == z);
        }
        assert(!zone_unchanged(cfg, st, cfg, st, z));
        assert(zone_unchanged(cfg, st, cfg, st, z)) by {
            assert forall|a: IpAddress|
                zone_has_addr(cfg, st, z, a) == zone_has_addr(cfg, st, z, a) by {}
        }
    }
}

/// A reload that changes the zone binding of one configuration row
/// leaves every zone other than the old and the new binding unchanged.
pub proof fn lemma_rebind_one_interface(
    cfg0: Seq<InterfaceConfig>,
    cfg1: Seq<InterfaceConfig>,
    st: NetworkState,
    t: int,
    z_old: Seq<char>,
    z_new: Seq<char>,
)
    requires
        0 <= t < cfg0.len(),
        cfg1.len() == cfg0.len(),
        forall|i: int| 0 <= i < cfg0.len() && i != t ==> cfg1[i]@ == cfg0[i]@,
        cfg0[t]@.nftables_zone == Some(z_old),
        cfg1[t]@.nftables_zone == Some(z_new),
        cfg1[t]@.name == cfg0[t]@.name,
    ensures
        forall|z: Seq<char>|
            z != z_old && z != z_new ==> zone_unchanged(cfg0, st, cfg1, st, z),
{
    assert forall|z: Seq<char>| z != z_old && z != z_new implies zone_unchanged(
        cfg0,
        st,
        cfg1,
        st,
        z,
    ) by {
        assert forall|a: IpAddress|
            zone_has_addr(cfg0, st, z, a) == zone_has_addr(cfg1, st, z, a) by {
            if zone_has_addr(cfg0, st, z, a) {
                let i = choose|i: int|
                    0 <= i < cfg0.len() && cfg0[i]@.nftables_zone == Some(z) && st.has_if(
                        cfg0[i]@.name,
                    ) && st.ips_of(cfg0[i]@.name).contains(a);
                assert(i != t);
                assert(cfg1[i]@.nftables_zone == Some(z));
                assert(zone_has_addr(cfg1, st, z, a));
            }
            if zone_has_addr(cfg1, st, z, a) {
                let i = choose|i: int|
                    0 <= i < cfg1.len() && cfg1[i]@.nftables_zone == Some(z) && st.has_if(
                        cfg1[i]@.name,
                    ) && st.ips_of(cfg1[i]@.name).contains(a);
                assert(i != t);
                assert(cfg0[i]@.nftables_zone == Some(z));
                assert(zone_has_addr(cfg0, st, z, a));
            }
        }
    }
}

// ---------------------------------------------------------------------------
// The status report and the reducer
// ---------------------------------------------------------------------------

/// The addresses of one interface, comma-joined.
pub open spec fn ips_join_text(ips: Seq<IpAddress>) -> Seq<char>
    decreases ips.len(),
{
    if ips.len() == 0 {
        Seq::empty()
    } else if ips.len() == 1 {
        crate::addr::ip_text(ips[0])
    } else {
        ips_join_text(ips.drop_last()) + ", "@ + crate::addr::ip_text(ips.last())
    }
}

/// One interface line of the status report.
pub open spec fn iface_line_text(e: InterfaceEntry) -> Seq<char> {
    "  "@ + e.name@ + ": ["@ + ips_join_text(e.ips@) + "]"@
}

/// The interface lines, newline-joined.
pub open spec fn iface_block_text(s: Seq<InterfaceEntry>) -> Seq<char>
    decreases s.len(),
{
    if s.len() == 0 {
        Seq::empty()
    } else if s.len() == 1 {
        iface_line_text(s[0])
    } else {
        iface_block_text(s.drop_last()) + "\n"@ + iface_line_text(s.last())
    }
}

/// One container line of the status report.
pub open spec fn cont_line_text(e: ContainerEntry) -> Seq<char> {
    "  "@ + e.id@ + ": "@ + crate::addr::ip_text(e.ip)
}

/// The container lines, newline-joined.
pub open spec fn cont_block_text(s: Seq<ContainerEntry>) -> Seq<char>
    decreases s.len(),
{
    if s.len() == 0 {
        Seq::empty()
    } else if s.len() == 1 {
        cont_line_text(s[0])
    } else {
        cont_block_text(s.drop_last()) + "\n"@ + cont_line_text(s.last())
    }
}

/// Everything the event loop hands back for one consumed event: the
/// projection delta, a reply for the requesting client, and whether a
/// configuration reload or a shutdown is asked for.
pub struct StepOutcome {
    pub delta: ProjectionDelta,
    pub reply: Option<String>,
    pub reload_requested: bool,
    pub shutdown: bool,
}

impl AppState {
    /// The status report, line by line.
    pub open spec fn status_text(self) -> Seq<char> {
        "Current Status:\nInterfaces:\n"@ + (if self.network_state.interface_ips@.len() == 0 {
            "  (None)"@
        } else {
            iface_block_text(self.network_state.interface_ips@)
        }) + "\nTracked Containers:\n"@ + (if self.container_ips@.len() == 0 {
            "  (None)"@
        } else {
            cont_block_text(self.container_ips@)
        })
    }

    /// Renders the status report.
    pub fn status_report(&self) -> (r: String)
        ensures
            r@ == self.status_text(),
    {
        let mut s = String::from_str("Current Status:\nInterfaces:\n");
        if self.network_state.interface_ips.len() == 0 {
            s.append("  (None)");
        } else {
            let n = self.network_state.interface_ips.len();
            let mut k: usize = 0;
            let ghost head = "Current Status:\nInterfaces:\n"@;
            while k < n
                invariant
                    n == self.network_state.interface_ips@.len(),
                    n > 0,
                    k <= n,
                    head == "Current Status:\nInterfaces:\n"@,
                    k == 0 ==> s@ == head,
                    k > 0 ==> s@ == head + iface_block_text(
                        self.network_state.interface_ips@.take(k as int),
                    ),
                decreases n - k,
            {
                let ghost pre = s@;
                if k > 0 {
                    s.append("\n");
                }
                s.append("  ");
                s.append(self.network_state.interface_ips[k].name.as_str());
                s.append(": [");
                let ips = &self.network_state.interface_ips[k].ips;
                let m = ips.len();
                let mut j: usize = 0;
                let ghost linebase = s@;
                while j < m
                    invariant
                        m == ips@.len(),
                        j <= m,
                        ips@ == self.network_state.interface_ips@[k as int].ips@,
                        k < n,
                        n == self.network_state.interface_ips@.len(),
                        linebase == s@ || j > 0,
                        j == 0 ==> s@ == linebase,
                        j > 0 ==> s@ == linebase + ips_join_text(ips@.take(j as int)),
                    decreases m - j,
                {
                    let ghost before = s@;
                    if j > 0 {
                        s.append(", ");
                    }
                    let t = crate::addr::format_ip(&ips[j]);
                    s.append(t.as_str());
                    proof {
                        assert(ips@.take(j as int + 1).drop_last() =~= ips@.take(j as int));
                        assert(ips@.take(j as int + 1).last() == ips@[j as int]);
                        if j == 0 {
                            assert(s@ =~= linebase + ips_join_text(ips@.take(1)));
                        } else {
                            assert(s@ =~= linebase + ips_join_text(ips@.take(j as int + 1)));
                        }
                    }
                    j += 1;
                }
                s.append("]");
                proof {
                    assert(ips@.take(m as int) =~= ips@);
                    let e = self.network_state.interface_ips@[k as int];
                    assert(s@ =~= pre + (if k == 0 {
                        Seq::<char>::empty()
                    } else {
                        "\n"@
                    }) + iface_line_text(e)) by {
                        reveal_strlit("  ");
                        reveal_strlit(": [");
                        reveal_strlit("]");
                        reveal_strlit("\n");
                        if m == 0 {
                            assert(ips_join_text(e.ips@) == Seq::<char>::empty());
                        }
                    }
                    assert(self.network_state.interface_ips@.take(k as int + 1).drop_last()
                        =~= self.network_state.interface_ips@.take(k as int));
                    assert(self.network_state.interface_ips@.take(k as int + 1).last() == e);
                    assert(s@ =~= head + iface_block_text(
                        self.network_state.interface_ips@.take(k as int + 1),
                    ));
                }
                k += 1;
            }
            proof {
                assert(self.network_state.interface_ips@.take(n as int)
                    =~= self.network_state.interface_ips@);
            }
        }
        s.append("\nTracked Containers:\n");
        let ghost mid = s@;
        if self.container_ips.len() == 0 {
            s.append("  (None)");
        } else {
            let n = self.container_ips.len();
            let mut k: usize = 0;
            while k < n
                invariant
                    n == self.container_ips@.len(),
                    n > 0,
                    k <= n,
                    mid == s@ || k > 0,
                    k == 0 ==> s@ == mid,
                    k > 0 ==> s@ == mid + cont_block_text(self.container_ips@.take(k as int)),
                decreases n - k,
            {
                let ghost pre = s@;
                if k > 0 {
                    s.append("\n");
                }
                s.append("  ");
                s.append(self.container_ips[k].id.as_str());
                s.append(": ");
                let t = crate::addr::format_ip(&self.container_ips[k].ip);
                s.append(t.as_str());
                proof {
                    let e = self.container_ips@[k as int];
                    assert(s@ =~= pre + (if k == 0 {
                        Seq::<char>::empty()
                    } else {
                        "\n"@
                    }) + cont_line_text(e)) by {
                        reveal_strlit("  ");
                        reveal_strlit(": ");
                        reveal_strlit("\n");
                    }
                    assert(self.container_ips@.take(k as int + 1).drop_last()
                        =~= self.container_ips@.take(k as int));
                    assert(self.container_ips@.take(k as int + 1).last() == e);
                    assert(s@ =~= mid + cont_block_text(self.container_ips@.take(k as int + 1)));
                }
                k += 1;
            }
            proof {
                assert(self.container_ips@.take(n as int) =~= self.container_ips@);
            }
        }
        proof {
            assert(s@ =~= self.status_text());
        }
        s
    }

    /// The reducer: consumes one event, mutates the store, and says
    /// what the event loop owes in return.  Events are consumed one at
    /// a time by the store's single writer, in queue order.
    pub fn apply(&mut self, event: &SystemEvent) -> (out: StepOutcome)
        requires
            old(self).wf(),
        ensures
            final(self).wf(),
            match *event {
                SystemEvent::Network(ref ev) => {
                    &&& final(self).config == old(self).config
                    &&& final(self).container_ips == old(self).container_ips
                    &&& network_event_applied(
                        old(self).network_state,
                        final(self).network_state,
                        *ev,
                    )
                    &&& out.delta.delta_ok(
                        old(self).config.interfaces@,
                        old(self).network_state,
                        old(self).config.interfaces@,
                        final(self).network_state,
                    )
                    &&& !out.delta.full_refresh
                    &&& out.reply is None
                    &&& !out.reload_requested
                    &&& !out.shutdown
                },
                SystemEvent::Docker(ref ev) => {
                    &&& final(self).config == old(self).config
                    &&& final(self).network_state == old(self).network_state
                    &&& docker_event_applied(
                        old(self).container_ips@,
                        final(self).container_ips@,
                        *ev,
                    )
                    &&& out.delta.is_empty_spec()
                    &&& out.reply is None
                    &&& !out.reload_requested
                    &&& !out.shutdown
                },
                SystemEvent::Control(ref cmd) => {
                    &&& *final(self) == *old(self)
                    &&& out.delta.is_empty_spec()
                    &&& match *cmd {
                        ControlCommand::Reload => out.reply is None && out.reload_requested
                            && !out.shutdown,
                        ControlCommand::Status => (out.reply matches Some(m) && m@ == old(
                            self,
                        ).status_text()) && !out.reload_requested && !out.shutdown,
                        ControlCommand::Ping => (out.reply matches Some(m) && m@ == "PONG"@)
                            && !out.reload_requested && !out.shutdown,
                        ControlCommand::Shutdown => out.reply is None && !out.reload_requested
                            && out.shutdown,
                    }
                },
                SystemEvent::Signal(_) => {
                    &&& *final(self) == *old(self)
                    &&& out.delta.is_empty_spec()
                    &&& out.reply is None
                    &&& !out.reload_requested
                    &&& out.shutdown
                },
            },
    {
        match event {
            SystemEvent::Network(ev) => {
                let delta = self.apply_network_event(ev);
                StepOutcome { delta, reply: None, reload_requested: false, shutdown: false }
            },
            SystemEvent::Docker(ev) => {
                let delta = self.apply_docker_event(ev);
                StepOutcome { delta, reply: None, reload_requested: false, shutdown: false }
            },
            SystemEvent::Control(cmd) => {
                let empty = ProjectionDelta { changed_zones: Vec::new(), full_refresh: false };
                match cmd {
                    ControlCommand::Reload => StepOutcome {
                        delta: empty,
                        reply: None,
                        reload_requested: true,
                        shutdown: false,
                    },
                    ControlCommand::Status => {
                        let report = self.status_report();
                        StepOutcome {
                            delta: empty,
                            reply: Some(report),
                            reload_requested: false,
                            shutdown: false,
                        }
                    },
                    ControlCommand::Ping => StepOutcome {
                        delta: empty,
                        reply: Some(String::from_str("PONG")),
                        reload_requested: false,
                        shutdown: false,
                    },
                    ControlCommand::Shutdown => StepOutcome {
                        delta: empty,
                        reply: None,
                        reload_requested: false,
                        shutdown: true,
                    },
                }
            },
            SystemEvent::Signal(_) => {
                let empty = ProjectionDelta { changed_zones: Vec::new(), full_refresh: false };
                StepOutcome { delta: empty, reply: None, reload_requested: false, shutdown: true }
            },
        }
    }
}

} // verus!
