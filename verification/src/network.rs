//! The link/address watcher's state machine.  The kernel socket work
//! happens outside; what arrives here are plain values decoded from the
//! messages: an interface index, a name, an address, the up flag.  The
//! watcher keeps its own index-to-name and index-to-addresses view and
//! turns message deltas into state-carrying events: every address event
//! it emits holds the full current set for the interface.

use vstd::prelude::*;
use vstd::string::*;

use crate::state::copy_ip_vec;
use crate::types::{IpAddress, NetworkEvent};

verus! {

/// One link the watcher knows: index, current name, last reported
/// up-flag.
pub struct MonLink {
    pub index: u32,
    pub name: String,
    pub up: bool,
}

/// The addresses the watcher currently attributes to one link index.
pub struct IndexIps {
    pub index: u32,
    pub ips: Vec<IpAddress>,
}

/// Indexes are unique.
pub open spec fn mlink_wf(s: Seq<MonLink>) -> bool {
    forall|i: int, j: int| 0 <= i < j < s.len() ==> s[i].index != s[j].index
}

pub open spec fn mlink_has(s: Seq<MonLink>, index: u32) -> bool {
    exists|i: int| 0 <= i < s.len() && s[i].index == index
}

pub open spec fn mlink_name(s: Seq<MonLink>, index: u32) -> Seq<char> {
    let i = choose|i: int| 0 <= i < s.len() && s[i].index == index;
    s[i].name@
}

pub open spec fn mlink_up(s: Seq<MonLink>, index: u32) -> bool {
    let i = choose|i: int| 0 <= i < s.len() && s[i].index == index;
    s[i].up
}

/// In a well-formed table, any row with a matching index is the row the
/// lookup functions speak about.
pub proof fn lemma_mlink_at(s: Seq<MonLink>, i: int)
    requires
        mlink_wf(s),
        0 <= i < s.len(),
    ensures
        mlink_has(s, s[i].index),
        mlink_name(s, s[i].index) == s[i].name@,
        mlink_up(s, s[i].index) == s[i].up,
{
    let index = s[i].index;
    assert(mlink_has(s, index));
    let j = choose|j: int| 0 <= j < s.len() && s[j].index == index;
    if i < j {
        assert(s[i].index != s[j].index);
    } else if j < i {
        assert(s[j].index != s[i].index);
    }
}

fn mlink_find(v: &Vec<MonLink>, index: u32) -> (r: Option<usize>)
    ensures
        match r {
            Some(i) => i < v@.len() && v@[i as int].index == index,
            None => !mlink_has(v@, index),
        },
{
    let n = v.len();
    let mut i: usize = 0;
    while i < n
        invariant
            n == v@.len(),
            i <= n,
            forall|j: int| 0 <= j < i ==> v@[j].index != index,
        decreases n - i,
    {
        if v[i].index == index {
            return Some(i);
        }
        i += 1;
    }
    None
}

/// Binds an index to a name and up-flag, replacing any earlier binding.
fn mlink_set(v: &mut Vec<MonLink>, index: u32, name: String, up: bool)
    requires
        mlink_wf(old(v)@),
    ensures
        mlink_wf(final(v)@),
        mlink_has(final(v)@, index),
        mlink_name(final(v)@, index) == name@,
        mlink_up(final(v)@, index) == up,
        forall|x: u32| x != index ==> mlink_has(final(v)@, x) == mlink_has(old(v)@, x),
        forall|x: u32|
            x != index && mlink_has(old(v)@, x) ==> mlink_name(final(v)@, x) == mlink_name(
                old(v)@,
                x,
            ) && mlink_up(final(v)@, x) == mlink_up(old(v)@, x),
{
    let ghost pre = v@;
    match mlink_find(v, index) {
        Some(i) => {
            v.set(i, MonLink { index, name, up });
            proof {
                let s = v@;
                assert forall|a: int, b: int| 0 <= a < b < s.len() implies s[a].index
                    != s[b].index by {
                    if a != i as int && b != i as int {
                        assert(pre[a].index != pre[b].index);
                    } else if a == i as int {
                        assert(pre[i as int].index != pre[b].index);
                    } else {
                        assert(pre[a].index != pre[i as int].index);
                    }
                }
                lemma_mlink_at(s, i as int);
                assert forall|x: u32| x != index implies mlink_has(s, x) == mlink_has(
                    pre,
                    x,
                ) by {
                    if mlink_has(s, x) {
                        let w = choose|w: int| 0 <= w < s.len() && s[w].index == x;
                        assert(pre[w].index == x);
                    }
                    if mlink_has(pre, x) {
                        let w = choose|w: int| 0 <= w < pre.len() && pre[w].index == x;
                        assert(w != i as int);
                        assert(s[w].index == x);
                    }
                }
                assert forall|x: u32| x != index && mlink_has(pre, x) implies mlink_name(s, x)
                    == mlink_name(pre, x) && mlink_up(s, x) == mlink_up(pre, x) by {
                    let w = choose|w: int| 0 <= w < pre.len() && pre[w].index == x;
                    assert(w != i as int);
                    assert(s[w].index == x);
                    lemma_mlink_at(pre, w);
                    lemma_mlink_at(s, w);
                }
            }
        },
        None => {
            let ghost l = v@.len() as int;
            v.push(MonLink { index, name, up });
            proof {
                let s = v@;
                assert forall|a: int, b: int| 0 <= a < b < s.len() implies s[a].index
                    != s[b].index by {
                    if b < l {
                        assert(pre[a].index != pre[b].index);
                    } else {
                        assert(mlink_has(pre, pre[a].index)) by {
                            assert(0 <= a < pre.len() && pre[a].index == pre[a].index);
                        }
                    }
                }
                lemma_mlink_at(s, l);
                assert forall|x: u32| x != index implies mlink_has(s, x) == mlink_has(
                    pre,
                    x,
                ) by {
                    if mlink_has(s, x) {
                        let w = choose|w: int| 0 <= w < s.len() && s[w].index == x;
                        assert(w != l);
                        assert(pre[w].index == x);
                    }
                    if mlink_has(pre, x) {
                        let w = choose|w: int| 0 <= w < pre.len() && pre[w].index == x;
                        assert(s[w].index == x);
                    }
                }
                assert forall|x: u32| x != index && mlink_has(pre, x) implies mlink_name(s, x)
                    == mlink_name(pre, x) && mlink_up(s, x) == mlink_up(pre, x) by {
                    let w = choose|w: int| 0 <= w < pre.len() && pre[w].index == x;
                    assert(s[w].index == x);
                    lemma_mlink_at(pre, w);
                    lemma_mlink_at(s, w);
                }
            }
        },
    }
}

/// Forgets the binding for an index; returns the name it had.
fn mlink_remove(v: &mut Vec<MonLink>, index: u32) -> (old_name: Option<String>)
    requires
        mlink_wf(old(v)@),
    ensures
        mlink_wf(final(v)@),
        !mlink_has(final(v)@, index),
        forall|x: u32| x != index ==> mlink_has(final(v)@, x) == mlink_has(old(v)@, x),
        forall|x: u32|
            x != index && mlink_has(old(v)@, x) ==> mlink_name(final(v)@, x) == mlink_name(
                old(v)@,
                x,
            ) && mlink_up(final(v)@, x) == mlink_up(old(v)@, x),
        match old_name {
            Some(n) => mlink_has(old(v)@, index) && n@ == mlink_name(old(v)@, index),
            None => !mlink_has(old(v)@, index),
        },
        !mlink_has(old(v)@, index) ==> *final(v) == *old(v),
{
    let ghost pre = v@;
    match mlink_find(v, index) {
        Some(i) => {
            proof {
                lemma_mlink_at(pre, i as int);
            }
            let entry = v.remove(i);
            proof {
                let s = v@;
                assert(s == pre.remove(i as int));
                assert forall|w: int| 0 <= w < s.len() implies #[trigger] s[w] == pre[if w
                    < i as int {
                    w
                } else {
                    w + 1
                }] by {}
                assert(mlink_wf(s));
                assert(!mlink_has(s, index)) by {
                    if mlink_has(s, index) {
                        let w = choose|w: int| 0 <= w < s.len() && s[w].index == index;
                        let w0 = if w < i as int { w } else { w + 1 };
                        assert(pre[w0].index == index);
                        if w0 < i as int {
                            assert(pre[w0].index != pre[i as int].index);
                        } else {
                            assert(pre[i as int].index != pre[w0].index);
                        }
                    }
                }
                assert forall|x: u32| x != index implies mlink_has(s, x) == mlink_has(
                    pre,
                    x,
                ) by {
                    if mlink_has(s, x) {
                        let w = choose|w: int| 0 <= w < s.len() && s[w].index == x;
                        let w0 = if w < i as int { w } else { w + 1 };
                        assert(pre[w0].index == x);
                    }
                    if mlink_has(pre, x) {
                        let w = choose|w: int| 0 <= w < pre.len() && pre[w].index == x;
                        assert(w != i as int);
                        let w1 = if w < i as int { w } else { w - 1 };
                        assert(s[w1].index == x);
                    }
                }
                assert forall|x: u32| x != index && mlink_has(pre, x) implies mlink_name(s, x)
                    == mlink_name(pre, x) && mlink_up(s, x) == mlink_up(pre, x) by {
                    let w = choose|w: int| 0 <= w < pre.len() && pre[w].index == x;
                    assert(w != i as int);
                    let w1 = if w < i as int { w } else { w - 1 };
                    assert(s[w1].index == x);
                    lemma_mlink_at(pre, w);
                    lemma_mlink_at(s, w1);
                }
            }
            Some(entry.name)
        },
        None => None,
    }
}

/// Indexes are unique and no address list holds a duplicate.
pub open spec fn iips_wf(s: Seq<IndexIps>) -> bool {
    &&& forall|i: int, j: int| 0 <= i < j < s.len() ==> s[i].index != s[j].index
    &&& forall|i: int, a: int, b: int|
        0 <= i < s.len() && 0 <= a < b < s[i].ips@.len() ==> s[i].ips@[a] != s[i].ips@[b]
}

pub open spec fn iips_has(s: Seq<IndexIps>, index: u32) -> bool {
    exists|i: int| 0 <= i < s.len() && s[i].index == index
}

pub open spec fn iips_of(s: Seq<IndexIps>, index: u32) -> Seq<IpAddress> {
    let i = choose|i: int| 0 <= i < s.len() && s[i].index == index;
    s[i].ips@
}

/// The address set the watcher attributes to an index: the held list,
/// or the empty one for an unknown index.
pub open spec fn iips_view(s: Seq<IndexIps>, index: u32) -> Seq<IpAddress> {
    if iips_has(s, index) {
        iips_of(s, index)
    } else {
        Seq::empty()
    }
}

/// In a well-formed table, any row with a matching index is the row
/// `iips_of` speaks about.
pub proof fn lemma_iips_at(s: Seq<IndexIps>, i: int)
    requires
        iips_wf(s),
        0 <= i < s.len(),
    ensures
        iips_has(s, s[i].index),
        iips_of(s, s[i].index) == s[i].ips@,
{
    let index = s[i].index;
    assert(iips_has(s, index));
    let j = choose|j: int| 0 <= j < s.len() && s[j].index == index;
    if i < j {
        assert(s[i].index != s[j].index);
    } else if j < i {
        assert(s[j].index != s[i].index);
    }
}

fn iips_find(v: &Vec<IndexIps>, index: u32) -> (r: Option<usize>)
    ensures
        match r {
            Some(i) => i < v@.len() && v@[i as int].index == index,
            None => !iips_has(v@, index),
        },
{
    let n = v.len();
    let mut i: usize = 0;
    while i < n
        invariant
            n == v@.len(),
            i <= n,
            forall|j: int| 0 <= j < i ==> v@[j].index != index,
        decreases n - i,
    {
        if v[i].index == index {
            return Some(i);
        }
        i += 1;
    }
    None
}

/// Replaces (or creates) the address list held for an index.
fn iips_set(v: &mut Vec<IndexIps>, index: u32, ips: Vec<IpAddress>)
    requires
        iips_wf(old(v)@),
        forall|a: int, b: int| 0 <= a < b < ips@.len() ==> ips@[a] != ips@[b],
    ensures
        iips_wf(final(v)@),
        iips_has(final(v)@, index),
        iips_of(final(v)@, index) == ips@,
        forall|x: u32| x != index ==> iips_has(final(v)@, x) == iips_has(old(v)@, x),
        forall|x: u32|
            x != index && iips_has(old(v)@, x) ==> iips_of(final(v)@, x) == iips_of(old(v)@, x),
{
    let ghost pre = v@;
    match iips_find(v, index) {
        Some(i) => {
            v.set(i, IndexIps { index, ips });
            proof {
                let s = v@;
                assert forall|a: int, b: int| 0 <= a < b < s.len() implies s[a].index
                    != s[b].index by {
                    if a != i as int && b != i as int {
                        assert(pre[a].index != pre[b].index);
                    } else if a == i as int {
                        assert(pre[i as int].index != pre[b].index);
                    } else {
                        assert(pre[a].index != pre[i as int].index);
                    }
                }
                assert(iips_wf(s)) by {
                    assert forall|w: int, a: int, b: int|
                        0 <= w < s.len() && 0 <= a < b < s[w].ips@.len() implies s[w].ips@[a]
                        != s[w].ips@[b] by {
                        if w != i as int {
                            assert(pre[w].ips@[a] != pre[w].ips@[b]);
                        }
                    }
                }
                lemma_iips_at(s, i as int);
                assert forall|x: u32| x != index implies iips_has(s, x) == iips_has(pre, x) by {
                    if iips_has(s, x) {
                        let w = choose|w: int| 0 <= w < s.len() && s[w].index == x;
                        assert(pre[w].index == x);
                    }
                    if iips_has(pre, x) {
                        let w = choose|w: int| 0 <= w < pre.len() && pre[w].index == x;
                        assert(w != i as int);
                        assert(s[w].index == x);
                    }
                }
                assert forall|x: u32| x != index && iips_has(pre, x) implies iips_of(s, x)
                    == iips_of(pre, x) by {
                    let w = choose|w: int| 0 <= w < pre.len() && pre[w].index == x;
                    assert(w != i as int);
                    assert(s[w].index == x);
                    lemma_iips_at(pre, w);
                    lemma_iips_at(s, w);
                }
            }
        },
        None => {
            let ghost l = v@.len() as int;
            v.push(IndexIps { index, ips });
            proof {
                let s = v@;
                assert forall|a: int, b: int| 0 <= a < b < s.len() implies s[a].index
                    != s[b].index by {
                    if b < l {
                        assert(pre[a].index != pre[b].index);
                    } else {
                        assert(iips_has(pre, pre[a].index)) by {
                            assert(0 <= a < pre.len() && pre[a].index == pre[a].index);
                        }
                    }
                }
                assert(iips_wf(s)) by {
                    assert forall|w: int, a: int, b: int|
                        0 <= w < s.len() && 0 <= a < b < s[w].ips@.len() implies s[w].ips@[a]
                        != s[w].ips@[b] by {
                        if w < l {
                            assert(pre[w].ips@[a] != pre[w].ips@[b]);
                        }
                    }
                }
                lemma_iips_at(s, l);
                assert forall|x: u32| x != index implies iips_has(s, x) == iips_has(pre, x) by {
                    if iips_has(s, x) {
                        let w = choose|w: int| 0 <= w < s.len() && s[w].index == x;
                        assert(w != l);
                        assert(pre[w].index == x);
                    }
                    if iips_has(pre, x) {
                        let w = choose|w: int| 0 <= w < pre.len() && pre[w].index == x;
                        assert(s[w].index == x);
                    }
                }
                assert forall|x: u32| x != index && iips_has(pre, x) implies iips_of(s, x)
                    == iips_of(pre, x) by {
                    let w = choose|w: int| 0 <= w < pre.len() && pre[w].index == x;
                    assert(s[w].index == x);
                    lemma_iips_at(pre, w);
                    lemma_iips_at(s, w);
                }
            }
        },
    }
}

/// Forgets the address list held for an index; reports whether one was
/// held.
fn iips_remove(v: &mut Vec<IndexIps>, index: u32) -> (removed: bool)
    requires
        iips_wf(old(v)@),
    ensures
        iips_wf(final(v)@),
        !iips_has(final(v)@, index),
        removed == iips_has(old(v)@, index),
        forall|x: u32| x != index ==> iips_has(final(v)@, x) == iips_has(old(v)@, x),
        forall|x: u32|
            x != index && iips_has(old(v)@, x) ==> iips_of(final(v)@, x) == iips_of(old(v)@, x),
        !iips_has(old(v)@, index) ==> *final(v) == *old(v),
{
    let ghost pre = v@;
    match iips_find(v, index) {
        Some(i) => {
            v.remove(i);
            proof {
                let s = v@;
                assert(s == pre.remove(i as int));
                assert forall|w: int| 0 <= w < s.len() implies #[trigger] s[w] == pre[if w
                    < i as int {
                    w
                } else {
                    w + 1
                }] by {}
                assert(iips_wf(s));
                assert(!iips_has(s, index)) by {
                    if iips_has(s, index) {
                        let w = choose|w: int| 0 <= w < s.len() && s[w].index == index;
                        let w0 = if w < i as int { w } else { w + 1 };
                        assert(pre[w0].index == index);
                        if w0 < i as int {
                            assert(pre[w0].index != pre[i as int].index);
                        } else {
                            assert(pre[i as int].index != pre[w0].index);
                        }
                    }
                }
                assert(iips_has(pre, index));
                assert forall|x: u32| x != index implies iips_has(s, x) == iips_has(pre, x) by {
                    if iips_has(s, x) {
                        let w = choose|w: int| 0 <= w < s.len() && s[w].index == x;
                        let w0 = if w < i as int { w } else { w + 1 };
                        assert(pre[w0].index == x);
                    }
                    if iips_has(pre, x) {
                        let w = choose|w: int| 0 <= w < pre.len() && pre[w].index == x;
                        assert(w != i as int);
                        let w1 = if w < i as int { w } else { w - 1 };
                        assert(s[w1].index == x);
                    }
                }
                assert forall|x: u32| x != index && iips_has(pre, x) implies iips_of(s, x)
                    == iips_of(pre, x) by {
                    let w = choose|w: int| 0 <= w < pre.len() && pre[w].index == x;
                    assert(w != i as int);
                    let w1 = if w < i as int { w } else { w - 1 };
                    assert(s[w1].index == x);
                    lemma_iips_at(pre, w);
                    lemma_iips_at(s, w1);
                }
            }
            true
        },
        None => false,
    }
}

fn contains_ip(v: &Vec<IpAddress>, a: IpAddress) -> (r: bool)
    ensures
        r == v@.contains(a),
{
    let mut i: usize = 0;
    while i < v.len()
        invariant
            i <= v@.len(),
            forall|j: int| 0 <= j < i ==> v@[j] != a,
        decreases v@.len() - i,
    {
        if v[i] == a {
            return true;
        }
        i += 1;
    }
    false
}

fn ip_position(v: &Vec<IpAddress>, a: IpAddress) -> (r: Option<usize>)
    ensures
        match r {
            Some(p) => p < v@.len() && v@[p as int] == a,
            None => !v@.contains(a),
        },
{
    let mut i: usize = 0;
    while i < v.len()
        invariant
            i <= v@.len(),
            forall|j: int| 0 <= j < i ==> v@[j] != a,
        decreases v@.len() - i,
    {
        if v[i] == a {
            return Some(i);
        }
        i += 1;
    }
    None
}

/// Watches the kernel's link and address messages, as decoded outside,
/// and emits typed deltas.  Address events always carry the full
/// current set for the interface.
pub struct NetworkMonitor {
    pub if_index_to_name: Vec<MonLink>,
    pub current_ips: Vec<IndexIps>,
}

impl NetworkMonitor {
    pub open spec fn wf(self) -> bool {
        mlink_wf(self.if_index_to_name@) && iips_wf(self.current_ips@)
    }

    pub fn new() -> (r: NetworkMonitor)
        ensures
            r.wf(),
            r.if_index_to_name@.len() == 0,
            r.current_ips@.len() == 0,
    {
        NetworkMonitor { if_index_to_name: Vec::new(), current_ips: Vec::new() }
    }

    /// Processes one address message: an address appeared on or left an
    /// interface.  Address events for an unknown index are dropped; a
    /// message that does not change the held set is suppressed; a change
    /// is reported with the full current set.
    pub fn handle_address_change(
        &mut self,
        if_index: u32,
        address: Option<IpAddress>,
        is_add: bool,
    ) -> (ev: Option<NetworkEvent>)
        requires
            old(self).wf(),
        ensures
            final(self).wf(),
            final(self).if_index_to_name == old(self).if_index_to_name,
            match address {
                None => *final(self) == *old(self) && ev is None,
                Some(a) => {
                    if !mlink_has(old(self).if_index_to_name@, if_index) {
                        *final(self) == *old(self) && ev is None
                    } else if iips_view(old(self).current_ips@, if_index).contains(a) != is_add {
                        // the message changes the held set
                        &&& iips_has(final(self).current_ips@, if_index)
                        &&& (if is_add {
                            iips_of(final(self).current_ips@, if_index) == iips_view(
                                old(self).current_ips@,
                                if_index,
                            ).push(a)
                        } else {
                            &&& iips_of(final(self).current_ips@, if_index).len() == iips_view(
                                old(self).current_ips@,
                                if_index,
                            ).len() - 1
                            &&& forall|b: IpAddress|
                                #[trigger] iips_of(final(self).current_ips@, if_index).contains(b)
                                    <==> (iips_view(old(self).current_ips@, if_index).contains(b)
                                    && b != a)
                        })
                        &&& forall|x: u32|
                            x != if_index ==> iips_has(final(self).current_ips@, x) == iips_has(
                                old(self).current_ips@,
                                x,
                            )
                        &&& forall|x: u32|
                            x != if_index && iips_has(old(self).current_ips@, x) ==> iips_of(
                                final(self).current_ips@,
                                x,
                            ) == iips_of(old(self).current_ips@, x)
                        &&& (ev matches Some(NetworkEvent::IpUpdate { interface, ips })
                            && interface@ == mlink_name(old(self).if_index_to_name@, if_index)
                            && ips@ == iips_of(final(self).current_ips@, if_index))
                    } else {
                        *final(self) == *old(self) && ev is None
                    }
                },
            },
    {
        let a = match address {
            Some(a) => a,
            None => {
                return None;
            },
        };
        let li = match mlink_find(&self.if_index_to_name, if_index) {
            Some(li) => li,
            None => {
                return None;
            },
        };
        proof {
            lemma_mlink_at(self.if_index_to_name@, li as int);
        }
        let name = self.if_index_to_name[li].name.clone();
        let ci = iips_find(&self.current_ips, if_index);
        let cur: Vec<IpAddress> = match ci {
            Some(ci) => {
                proof {
                    lemma_iips_at(self.current_ips@, ci as int);
                }
                copy_ip_vec(&self.current_ips[ci].ips)
            },
            None => Vec::new(),
        };
        proof {
            assert(cur@ == iips_view(self.current_ips@, if_index));
        }
        if is_add {
            if contains_ip(&cur, a) {
                return None;
            }
            let mut newlist = cur;
            newlist.push(a);
            let ev_ips = copy_ip_vec(&newlist);
            proof {
                assert forall|x: int, y: int| 0 <= x < y < newlist@.len() implies newlist@[x]
                    != newlist@[y] by {
                    if y < newlist@.len() - 1 {
                    } else {
                        assert(newlist@[y] == a);
                        assert(!iips_view(old(self).current_ips@, if_index).contains(
                            newlist@[x],
                        ) ==> false) by {
                            assert(iips_view(old(self).current_ips@, if_index)[x] == newlist@[x]);
                        }
                    }
                }
            }
            iips_set(&mut self.current_ips, if_index, newlist);
            Some(NetworkEvent::IpUpdate { interface: name, ips: ev_ips })
        } else {
            let p = match ip_position(&cur, a) {
                Some(p) => p,
                None => {
                    return None;
                },
            };
            let ghost pre_list = cur@;
            let mut newlist = cur;
            newlist.remove(p);
            proof {
                assert(newlist@ == pre_list.remove(p as int));
                assert forall|w: int| 0 <= w < newlist@.len() implies #[trigger] newlist@[w]
                    == pre_list[if w < p as int {
                    w
                } else {
                    w + 1
                }] by {}
                assert forall|x: int, y: int| 0 <= x < y < newlist@.len() implies newlist@[x]
                    != newlist@[y] by {
                    let x0 = if x < p as int { x } else { x + 1 };
                    let y0 = if y < p as int { y } else { y + 1 };
                    assert(pre_list[x0] != pre_list[y0]);
                }
                assert forall|b: IpAddress| #[trigger] newlist@.contains(b) implies (
                pre_list.contains(b) && b != a) by {
                    let w = choose|w: int| 0 <= w < newlist@.len() && newlist@[w] == b;
                    let w0 = if w < p as int { w } else { w + 1 };
                    assert(pre_list[w0] == b);
                    assert(w0 != p as int);
                    if b == a {
                        if w0 < p as int {
                            assert(pre_list[w0] != pre_list[p as int]);
                        } else {
                            assert(pre_list[p as int] != pre_list[w0]);
                        }
                    }
                }
                assert forall|b: IpAddress| pre_list.contains(b) && b != a
                    implies #[trigger] newlist@.contains(b) by {
                    let w = choose|w: int| 0 <= w < pre_list.len() && pre_list[w] == b;
                    assert(w != p as int);
                    let w1 = if w < p as int { w } else { w - 1 };
                    assert(newlist@[w1] == b);
                }
            }
            let ev_ips = copy_ip_vec(&newlist);
            iips_set(&mut self.current_ips, if_index, newlist);
            Some(NetworkEvent::IpUpdate { interface: name, ips: ev_ips })
        }
    }

    /// Processes one link message.  A new mapping or a changed up-flag
    /// is reported; a rename is reported as the old name going down,
    /// the addresses re-emitted under the new name, and the new name's
    /// presence; a deletion resolves the name through the watcher's own
    /// map and empties the interface.
    pub fn handle_link_change(
        &mut self,
        if_index: u32,
        name: Option<String>,
        is_up: bool,
        is_add: bool,
    ) -> (evs: Vec<NetworkEvent>)
        requires
            old(self).wf(),
        ensures
            final(self).wf(),
            match name {
                Some(ref n) => {
                    if is_add {
                        &&& final(self).current_ips == old(self).current_ips
                        &&& mlink_has(final(self).if_index_to_name@, if_index)
                        &&& mlink_name(final(self).if_index_to_name@, if_index) == n@
                        &&& mlink_up(final(self).if_index_to_name@, if_index) == is_up
                        &&& forall|x: u32|
                            x != if_index ==> mlink_has(final(self).if_index_to_name@, x)
                                == mlink_has(old(self).if_index_to_name@, x)
                        &&& forall|x: u32|
                            x != if_index && mlink_has(old(self).if_index_to_name@, x)
                                ==> mlink_name(final(self).if_index_to_name@, x) == mlink_name(
                                old(self).if_index_to_name@,
                                x,
                            ) && mlink_up(final(self).if_index_to_name@, x) == mlink_up(
                                old(self).if_index_to_name@,
                                x,
                            )
                        &&& (if !mlink_has(old(self).if_index_to_name@, if_index) {
                            // a link the watcher did not know
                            evs@.len() == 1 && (evs@[0] matches NetworkEvent::LinkChanged {
                                name: n0,
                                is_up: u0,
                            } && n0@ == n@ && u0 == is_up)
                        } else if mlink_name(old(self).if_index_to_name@, if_index) == n@ {
                            // same mapping: only an up-flag change is reported
                            if mlink_up(old(self).if_index_to_name@, if_index) == is_up {
                                evs@.len() == 0
                            } else {
                                evs@.len() == 1 && (evs@[0] matches NetworkEvent::LinkChanged {
                                    name: n0,
                                    is_up: u0,
                                } && n0@ == n@ && u0 == is_up)
                            }
                        } else {
                            // a rename: the old name goes away, the
                            // addresses reappear under the new one
                            &&& evs@.len() == 3
                            &&& (evs@[0] matches NetworkEvent::LinkChanged { name: n0, is_up: u0 }
                                && n0@ == mlink_name(old(self).if_index_to_name@, if_index) && u0
                                == false)
                            &&& (evs@[1] matches NetworkEvent::IpUpdate { interface, ips }
                                && interface@ == n@ && ips@ == iips_view(
                                old(self).current_ips@,
                                if_index,
                            ))
                            &&& (evs@[2] matches NetworkEvent::LinkChanged { name: n2, is_up: u2 }
                                && n2@ == n@ && u2 == is_up)
                        })
                    } else {
                        deletion_behavior(*old(self), *final(self), evs@, if_index)
                    }
                },
                None => {
                    if is_add {
                        *final(self) == *old(self) && evs@.len() == 0
                    } else {
                        deletion_behavior(*old(self), *final(self), evs@, if_index)
                    }
                },
            },
    {
        if is_add {
            let n = match name {
                Some(n) => n,
                None => {
                    return Vec::new();
                },
            };
            let mut evs: Vec<NetworkEvent> = Vec::new();
            match mlink_find(&self.if_index_to_name, if_index) {
                None => {
                    mlink_set(&mut self.if_index_to_name, if_index, n.clone(), is_up);
                    evs.push(NetworkEvent::LinkChanged { name: n, is_up });
                    evs
                },
                Some(li) => {
                    proof {
                        lemma_mlink_at(self.if_index_to_name@, li as int);
                    }
                    let old_name = self.if_index_to_name[li].name.clone();
                    let old_up = self.if_index_to_name[li].up;
                    if crate::types::string_eq(&old_name, &n) {
                        if old_up == is_up {
                            evs
                        } else {
                            mlink_set(&mut self.if_index_to_name, if_index, n.clone(), is_up);
                            evs.push(NetworkEvent::LinkChanged { name: n, is_up });
                            evs
                        }
                    } else {
                        let ci = iips_find(&self.current_ips, if_index);
                        let cur: Vec<IpAddress> = match ci {
                            Some(ci) => {
                                proof {
                                    lemma_iips_at(self.current_ips@, ci as int);
                                }
                                copy_ip_vec(&self.current_ips[ci].ips)
                            },
                            None => Vec::new(),
                        };
                        proof {
                            assert(cur@ == iips_view(self.current_ips@, if_index));
                        }
                        mlink_set(&mut self.if_index_to_name, if_index, n.clone(), is_up);
                        evs.push(NetworkEvent::LinkChanged { name: old_name, is_up: false });
                        evs.push(NetworkEvent::IpUpdate { interface: n.clone(), ips: cur });
                        evs.push(NetworkEvent::LinkChanged { name: n, is_up });
                        evs
                    }
                },
            }
        } else {
            let mut evs: Vec<NetworkEvent> = Vec::new();
            match mlink_remove(&mut self.if_index_to_name, if_index) {
                None => evs,
                Some(removed_name) => {
                    let had_ips = iips_remove(&mut self.current_ips, if_index);
                    if had_ips {
                        evs.push(
                            NetworkEvent::IpUpdate {
                                interface: removed_name.clone(),
                                ips: Vec::new(),
                            },
                        );
                        evs.push(NetworkEvent::LinkChanged { name: removed_name, is_up: false });
                        evs
                    } else {
                        evs.push(NetworkEvent::LinkChanged { name: removed_name, is_up: false });
                        evs
                    }
                },
            }
        }
    }
}

/// What processing a link deletion does: the binding and the addresses
/// are forgotten, and the removal is reported under the last-known name.
pub open spec fn deletion_behavior(
    pre: NetworkMonitor,
    post: NetworkMonitor,
    evs: Seq<NetworkEvent>,
    if_index: u32,
) -> bool {
    &&& !mlink_has(post.if_index_to_name@, if_index)
    &&& (mlink_has(pre.if_index_to_name@, if_index) ==> !iips_has(post.current_ips@, if_index))
    &&& forall|x: u32|
        x != if_index ==> mlink_has(post.if_index_to_name@, x) == mlink_has(
            pre.if_index_to_name@,
            x,
        ) && iips_has(post.current_ips@, x) == iips_has(pre.current_ips@, x)
    &&& forall|x: u32|
        x != if_index && mlink_has(pre.if_index_to_name@, x) ==> mlink_name(
            post.if_index_to_name@,
            x,
        ) == mlink_name(pre.if_index_to_name@, x) && mlink_up(post.if_index_to_name@, x)
            == mlink_up(pre.if_index_to_name@, x)
    &&& forall|x: u32|
        x != if_index && iips_has(pre.current_ips@, x) ==> iips_of(post.current_ips@, x)
            == iips_of(pre.current_ips@, x)
    &&& (if !mlink_has(pre.if_index_to_name@, if_index) {
        post == pre && evs.len() == 0
    } else if iips_has(pre.current_ips@, if_index) {
        &&& evs.len() == 2
        &&& (evs[0] matches NetworkEvent::IpUpdate { interface, ips } && interface@ == mlink_name(
            pre.if_index_to_name@,
            if_index,
        ) && ips@.len() == 0)
        &&& (evs[1] matches NetworkEvent::LinkChanged { name, is_up } && name@ == mlink_name(
            pre.if_index_to_name@,
            if_index,
        ) && is_up == false)
    } else {
        evs.len() == 1 && (evs[0] matches NetworkEvent::LinkChanged { name, is_up } && name@
            == mlink_name(pre.if_index_to_name@, if_index) && is_up == false)
    })
}

} // verus!
