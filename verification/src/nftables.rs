//! The filter projector: builds the transactional batches that make the
//! kernel's named address sets equal to the zone projection.
//!
//! The batch contents are computed as a verified plan (`NftCommand`); the
//! plan is then loaded into an `nftables` crate batch through trusted
//! wrappers, and the surrounding process submits that batch to the
//! kernel as one transaction.

use vstd::prelude::*;
use vstd::string::*;

use crate::state::{
    NetworkState, ZoneSets, compute_projection, nodup_u32, nodup_u128, zone_has_addr,
    zones_in_order,
};
use crate::types::{InterfaceConfig, IpAddress};
use crate::addr::{ipv4_text, ipv6_text, ipv4_string, ipv6_string};

verus! {

/// Ghost image of one transaction step.
pub enum NftCommandView {
    CreateTable { table: Seq<char> },
    CreateSetV4 { table: Seq<char>, set: Seq<char> },
    CreateSetV6 { table: Seq<char>, set: Seq<char> },
    FlushSetV4 { table: Seq<char>, set: Seq<char> },
    FlushSetV6 { table: Seq<char>, set: Seq<char> },
    AddElement { table: Seq<char>, set: Seq<char>, element: Seq<char> },
}

/// One step of a kernel-set transaction.  Creation steps are idempotent
/// (`add` leaves an existing object untouched); a flush empties a set; an
/// element step adds one address to a set.
#[derive(Debug, Clone)]
pub enum NftCommand {
    CreateTable { table: String },
    CreateSetV4 { table: String, set: String },
    CreateSetV6 { table: String, set: String },
    FlushSetV4 { table: String, set: String },
    FlushSetV6 { table: String, set: String },
    AddElement { table: String, set: String, element: String },
}

impl View for NftCommand {
    type V = NftCommandView;

    open spec fn view(&self) -> NftCommandView {
        match self {
            NftCommand::CreateTable { table } => NftCommandView::CreateTable { table: table@ },
            NftCommand::CreateSetV4 { table, set } => NftCommandView::CreateSetV4 {
                table: table@,
                set: set@,
            },
            NftCommand::CreateSetV6 { table, set } => NftCommandView::CreateSetV6 {
                table: table@,
                set: set@,
            },
            NftCommand::FlushSetV4 { table, set } => NftCommandView::FlushSetV4 {
                table: table@,
                set: set@,
            },
            NftCommand::FlushSetV6 { table, set } => NftCommandView::FlushSetV6 {
                table: table@,
                set: set@,
            },
            NftCommand::AddElement { table, set, element } => NftCommandView::AddElement {
                table: table@,
                set: set@,
                element: element@,
            },
        }
    }
}

impl DeepView for NftCommand {
    type V = NftCommandView;

    open spec fn deep_view(&self) -> NftCommandView {
        self.view()
    }
}

/// The name of a zone's v4 kernel set.
pub open spec fn v4_set_name(zone: Seq<char>) -> Seq<char> {
    zone + seq!['_', 'i', 'p', 's']
}

/// The name of a zone's v6 kernel set.
pub open spec fn v6_set_name(zone: Seq<char>) -> Seq<char> {
    zone + seq!['_', 'i', 'p', 'v', '6']
}

/// Appends `_ips` to a zone name.
pub fn v4_set_string(zone: &str) -> (r: String)
    ensures
        r@ == v4_set_name(zone@),
{
    let mut s = zone.to_owned();
    s.append("_ips");
    proof {
        reveal_strlit("_ips");
        assert(s@ =~= v4_set_name(zone@));
    }
    s
}

/// Appends `_ipv6` to a zone name.
pub fn v6_set_string(zone: &str) -> (r: String)
    ensures
        r@ == v6_set_name(zone@),
{
    let mut s = zone.to_owned();
    s.append("_ipv6");
    proof {
        reveal_strlit("_ipv6");
        assert(s@ =~= v6_set_name(zone@));
    }
    s
}

// ---------------------------------------------------------------------------
// The ensure-structure plan
// ---------------------------------------------------------------------------

/// The set-creation steps for the given zones, two per zone, in order.
pub open spec fn structure_sets(table: Seq<char>, zones: Seq<Seq<char>>) -> Seq<NftCommandView>
    decreases zones.len(),
{
    if zones.len() == 0 {
        Seq::empty()
    } else {
        structure_sets(table, zones.drop_last()) + seq![
            NftCommandView::CreateSetV4 { table, set: v4_set_name(zones.last()) },
            NftCommandView::CreateSetV6 { table, set: v6_set_name(zones.last()) },
        ]
    }
}

/// The whole ensure-structure transaction: create the table, then both
/// sets of every declared zone.
pub open spec fn structure_plan(table: Seq<char>, zones: Seq<Seq<char>>) -> Seq<NftCommandView> {
    seq![NftCommandView::CreateTable { table }] + structure_sets(table, zones)
}

// ---------------------------------------------------------------------------
// The apply-projection plan
// ---------------------------------------------------------------------------

/// Ghost image of one zone's projected sets.
pub struct ZoneSetsView {
    pub zone: Seq<char>,
    pub v4: Seq<u32>,
    pub v6: Seq<u128>,
}

impl View for ZoneSets {
    type V = ZoneSetsView;

    open spec fn view(&self) -> ZoneSetsView {
        ZoneSetsView { zone: self.zone@, v4: self.v4@, v6: self.v6@ }
    }
}

impl DeepView for ZoneSets {
    type V = ZoneSetsView;

    open spec fn deep_view(&self) -> ZoneSetsView {
        self.view()
    }
}

/// Two flush steps per zone, in projection order.
pub open spec fn flush_cmds(table: Seq<char>, proj: Seq<ZoneSetsView>) -> Seq<NftCommandView>
    decreases proj.len(),
{
    if proj.len() == 0 {
        Seq::empty()
    } else {
        flush_cmds(table, proj.drop_last()) + seq![
            NftCommandView::FlushSetV4 { table, set: v4_set_name(proj.last().zone) },
            NftCommandView::FlushSetV6 { table, set: v6_set_name(proj.last().zone) },
        ]
    }
}

/// One element step per v4 address, in list order.
pub open spec fn v4_adds(table: Seq<char>, set: Seq<char>, v4: Seq<u32>) -> Seq<NftCommandView>
    decreases v4.len(),
{
    if v4.len() == 0 {
        Seq::empty()
    } else {
        v4_adds(table, set, v4.drop_last()).push(
            NftCommandView::AddElement { table, set, element: ipv4_text(v4.last()) },
        )
    }
}

/// One element step per v6 address, in list order.
pub open spec fn v6_adds(table: Seq<char>, set: Seq<char>, v6: Seq<u128>) -> Seq<NftCommandView>
    decreases v6.len(),
{
    if v6.len() == 0 {
        Seq::empty()
    } else {
        v6_adds(table, set, v6.drop_last()).push(
            NftCommandView::AddElement { table, set, element: ipv6_text(v6.last()) },
        )
    }
}

/// The element steps of one zone: its v4 addresses, then its v6 ones.
pub open spec fn zone_adds(table: Seq<char>, z: ZoneSetsView) -> Seq<NftCommandView> {
    v4_adds(table, v4_set_name(z.zone), z.v4) + v6_adds(table, v6_set_name(z.zone), z.v6)
}

/// The element steps of every zone, in projection order.
pub open spec fn all_adds(table: Seq<char>, proj: Seq<ZoneSetsView>) -> Seq<NftCommandView>
    decreases proj.len(),
{
    if proj.len() == 0 {
        Seq::empty()
    } else {
        all_adds(table, proj.drop_last()) + zone_adds(table, proj.last())
    }
}

/// The whole apply-projection transaction: flush every zone's sets, then
/// add every zone's current addresses.  An empty zone is flushed only.
pub open spec fn apply_plan(table: Seq<char>, proj: Seq<ZoneSetsView>) -> Seq<NftCommandView> {
    flush_cmds(table, proj) + all_adds(table, proj)
}

/// What `compute_projection` guarantees, as one predicate.
pub open spec fn projection_ok(
    cfg: Seq<InterfaceConfig>,
    st: NetworkState,
    proj: Seq<ZoneSets>,
) -> bool {
    &&& proj.len() == zones_in_order(cfg).len()
    &&& forall|k: int| 0 <= k < proj.len() ==> proj[k].zone@ == zones_in_order(cfg)[k]
    &&& forall|k: int, a: u32|
        0 <= k < proj.len() ==> (#[trigger] proj[k].v4@.contains(a) <==> zone_has_addr(
            cfg,
            st,
            proj[k].zone@,
            IpAddress::V4(a),
        ))
    &&& forall|k: int, a: u128|
        0 <= k < proj.len() ==> (#[trigger] proj[k].v6@.contains(a) <==> zone_has_addr(
            cfg,
            st,
            proj[k].zone@,
            IpAddress::V6(a),
        ))
    &&& forall|k: int| 0 <= k < proj.len() ==> nodup_u32(proj[k].v4@) && nodup_u128(proj[k].v6@)
}

// ---------------------------------------------------------------------------
// The trusted batch layer
// ---------------------------------------------------------------------------

#[verifier::external_type_specification]
#[verifier::external_body]
pub struct ExNftBatch<'a>(nftables::batch::Batch<'a>);

/// The steps a batch holds, each as (kind, table, set, element): 0 adds
/// the table, 1 and 2 add a v4 or v6 set, 3 and 4 flush one, 5 adds an
/// element.
pub uninterp spec fn batch_steps(b: nftables::batch::Batch) -> Seq<
    (int, Seq<char>, Seq<char>, Seq<char>),
>;

/// The step a command stands for.
pub open spec fn step_of(c: NftCommandView) -> (int, Seq<char>, Seq<char>, Seq<char>) {
    match c {
        NftCommandView::CreateTable { table } => (
            0int,
            table,
            Seq::<char>::empty(),
            Seq::<char>::empty(),
        ),
        NftCommandView::CreateSetV4 { table, set } => (1int, table, set, Seq::<char>::empty()),
        NftCommandView::CreateSetV6 { table, set } => (2int, table, set, Seq::<char>::empty()),
        NftCommandView::FlushSetV4 { table, set } => (3int, table, set, Seq::<char>::empty()),
        NftCommandView::FlushSetV6 { table, set } => (4int, table, set, Seq::<char>::empty()),
        NftCommandView::AddElement { table, set, element } => (5int, table, set, element),
    }
}

/// The steps a whole plan stands for.
pub open spec fn steps_of(p: Seq<NftCommandView>) -> Seq<(int, Seq<char>, Seq<char>, Seq<char>)> {
    p.map_values(|c: NftCommandView| step_of(c))
}

/// Relies on nftables::batch::Batch::new: a batch that holds no objects.
#[verifier::external_body]
fn batch_new() -> (b: nftables::batch::Batch<'static>)
    ensures
        batch_steps(b) == Seq::<(int, Seq<char>, Seq<char>, Seq<char>)>::empty(),
{
    nftables::batch::Batch::new()
}

/// Relies on nftables::batch::Batch::add: appends one add-table command
/// for the named table in the inet family.
#[verifier::external_body]
fn batch_add_table(b: &mut nftables::batch::Batch<'static>, table: &str)
    ensures
        batch_steps(*final(b)) == batch_steps(*old(b)).push(
            (0int, table@, Seq::<char>::empty(), Seq::<char>::empty()),
        ),
{
    b.add(nftables::schema::NfListObject::Table(nftables::schema::Table {
        family: nftables::types::NfFamily::INet,
        name: std::borrow::Cow::Owned(table.to_string()),
        handle: None,
    }));
}

/// Relies on nftables::batch::Batch::add: appends one add-set command
/// for a dynamic inet set of type ipv4_addr.
#[verifier::external_body]
fn batch_add_set_v4(b: &mut nftables::batch::Batch<'static>, table: &str, set: &str)
    ensures
        batch_steps(*final(b)) == batch_steps(*old(b)).push(
            (1int, table@, set@, Seq::<char>::empty()),
        ),
{
    b.add(nftables::schema::NfListObject::Set(Box::new(nftables::schema::Set {
        family: nftables::types::NfFamily::INet,
        table: std::borrow::Cow::Owned(table.to_string()),
        name: std::borrow::Cow::Owned(set.to_string()),
        set_type: nftables::schema::SetTypeValue::Single(nftables::schema::SetType::Ipv4Addr),
        flags: Some(std::collections::HashSet::from([nftables::schema::SetFlag::Dynamic])),
        ..Default::default()
    })));
}

/// Relies on nftables::batch::Batch::add: appends one add-set command
/// for a dynamic inet set of type ipv6_addr.
#[verifier::external_body]
fn batch_add_set_v6(b: &mut nftables::batch::Batch<'static>, table: &str, set: &str)
    ensures
        batch_steps(*final(b)) == batch_steps(*old(b)).push(
            (2int, table@, set@, Seq::<char>::empty()),
        ),
{
    b.add(nftables::schema::NfListObject::Set(Box::new(nftables::schema::Set {
        family: nftables::types::NfFamily::INet,
        table: std::borrow::Cow::Owned(table.to_string()),
        name: std::borrow::Cow::Owned(set.to_string()),
        set_type: nftables::schema::SetTypeValue::Single(nftables::schema::SetType::Ipv6Addr),
        flags: Some(std::collections::HashSet::from([nftables::schema::SetFlag::Dynamic])),
        ..Default::default()
    })));
}

/// Relies on nftables::batch::Batch::add_cmd: appends one flush command
/// that names an inet set of type ipv4_addr.
#[verifier::external_body]
fn batch_flush_set_v4(b: &mut nftables::batch::Batch<'static>, table: &str, set: &str)
    ensures
        batch_steps(*final(b)) == batch_steps(*old(b)).push(
            (3int, table@, set@, Seq::<char>::empty()),
        ),
{
    b.add_cmd(nftables::schema::NfCmd::Flush(nftables::schema::FlushObject::Set(Box::new(
        nftables::schema::Set {
            family: nftables::types::NfFamily::INet,
            table: std::borrow::Cow::Owned(table.to_string()),
            name: std::borrow::Cow::Owned(set.to_string()),
            set_type: nftables::schema::SetTypeValue::Single(nftables::schema::SetType::Ipv4Addr),
            ..Default::default()
        },
    ))));
}

/// Relies on nftables::batch::Batch::add_cmd: appends one flush command
/// that names an inet set of type ipv6_addr.
#[verifier::external_body]
fn batch_flush_set_v6(b: &mut nftables::batch::Batch<'static>, table: &str, set: &str)
    ensures
        batch_steps(*final(b)) == batch_steps(*old(b)).push(
            (4int, table@, set@, Seq::<char>::empty()),
        ),
{
    b.add_cmd(nftables::schema::NfCmd::Flush(nftables::schema::FlushObject::Set(Box::new(
        nftables::schema::Set {
            family: nftables::types::NfFamily::INet,
            table: std::borrow::Cow::Owned(table.to_string()),
            name: std::borrow::Cow::Owned(set.to_string()),
            set_type: nftables::schema::SetTypeValue::Single(nftables::schema::SetType::Ipv6Addr),
            ..Default::default()
        },
    ))));
}

/// Relies on nftables::batch::Batch::add: appends one add-element
/// command holding the given element text.
#[verifier::external_body]
fn batch_add_element(b: &mut nftables::batch::Batch<'static>, table: &str, set: &str, element: &str)
    ensures
        batch_steps(*final(b)) == batch_steps(*old(b)).push((5int, table@, set@, element@)),
{
    b.add(nftables::schema::NfListObject::Element(nftables::schema::Element {
        family: nftables::types::NfFamily::INet,
        table: std::borrow::Cow::Owned(table.to_string()),
        name: std::borrow::Cow::Owned(set.to_string()),
        elem: std::borrow::Cow::Owned(vec![nftables::expr::Expression::String(
            std::borrow::Cow::Owned(element.to_string()),
        )]),
    }));
}

/// Loads a verified plan into an `nftables` batch, step for step.
pub fn plan_batch(plan: &Vec<NftCommand>) -> (b: nftables::batch::Batch<'static>)
    ensures
        batch_steps(b) == steps_of(plan.deep_view()),
{
    let mut b = batch_new();
    let n = plan.len();
    let mut i: usize = 0;
    proof {
        assert(steps_of(plan.deep_view().take(0)) =~= Seq::<(
            int,
            Seq<char>,
            Seq<char>,
            Seq<char>,
        )>::empty());
    }
    while i < n
        invariant
            n == plan@.len(),
            i <= n,
            plan.deep_view().len() == n,
            batch_steps(b) == steps_of(plan.deep_view().take(i as int)),
        decreases n - i,
    {
        let ghost pre = batch_steps(b);
        match &plan[i] {
            NftCommand::CreateTable { table } => {
                batch_add_table(&mut b, table.as_str());
            },
            NftCommand::CreateSetV4 { table, set } => {
                batch_add_set_v4(&mut b, table.as_str(), set.as_str());
            },
            NftCommand::CreateSetV6 { table, set } => {
                batch_add_set_v6(&mut b, table.as_str(), set.as_str());
            },
            NftCommand::FlushSetV4 { table, set } => {
                batch_flush_set_v4(&mut b, table.as_str(), set.as_str());
            },
            NftCommand::FlushSetV6 { table, set } => {
                batch_flush_set_v6(&mut b, table.as_str(), set.as_str());
            },
            NftCommand::AddElement { table, set, element } => {
                batch_add_element(&mut b, table.as_str(), set.as_str(), element.as_str());
            },
        }
        proof {
            assert(batch_steps(b) == pre.push(step_of(plan.deep_view()[i as int])));
            assert(steps_of(plan.deep_view().take(i as int + 1)) =~= steps_of(
                plan.deep_view().take(i as int),
            ).push(step_of(plan.deep_view()[i as int])));
        }
        i += 1;
    }
    proof {
        assert(plan.deep_view().take(n as int) =~= plan.deep_view());
    }
    b
}

// ---------------------------------------------------------------------------
// The manager
// ---------------------------------------------------------------------------

/// The result of planning one apply-projection transaction.
pub struct ApplyPlan {
    pub projection: Vec<ZoneSets>,
    pub plan: Vec<NftCommand>,
}

/// Plans the kernel-set transactions for a configuration snapshot.  The
/// designated table is named `filter`.
pub struct NftablesManager {
    pub config: Vec<InterfaceConfig>,
    pub table_name: String,
}

impl NftablesManager {
    /// Creates a manager over the given interface configuration.
    pub fn new(config: Vec<InterfaceConfig>) -> (r: NftablesManager)
        ensures
            r.config == config,
            r.table_name@ == "filter"@,
    {
        NftablesManager { config, table_name: String::from_str("filter") }
    }

    /// The ensure-structure plan: create the table, then, for every
    /// declared zone in order of first appearance, its two sets.
    pub fn load_rules(&self) -> (plan: Vec<NftCommand>)
        ensures
            plan.deep_view() == structure_plan(
                self.table_name@,
                zones_in_order(self.config@),
            ),
    {
        let zones = crate::state::unique_zones(&self.config);
        let mut plan: Vec<NftCommand> = Vec::new();
        plan.push(NftCommand::CreateTable { table: self.table_name.clone() });
        let ghost zv = zones.deep_view();
        proof {
            assert(structure_sets(self.table_name@, zv.take(0)) =~= Seq::<
                NftCommandView,
            >::empty());
            assert(plan.deep_view() =~= seq![
                NftCommandView::CreateTable { table: self.table_name@ },
            ] + structure_sets(self.table_name@, zv.take(0)));
        }
        let n = zones.len();
        let mut k: usize = 0;
        while k < n
            invariant
                n == zones@.len(),
                zv == zones.deep_view(),
                zv.len() == n,
                k <= n,
                plan.deep_view() =~= seq![
                    NftCommandView::CreateTable { table: self.table_name@ },
                ] + structure_sets(self.table_name@, zv.take(k as int)),
            decreases n - k,
        {
            let ghost pre = plan.deep_view();
            let s4 = v4_set_string(zones[k].as_str());
            let s6 = v6_set_string(zones[k].as_str());
            plan.push(NftCommand::CreateSetV4 { table: self.table_name.clone(), set: s4 });
            plan.push(NftCommand::CreateSetV6 { table: self.table_name.clone(), set: s6 });
            proof {
                assert(zv[k as int] == zones@[k as int]@);
                assert(zv.take(k as int + 1).drop_last() =~= zv.take(k as int));
                assert(zv.take(k as int + 1).last() == zv[k as int]);
                assert(plan.deep_view() =~= pre + seq![
                    NftCommandView::CreateSetV4 {
                        table: self.table_name@,
                        set: v4_set_name(zv[k as int]),
                    },
                    NftCommandView::CreateSetV6 {
                        table: self.table_name@,
                        set: v6_set_name(zv[k as int]),
                    },
                ]);
                assert(plan.deep_view() =~= seq![
                    NftCommandView::CreateTable { table: self.table_name@ },
                ] + structure_sets(self.table_name@, zv.take(k as int + 1)));
            }
            k += 1;
        }
        proof {
            assert(zv.take(n as int) =~= zv);
        }
        plan
    }

    /// The apply-projection plan: compute the projection of the current
    /// network state, then flush both sets of every zone and re-add the
    /// zone's current addresses.
    pub fn apply_rules(&self, network_state: &NetworkState) -> (r: ApplyPlan)
        requires
            network_state.wf(),
        ensures
            projection_ok(self.config@, *network_state, r.projection@),
            r.plan.deep_view() == apply_plan(self.table_name@, r.projection.deep_view()),
    {
        let projection = compute_projection(&self.config, network_state);
        let ghost pv = projection.deep_view();
        let mut plan: Vec<NftCommand> = Vec::new();
        let n = projection.len();
        proof {
            assert(pv.len() == n);
            assert(flush_cmds(self.table_name@, pv.take(0)) =~= Seq::<NftCommandView>::empty());
            assert(plan.deep_view() =~= flush_cmds(self.table_name@, pv.take(0)));
        }
        let mut k: usize = 0;
        while k < n
            invariant
                n == projection@.len(),
                pv == projection.deep_view(),
                pv.len() == n,
                k <= n,
                plan.deep_view() =~= flush_cmds(self.table_name@, pv.take(k as int)),
            decreases n - k,
        {
            let ghost pre = plan.deep_view();
            let s4 = v4_set_string(projection[k].zone.as_str());
            let s6 = v6_set_string(projection[k].zone.as_str());
            plan.push(NftCommand::FlushSetV4 { table: self.table_name.clone(), set: s4 });
            plan.push(NftCommand::FlushSetV6 { table: self.table_name.clone(), set: s6 });
            proof {
                assert(pv[k as int] == projection@[k as int]@);
                assert(pv.take(k as int + 1).drop_last() =~= pv.take(k as int));
                assert(pv.take(k as int + 1).last() == pv[k as int]);
                assert(plan.deep_view() =~= pre + seq![
                    NftCommandView::FlushSetV4 {
                        table: self.table_name@,
                        set: v4_set_name(pv[k as int].zone),
                    },
                    NftCommandView::FlushSetV6 {
                        table: self.table_name@,
                        set: v6_set_name(pv[k as int].zone),
                    },
                ]);
                assert(plan.deep_view() =~= flush_cmds(self.table_name@, pv.take(k as int + 1)));
            }
            k += 1;
        }
        proof {
            assert(pv.take(n as int) =~= pv);
            assert(all_adds(self.table_name@, pv.take(0)) =~= Seq::<NftCommandView>::empty());
            assert(plan.deep_view() =~= flush_cmds(self.table_name@, pv) + all_adds(
                self.table_name@,
                pv.take(0),
            ));
        }
        let mut k: usize = 0;
        while k < n
            invariant
                n == projection@.len(),
                pv == projection.deep_view(),
                pv.len() == n,
                k <= n,
                plan.deep_view() =~= flush_cmds(self.table_name@, pv) + all_adds(
                    self.table_name@,
                    pv.take(k as int),
                ),
            decreases n - k,
        {
            let s4 = v4_set_string(projection[k].zone.as_str());
            let s6 = v6_set_string(projection[k].zone.as_str());
            let ghost base = plan.deep_view();
            let ghost zview = pv[k as int];
            let m4 = projection[k].v4.len();
            let mut j: usize = 0;
            proof {
                assert(v4_adds(self.table_name@, s4@, zview.v4.take(0)) =~= Seq::<
                    NftCommandView,
                >::empty());
                assert(plan.deep_view() =~= base + v4_adds(self.table_name@, s4@, zview.v4.take(0)));
            }
            while j < m4
                invariant
                    pv == projection.deep_view(),
                    pv.len() == n,
                    k < n,
                    zview == pv[k as int],
                    m4 == projection@[k as int].v4@.len(),
                    zview.v4 == projection@[k as int].v4@,
                    j <= m4,
                    s4@ == v4_set_name(zview.zone),
                    plan.deep_view() =~= base + v4_adds(
                        self.table_name@,
                        s4@,
                        zview.v4.take(j as int),
                    ),
                decreases m4 - j,
            {
                let ghost pre = plan.deep_view();
                let a = projection[k].v4[j];
                let e = ipv4_string(a);
                plan.push(
                    NftCommand::AddElement {
                        table: self.table_name.clone(),
                        set: s4.clone(),
                        element: e,
                    },
                );
                proof {
                    assert(zview.v4.take(j as int + 1).drop_last() =~= zview.v4.take(j as int));
                    assert(zview.v4.take(j as int + 1).last() == zview.v4[j as int]);
                    assert(plan.deep_view() =~= pre.push(
                        NftCommandView::AddElement {
                            table: self.table_name@,
                            set: s4@,
                            element: ipv4_text(zview.v4[j as int]),
                        },
                    ));
                    assert(plan.deep_view() =~= base + v4_adds(
                        self.table_name@,
                        s4@,
                        zview.v4.take(j as int + 1),
                    ));
                }
                j += 1;
            }
            proof {
                assert(zview.v4.take(m4 as int) =~= zview.v4);
            }
            let ghost base6 = plan.deep_view();
            let m6 = projection[k].v6.len();
            let mut j: usize = 0;
            proof {
                assert(v6_adds(self.table_name@, s6@, zview.v6.take(0)) =~= Seq::<
                    NftCommandView,
                >::empty());
                assert(plan.deep_view() =~= base6 + v6_adds(
                    self.table_name@,
                    s6@,
                    zview.v6.take(0),
                ));
            }
            while j < m6
                invariant
                    pv == projection.deep_view(),
                    pv.len() == n,
                    k < n,
                    zview == pv[k as int],
                    m6 == projection@[k as int].v6@.len(),
                    zview.v6 == projection@[k as int].v6@,
                    j <= m6,
                    s6@ == v6_set_name(zview.zone),
                    plan.deep_view() =~= base6 + v6_adds(
                        self.table_name@,
                        s6@,
                        zview.v6.take(j as int),
                    ),
                decreases m6 - j,
            {
                let ghost pre = plan.deep_view();
                let a = projection[k].v6[j];
                let e = ipv6_string(a);
                plan.push(
                    NftCommand::AddElement {
                        table: self.table_name.clone(),
                        set: s6.clone(),
                        element: e,
                    },
                );
                proof {
                    assert(zview.v6.take(j as int + 1).drop_last() =~= zview.v6.take(j as int));
                    assert(zview.v6.take(j as int + 1).last() == zview.v6[j as int]);
                    assert(plan.deep_view() =~= pre.push(
                        NftCommandView::AddElement {
                            table: self.table_name@,
                            set: s6@,
                            element: ipv6_text(zview.v6[j as int]),
                        },
                    ));
                    assert(plan.deep_view() =~= base6 + v6_adds(
                        self.table_name@,
                        s6@,
                        zview.v6.take(j as int + 1),
                    ));
                }
                j += 1;
            }
            proof {
                assert(zview.v6.take(m6 as int) =~= zview.v6);
                assert(plan.deep_view() =~= base + zone_adds(self.table_name@, zview)) by {
                    assert(base6 =~= base + v4_adds(self.table_name@, s4@, zview.v4));
                    assert(plan.deep_view() =~= base6 + v6_adds(self.table_name@, s6@, zview.v6));
                }
                assert(pv.take(k as int + 1).drop_last() =~= pv.take(k as int));
                assert(pv.take(k as int + 1).last() == pv[k as int]);
                assert(plan.deep_view() =~= flush_cmds(self.table_name@, pv) + all_adds(
                    self.table_name@,
                    pv.take(k as int + 1),
                ));
            }
            k += 1;
        }
        proof {
            assert(pv.take(n as int) =~= pv);
        }
        ApplyPlan { projection, plan }
    }
}

// ---------------------------------------------------------------------------
// The flush-plus-add round trip
// ---------------------------------------------------------------------------

/// A model of the kernel's named sets: each set's elements, as text.
/// Running a plan over it says what the transaction leaves behind.
pub open spec fn run_plan(
    m: Map<Seq<char>, Set<Seq<char>>>,
    p: Seq<NftCommandView>,
) -> Map<Seq<char>, Set<Seq<char>>>
    decreases p.len(),
{
    if p.len() == 0 {
        m
    } else {
        let m1 = run_plan(m, p.drop_last());
        match p.last() {
            NftCommandView::CreateTable { table } => m1,
            NftCommandView::CreateSetV4 { table, set } => if m1.dom().contains(set) {
                m1
            } else {
                m1.insert(set, Set::empty())
            },
            NftCommandView::CreateSetV6 { table, set } => if m1.dom().contains(set) {
                m1
            } else {
                m1.insert(set, Set::empty())
            },
            NftCommandView::FlushSetV4 { table, set } => m1.insert(set, Set::empty()),
            NftCommandView::FlushSetV6 { table, set } => m1.insert(set, Set::empty()),
            NftCommandView::AddElement { table, set, element } => m1.insert(
                set,
                (if m1.dom().contains(set) {
                    m1[set]
                } else {
                    Set::empty()
                }).insert(element),
            ),
        }
    }
}

/// The texts of a v4 address list, as a set.
pub open spec fn v4_text_set(v4: Seq<u32>) -> Set<Seq<char>> {
    Set::new(|t: Seq<char>| exists|i: int| 0 <= i < v4.len() && t == ipv4_text(v4[i]))
}

/// The texts of a v6 address list, as a set.
pub open spec fn v6_text_set(v6: Seq<u128>) -> Set<Seq<char>> {
    Set::new(|t: Seq<char>| exists|i: int| 0 <= i < v6.len() && t == ipv6_text(v6[i]))
}

/// Running a concatenation runs the parts in turn.
pub proof fn lemma_run_concat(
    m: Map<Seq<char>, Set<Seq<char>>>,
    p: Seq<NftCommandView>,
    q: Seq<NftCommandView>,
)
    ensures
        run_plan(m, p + q) == run_plan(run_plan(m, p), q),
    decreases q.len(),
{
    if q.len() == 0 {
        assert(p + q =~= p);
    } else {
        lemma_run_concat(m, p, q.drop_last());
        assert((p + q).drop_last() =~= p + q.drop_last());
        assert((p + q).last() == q.last());
        assert(run_plan(m, p + q) == run_plan(run_plan(m, p), q));
    }
}

/// Adding a zone's v4 addresses extends exactly that set by their texts.
pub proof fn lemma_v4_adds_effect(
    m: Map<Seq<char>, Set<Seq<char>>>,
    table: Seq<char>,
    set: Seq<char>,
    v4: Seq<u32>,
)
    requires
        m.dom().contains(set),
    ensures
        run_plan(m, v4_adds(table, set, v4)).dom() == m.dom(),
        run_plan(m, v4_adds(table, set, v4))[set] == m[set].union(v4_text_set(v4)),
        forall|s: Seq<char>|
            s != set && m.dom().contains(s) ==> run_plan(m, v4_adds(table, set, v4))[s] == m[s],
    decreases v4.len(),
{
    let p = v4_adds(table, set, v4);
    if v4.len() == 0 {
        assert(m[set].union(v4_text_set(v4)) =~= m[set]);
    } else {
        lemma_v4_adds_effect(m, table, set, v4.drop_last());
        let r1 = run_plan(m, v4_adds(table, set, v4.drop_last()));
        assert(p.drop_last() =~= v4_adds(table, set, v4.drop_last()));
        assert(p.last() == NftCommandView::AddElement {
            table,
            set,
            element: ipv4_text(v4.last()),
        });
        let r = run_plan(m, p);
        assert(r.dom() =~= m.dom());
        assert(r[set] =~= m[set].union(v4_text_set(v4))) by {
            assert(r[set] == r1[set].insert(ipv4_text(v4.last())));
            assert forall|t: Seq<char>| #[trigger] r[set].contains(t) implies m[set].union(
                v4_text_set(v4),
            ).contains(t) by {
                if t == ipv4_text(v4.last()) {
                    assert(v4_text_set(v4).contains(t)) by {
                        assert(0 <= v4.len() - 1 < v4.len() && t == ipv4_text(
                            v4[v4.len() - 1],
                        ));
                    }
                } else {
                    assert(r1[set].contains(t));
                    if !m[set].contains(t) {
                        assert(v4_text_set(v4.drop_last()).contains(t));
                        let i = choose|i: int|
                            0 <= i < v4.drop_last().len() && t == ipv4_text(v4.drop_last()[i]);
                        assert(0 <= i < v4.len() && t == ipv4_text(v4[i]));
                    }
                }
            }
            assert forall|t: Seq<char>| m[set].union(v4_text_set(v4)).contains(t)
                implies #[trigger] r[set].contains(t) by {
                if m[set].contains(t) {
                    assert(r1[set].contains(t));
                } else {
                    let i = choose|i: int| 0 <= i < v4.len() && t == ipv4_text(v4[i]);
                    if i < v4.len() - 1 {
                        assert(v4_text_set(v4.drop_last()).contains(t)) by {
                            assert(0 <= i < v4.drop_last().len() && t == ipv4_text(
                                v4.drop_last()[i],
                            ));
                        }
                        assert(r1[set].contains(t));
                    } else {
                        assert(t == ipv4_text(v4.last()));
                    }
                }
            }
        }
    }
}

/// Adding a zone's v6 addresses extends exactly that set by their texts.
pub proof fn lemma_v6_adds_effect(
    m: Map<Seq<char>, Set<Seq<char>>>,
    table: Seq<char>,
    set: Seq<char>,
    v6: Seq<u128>,
)
    requires
        m.dom().contains(set),
    ensures
        run_plan(m, v6_adds(table, set, v6)).dom() == m.dom(),
        run_plan(m, v6_adds(table, set, v6))[set] == m[set].union(v6_text_set(v6)),
        forall|s: Seq<char>|
            s != set && m.dom().contains(s) ==> run_plan(m, v6_adds(table, set, v6))[s] == m[s],
    decreases v6.len(),
{
    let p = v6_adds(table, set, v6);
    if v6.len() == 0 {
        assert(m[set].union(v6_text_set(v6)) =~= m[set]);
    } else {
        lemma_v6_adds_effect(m, table, set, v6.drop_last());
        let r1 = run_plan(m, v6_adds(table, set, v6.drop_last()));
        assert(p.drop_last() =~= v6_adds(table, set, v6.drop_last()));
        assert(p.last() == NftCommandView::AddElement {
            table,
            set,
            element: ipv6_text(v6.last()),
        });
        let r = run_plan(m, p);
        assert(r.dom() =~= m.dom());
        assert(r[set] =~= m[set].union(v6_text_set(v6))) by {
            assert(r[set] == r1[set].insert(ipv6_text(v6.last())));
            assert forall|t: Seq<char>| #[trigger] r[set].contains(t) implies m[set].union(
                v6_text_set(v6),
            ).contains(t) by {
                if t == ipv6_text(v6.last()) {
                    assert(v6_text_set(v6).contains(t)) by {
                        assert(0 <= v6.len() - 1 < v6.len() && t == ipv6_text(
                            v6[v6.len() - 1],
                        ));
                    }
                } else {
                    assert(r1[set].contains(t));
                    if !m[set].contains(t) {
                        assert(v6_text_set(v6.drop_last()).contains(t));
                        let i = choose|i: int|
                            0 <= i < v6.drop_last().len() && t == ipv6_text(v6.drop_last()[i]);
                        assert(0 <= i < v6.len() && t == ipv6_text(v6[i]));
                    }
                }
            }
            assert forall|t: Seq<char>| m[set].union(v6_text_set(v6)).contains(t)
                implies #[trigger] r[set].contains(t) by {
                if m[set].contains(t) {
                    assert(r1[set].contains(t));
                } else {
                    let i = choose|i: int| 0 <= i < v6.len() && t == ipv6_text(v6[i]);
                    if i < v6.len() - 1 {
                        assert(v6_text_set(v6.drop_last()).contains(t)) by {
                            assert(0 <= i < v6.drop_last().len() && t == ipv6_text(
                                v6.drop_last()[i],
                            ));
                        }
                        assert(r1[set].contains(t));
                    } else {
                        assert(t == ipv6_text(v6.last()));
                    }
                }
            }
        }
    }
}

/// Distinct zones own distinct set names, and a v4 name is never a v6
/// name: the two suffixes end differently.
pub proof fn lemma_set_names(z1: Seq<char>, z2: Seq<char>)
    ensures
        (v4_set_name(z1) == v4_set_name(z2)) == (z1 == z2),
        (v6_set_name(z1) == v6_set_name(z2)) == (z1 == z2),
        v4_set_name(z1) != v6_set_name(z2),
{
    assert(v4_set_name(z1).len() == z1.len() + 4);
    assert(v4_set_name(z2).len() == z2.len() + 4);
    assert(v6_set_name(z1).len() == z1.len() + 5);
    assert(v6_set_name(z2).len() == z2.len() + 5);
    if v4_set_name(z1) == v4_set_name(z2) {
        assert(v4_set_name(z1).len() == v4_set_name(z2).len());
        assert(z1.len() == z2.len());
        assert(z1 =~= z2) by {
            assert forall|i: int| 0 <= i < z1.len() implies z1[i] == z2[i] by {
                assert(v4_set_name(z1)[i] == z1[i]);
                assert(v4_set_name(z2)[i] == z2[i]);
                assert(v4_set_name(z1)[i] == v4_set_name(z2)[i]);
            }
        }
    }
    if v6_set_name(z1) == v6_set_name(z2) {
        assert(v6_set_name(z1).len() == v6_set_name(z2).len());
        assert(z1.len() == z2.len());
        assert(z1 =~= z2) by {
            assert forall|i: int| 0 <= i < z1.len() implies z1[i] == z2[i] by {
                assert(v6_set_name(z1)[i] == z1[i]);
                assert(v6_set_name(z2)[i] == z2[i]);
                assert(v6_set_name(z1)[i] == v6_set_name(z2)[i]);
            }
        }
    }
    assert(v4_set_name(z1)[z1.len() as int + 3] == 's');
    assert(v6_set_name(z2)[z2.len() as int + 4] == '6');
    if v4_set_name(z1) == v6_set_name(z2) {
        assert(z1.len() + 4 == z2.len() + 5);
        assert(v4_set_name(z1)[z1.len() as int + 3] == v6_set_name(z2)[z1.len() as int + 3]);
        assert(z1.len() as int + 3 == z2.len() as int + 4);
        assert(false);
    }
}

/// The name `s` is none of the projection's set names.
pub open spec fn untouched_by_zones(proj: Seq<ZoneSetsView>, s: Seq<char>) -> bool {
    forall|k: int|
        0 <= k < proj.len() ==> s != v4_set_name(#[trigger] proj[k].zone) && s != v6_set_name(
            proj[k].zone,
        )
}

/// Flushing the projection's sets empties exactly them.
#[verifier::rlimit(100)]
pub proof fn lemma_flush_effect(
    m: Map<Seq<char>, Set<Seq<char>>>,
    table: Seq<char>,
    proj: Seq<ZoneSetsView>,
)
    ensures
        forall|k: int|
            0 <= k < proj.len() ==> run_plan(m, flush_cmds(table, proj)).dom().contains(
                #[trigger] v4_set_name(proj[k].zone),
            ) && run_plan(m, flush_cmds(table, proj))[v4_set_name(proj[k].zone)]
                == Set::<Seq<char>>::empty(),
        forall|k: int|
            0 <= k < proj.len() ==> run_plan(m, flush_cmds(table, proj)).dom().contains(
                #[trigger] v6_set_name(proj[k].zone),
            ) && run_plan(m, flush_cmds(table, proj))[v6_set_name(proj[k].zone)]
                == Set::<Seq<char>>::empty(),
        forall|s: Seq<char>|
            #[trigger] untouched_by_zones(proj, s) ==> (run_plan(
                m,
                flush_cmds(table, proj),
            ).dom().contains(s) == m.dom().contains(s) && (m.dom().contains(s) ==> run_plan(
                m,
                flush_cmds(table, proj),
            )[s] == m[s])),
    decreases proj.len(),
{
    if proj.len() > 0 {
        lemma_flush_effect(m, table, proj.drop_last());
        let p = flush_cmds(table, proj);
        let p1 = flush_cmds(table, proj.drop_last());
        let r1 = run_plan(m, p1);
        assert(p =~= p1 + seq![
            NftCommandView::FlushSetV4 { table, set: v4_set_name(proj.last().zone) },
            NftCommandView::FlushSetV6 { table, set: v6_set_name(proj.last().zone) },
        ]);
        let r = run_plan(m, p);
        assert(p.drop_last().drop_last() =~= p1);
        assert(p.drop_last().last() == NftCommandView::FlushSetV4 {
            table,
            set: v4_set_name(proj.last().zone),
        });
        assert(p.last() == NftCommandView::FlushSetV6 {
            table,
            set: v6_set_name(proj.last().zone),
        });
        let rv4 = run_plan(m, p.drop_last());
        assert(rv4 == r1.insert(v4_set_name(proj.last().zone), Set::<Seq<char>>::empty()));
        assert(r == rv4.insert(v6_set_name(proj.last().zone), Set::<Seq<char>>::empty()));
        let nv4 = v4_set_name(proj.last().zone);
        let nv6 = v6_set_name(proj.last().zone);
        assert forall|k: int| 0 <= k < proj.len() implies r.dom().contains(
            #[trigger] v4_set_name(proj[k].zone),
        ) && r[v4_set_name(proj[k].zone)] == Set::<Seq<char>>::empty() by {
            let x = v4_set_name(proj[k].zone);
            if k < proj.len() - 1 {
                assert(proj.drop_last()[k] == proj[k]);
                assert(r1.dom().contains(v4_set_name(proj.drop_last()[k].zone)) && r1[v4_set_name(
                    proj.drop_last()[k].zone,
                )] == Set::<Seq<char>>::empty());
                if x == nv4 {
                    assert(rv4[x] == Set::<Seq<char>>::empty());
                } else {
                    assert(rv4[x] == r1[x]);
                }
                assert(rv4.dom().contains(x));
                if x == nv6 {
                    assert(r[x] == Set::<Seq<char>>::empty());
                } else {
                    assert(r[x] == rv4[x]);
                }
                assert(r.dom().contains(x));
            } else {
                assert(proj[k] == proj.last());
                assert(rv4.dom().contains(x) && rv4[x] == Set::<Seq<char>>::empty());
                if x == nv6 {
                    assert(r[x] == Set::<Seq<char>>::empty());
                } else {
                    assert(r[x] == rv4[x]);
                }
                assert(r.dom().contains(x));
            }
        }
        assert forall|k: int| 0 <= k < proj.len() implies r.dom().contains(
            #[trigger] v6_set_name(proj[k].zone),
        ) && r[v6_set_name(proj[k].zone)] == Set::<Seq<char>>::empty() by {
            let x = v6_set_name(proj[k].zone);
            if k < proj.len() - 1 {
                assert(proj.drop_last()[k] == proj[k]);
                assert(r1.dom().contains(v6_set_name(proj.drop_last()[k].zone)) && r1[v6_set_name(
                    proj.drop_last()[k].zone,
                )] == Set::<Seq<char>>::empty());
                if x == nv4 {
                    assert(rv4[x] == Set::<Seq<char>>::empty());
                } else {
                    assert(rv4[x] == r1[x]);
                }
                assert(rv4.dom().contains(x));
                if x == nv6 {
                    assert(r[x] == Set::<Seq<char>>::empty());
                } else {
                    assert(r[x] == rv4[x]);
                }
                assert(r.dom().contains(x));
            } else {
                assert(proj[k] == proj.last());
                assert(r.dom().contains(x) && r[x] == Set::<Seq<char>>::empty());
            }
        }
        assert forall|s: Seq<char>| #[trigger] untouched_by_zones(proj, s) implies (r.dom()
            .contains(s) == m.dom().contains(s) && (m.dom().contains(s) ==> r[s] == m[s])) by {
            assert(untouched_by_zones(proj.drop_last(), s)) by {
                assert forall|k: int|
                    0 <= k < proj.drop_last().len() implies s != v4_set_name(
                    #[trigger] proj.drop_last()[k].zone,
                ) && s != v6_set_name(proj.drop_last()[k].zone) by {
                    assert(proj.drop_last()[k] == proj[k]);
                }
            }
            assert(r1.dom().contains(s) == m.dom().contains(s) && (m.dom().contains(s) ==> r1[s]
                == m[s]));
            assert(proj[proj.len() - 1] == proj.last());
            assert(s != v4_set_name(proj.last().zone));
            assert(s != v6_set_name(proj.last().zone));
            assert(rv4.dom().contains(s) == r1.dom().contains(s));
            assert(r.dom().contains(s) == rv4.dom().contains(s));
        }
    }
}

/// Adding every zone's addresses, over sets that already exist, extends
/// exactly those sets.
#[verifier::rlimit(100)]
pub proof fn lemma_all_adds_effect(
    m: Map<Seq<char>, Set<Seq<char>>>,
    table: Seq<char>,
    proj: Seq<ZoneSetsView>,
)
    requires
        forall|k: int, l: int| 0 <= k < l < proj.len() ==> proj[k].zone != proj[l].zone,
        forall|k: int|
            0 <= k < proj.len() ==> m.dom().contains(#[trigger] v4_set_name(proj[k].zone))
                && m.dom().contains(v6_set_name(proj[k].zone)),
    ensures
        run_plan(m, all_adds(table, proj)).dom() == m.dom(),
        forall|k: int|
            0 <= k < proj.len() ==> run_plan(m, all_adds(table, proj))[#[trigger] v4_set_name(
                proj[k].zone,
            )] == m[v4_set_name(proj[k].zone)].union(v4_text_set(proj[k].v4)),
        forall|k: int|
            0 <= k < proj.len() ==> run_plan(m, all_adds(table, proj))[#[trigger] v6_set_name(
                proj[k].zone,
            )] == m[v6_set_name(proj[k].zone)].union(v6_text_set(proj[k].v6)),
        forall|s: Seq<char>|
            #[trigger] untouched_by_zones(proj, s) && m.dom().contains(s) ==> run_plan(
                m,
                all_adds(table, proj),
            )[s] == m[s],
    decreases proj.len(),
{
    if proj.len() > 0 {
        let front = proj.drop_last();
        let z = proj.last();
        assert(forall|k: int, l: int| 0 <= k < l < front.len() ==> front[k].zone != front[l].zone);
        assert forall|k: int| 0 <= k < front.len() implies m.dom().contains(
            #[trigger] v4_set_name(front[k].zone),
        ) && m.dom().contains(v6_set_name(front[k].zone)) by {
            assert(front[k] == proj[k]);
        }
        lemma_all_adds_effect(m, table, front);
        let rf = run_plan(m, all_adds(table, front));
        lemma_run_concat(m, all_adds(table, front), zone_adds(table, z));
        assert(all_adds(table, proj) == all_adds(table, front) + zone_adds(table, z));
        let r = run_plan(rf, zone_adds(table, z));
        assert(run_plan(m, all_adds(table, proj)) == r);
        // the last zone's sets were untouched by the earlier zones
        assert(proj[proj.len() - 1] == z);
        assert(m.dom().contains(v4_set_name(z.zone)) && m.dom().contains(v6_set_name(z.zone)));
        assert(rf[v4_set_name(z.zone)] == m[v4_set_name(z.zone)]) by {
            assert(untouched_by_zones(front, v4_set_name(z.zone))) by {
                assert forall|k: int| 0 <= k < front.len() implies v4_set_name(z.zone)
                    != v4_set_name(#[trigger] front[k].zone) && v4_set_name(z.zone)
                    != v6_set_name(front[k].zone) by {
                    assert(front[k] == proj[k]);
                    assert(proj[k].zone != z.zone);
                    lemma_set_names(z.zone, front[k].zone);
                    lemma_set_names(front[k].zone, z.zone);
                }
            }
        }
        assert(rf[v6_set_name(z.zone)] == m[v6_set_name(z.zone)]) by {
            assert(untouched_by_zones(front, v6_set_name(z.zone))) by {
                assert forall|k: int| 0 <= k < front.len() implies v6_set_name(z.zone)
                    != v4_set_name(#[trigger] front[k].zone) && v6_set_name(z.zone)
                    != v6_set_name(front[k].zone) by {
                    assert(front[k] == proj[k]);
                    assert(proj[k].zone != z.zone);
                    lemma_set_names(z.zone, front[k].zone);
                    lemma_set_names(front[k].zone, z.zone);
                }
            }
        }
        // run the zone's own adds: v4 first, then v6
        lemma_run_concat(
            rf,
            v4_adds(table, v4_set_name(z.zone), z.v4),
            v6_adds(table, v6_set_name(z.zone), z.v6),
        );
        assert(zone_adds(table, z) == v4_adds(table, v4_set_name(z.zone), z.v4) + v6_adds(
            table,
            v6_set_name(z.zone),
            z.v6,
        ));
        lemma_v4_adds_effect(rf, table, v4_set_name(z.zone), z.v4);
        let r4 = run_plan(rf, v4_adds(table, v4_set_name(z.zone), z.v4));
        lemma_v6_adds_effect(r4, table, v6_set_name(z.zone), z.v6);
        lemma_set_names(z.zone, z.zone);
        assert(r == run_plan(r4, v6_adds(table, v6_set_name(z.zone), z.v6)));
        assert(r.dom() == m.dom());
        assert forall|k: int| 0 <= k < proj.len() implies r[#[trigger] v4_set_name(proj[k].zone)]
            == m[v4_set_name(proj[k].zone)].union(v4_text_set(proj[k].v4)) by {
            if k < proj.len() - 1 {
                assert(front[k] == proj[k]);
                lemma_set_names(proj[k].zone, z.zone);
                assert(r4[v4_set_name(proj[k].zone)] == rf[v4_set_name(proj[k].zone)]);
                assert(r[v4_set_name(proj[k].zone)] == r4[v4_set_name(proj[k].zone)]);
            } else {
                assert(r4[v4_set_name(z.zone)] == rf[v4_set_name(z.zone)].union(
                    v4_text_set(z.v4),
                ));
                assert(r[v4_set_name(z.zone)] == r4[v4_set_name(z.zone)]);
            }
        }
        assert forall|k: int| 0 <= k < proj.len() implies r[#[trigger] v6_set_name(proj[k].zone)]
            == m[v6_set_name(proj[k].zone)].union(v6_text_set(proj[k].v6)) by {
            if k < proj.len() - 1 {
                assert(front[k] == proj[k]);
                lemma_set_names(z.zone, proj[k].zone);
                lemma_set_names(proj[k].zone, z.zone);
                assert(r4[v6_set_name(proj[k].zone)] == rf[v6_set_name(proj[k].zone)]);
                assert(r[v6_set_name(proj[k].zone)] == r4[v6_set_name(proj[k].zone)]);
            } else {
                assert(r4[v6_set_name(z.zone)] == rf[v6_set_name(z.zone)]);
                assert(r[v6_set_name(z.zone)] == r4[v6_set_name(z.zone)].union(
                    v6_text_set(z.v6),
                ));
            }
        }
        assert forall|s: Seq<char>|
            #[trigger] untouched_by_zones(proj, s) && m.dom().contains(s) implies r[s]
            == m[s] by {
            assert(untouched_by_zones(front, s)) by {
                assert forall|k: int|
                    0 <= k < front.len() implies s != v4_set_name(#[trigger] front[k].zone) && s
                    != v6_set_name(front[k].zone) by {
                    assert(front[k] == proj[k]);
                }
            }
            assert(proj[proj.len() - 1] == z);
            assert(s != v4_set_name(z.zone) && s != v6_set_name(z.zone));
            assert(rf[s] == m[s]);
            assert(r4[s] == rf[s]);
            assert(r[s] == r4[s]);
        }
    }
}

/// The flush-plus-add round trip: whatever the kernel sets held before
/// the transaction, afterwards each projected zone's sets hold exactly
/// the projection's addresses, rendered as text, and any set the plan
/// does not name is untouched.  An external modification of a zone set
/// is therefore overwritten by the next projection.
pub proof fn lemma_apply_plan_round_trip(
    table: Seq<char>,
    proj: Seq<ZoneSetsView>,
    m0: Map<Seq<char>, Set<Seq<char>>>,
)
    requires
        forall|k: int, l: int| 0 <= k < l < proj.len() ==> proj[k].zone != proj[l].zone,
    ensures
        forall|k: int|
            0 <= k < proj.len() ==> run_plan(m0, apply_plan(table, proj)).dom().contains(
                #[trigger] v4_set_name(proj[k].zone),
            ) && run_plan(m0, apply_plan(table, proj))[v4_set_name(proj[k].zone)] == v4_text_set(
                proj[k].v4,
            ),
        forall|k: int|
            0 <= k < proj.len() ==> run_plan(m0, apply_plan(table, proj)).dom().contains(
                #[trigger] v6_set_name(proj[k].zone),
            ) && run_plan(m0, apply_plan(table, proj))[v6_set_name(proj[k].zone)] == v6_text_set(
                proj[k].v6,
            ),
        forall|s: Seq<char>|
            #[trigger] untouched_by_zones(proj, s) ==> (run_plan(
                m0,
                apply_plan(table, proj),
            ).dom().contains(s) == m0.dom().contains(s) && (m0.dom().contains(s) ==> run_plan(
                m0,
                apply_plan(table, proj),
            )[s] == m0[s])),
{
    lemma_run_concat(m0, flush_cmds(table, proj), all_adds(table, proj));
    let mf = run_plan(m0, flush_cmds(table, proj));
    lemma_flush_effect(m0, table, proj);
    lemma_all_adds_effect(mf, table, proj);
    let r = run_plan(mf, all_adds(table, proj));
    assert(run_plan(m0, apply_plan(table, proj)) == r);
    assert forall|k: int| 0 <= k < proj.len() implies r.dom().contains(
        #[trigger] v4_set_name(proj[k].zone),
    ) && r[v4_set_name(proj[k].zone)] == v4_text_set(proj[k].v4) by {
        assert(mf[v4_set_name(proj[k].zone)] == Set::<Seq<char>>::empty());
        assert(r[v4_set_name(proj[k].zone)] == mf[v4_set_name(proj[k].zone)].union(
            v4_text_set(proj[k].v4),
        ));
        assert(Set::<Seq<char>>::empty().union(v4_text_set(proj[k].v4)) =~= v4_text_set(
            proj[k].v4,
        ));
    }
    assert forall|k: int| 0 <= k < proj.len() implies r.dom().contains(
        #[trigger] v6_set_name(proj[k].zone),
    ) && r[v6_set_name(proj[k].zone)] == v6_text_set(proj[k].v6) by {
        assert(mf[v6_set_name(proj[k].zone)] == Set::<Seq<char>>::empty());
        assert(r[v6_set_name(proj[k].zone)] == mf[v6_set_name(proj[k].zone)].union(
            v6_text_set(proj[k].v6),
        ));
        assert(Set::<Seq<char>>::empty().union(v6_text_set(proj[k].v6)) =~= v6_text_set(
            proj[k].v6,
        ));
    }
}

} // verus!
